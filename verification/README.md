# rsvp

The logic behind a wedding website's RSVP and photo-upload APIs, verified
with Verus.

- `src/` — the library: guest-list parsing (`csv`, `guest_list`,
  `csv_searcher`), ranking of parties by name-similarity score keys
  (`name_searcher`), the RSVP request decisions (`handler`, `routes`),
  photo key naming (`photo`) and character-level helpers (`text`).
- `app/` — the Lambda functions: request and response I/O, DynamoDB and S3
  access, JSON, and the floating-point name scorer.
- `tests/` — tests of the library.

The handler offers two rule sets. The guest-list service's (`search`,
`validate_rsvp`) keeps parties scoring above 0.75 and limits dietary
restrictions to 100 characters; the site's own server's (`server_search`,
`validate_server_rsvp`) keeps parties scoring 0.75 or more and sets no limit.
The Lambda in `app/` follows the first when the guest list comes from S3 and
the second when it is the embedded list.
