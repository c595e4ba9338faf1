//! Naming of uploaded photos.

use vstd::prelude::*;

use crate::text::{append_str, lower_hex, push_char, push_radix, to_chars};

verus! {

/// Whether `c` is alphabetic or numeric in Unicode.
pub uninterp spec fn char_is_alphanumeric(c: char) -> bool;

/// Whether `c` is an ASCII letter or digit.
pub open spec fn is_ascii_alphanumeric(c: char) -> bool {
    let u = c as u32;
    (0x30 <= u <= 0x39) || (0x41 <= u <= 0x5A) || (0x61 <= u <= 0x7A)
}

/// `char::is_alphanumeric`: whether the character has the Unicode
/// `Alphabetic` property or a numeric general category.  For an ASCII
/// character this holds exactly of the letters and digits (std's
/// `is_alphabetic` and `is_numeric` match `'a'..='z' | 'A'..='Z'` and
/// `'0'..='9'` and otherwise require `c > '\x7f'`).
#[verifier::external_body]
fn is_alphanumeric(c: char) -> (r: bool)
    ensures
        r == char_is_alphanumeric(c),
        (c as u32) < 128 ==> (r <==> is_ascii_alphanumeric(c)),
{
    c.is_alphanumeric()
}

/// The character that stands for `c` in a stored file name: `c` itself when
/// it is alphanumeric, `.` or `-`, else `_`.
pub open spec fn safe_char(c: char) -> char {
    if char_is_alphanumeric(c) || c == '.' || c == '-' {
        c
    } else {
        '_'
    }
}

/// `safe_char` on an ASCII character: ASCII letters, digits, `.` and `-`
/// stay, anything else becomes `_`.
pub open spec fn ascii_safe_char(c: char) -> char {
    if is_ascii_alphanumeric(c) || c == '.' || c == '-' {
        c
    } else {
        '_'
    }
}

/// A file name with every character replaced by `safe_char`.
pub open spec fn sanitized(name: Seq<char>) -> Seq<char> {
    name.map_values(|c: char| safe_char(c))
}

/// Replaces every character of `name` that is not alphanumeric, `.` or `-`
/// with `_`; the result is as long as `name`, keeps each ASCII letter and
/// digit, turns every other ASCII character but `.` and `-` into `_`, and
/// holds no path separator, `/` or `\`.
pub fn sanitize_filename(name: &str) -> (r: String)
    ensures
        r@ == sanitized(name@),
        r@.len() == name@.len(),
        forall|i: int|
            0 <= i < name@.len() && (name@[i] as u32) < 128 ==> #[trigger] r@[i]
                == ascii_safe_char(name@[i]),
        forall|i: int| 0 <= i < r@.len() ==> #[trigger] r@[i] != '/' && r@[i] != '\\',
{
    let cs = to_chars(name);
    let mut out = String::new();
    let mut i: usize = 0;
    while i < cs.len()
        invariant
            i <= cs@.len(),
            cs@ == name@,
            out@ == sanitized(cs@.take(i as int)),
            forall|k: int| 0 <= k < out@.len() ==> #[trigger] out@[k] != '/' && out@[k] != '\\',
            out@.len() == i,
            forall|k: int|
                0 <= k < i && (cs@[k] as u32) < 128 ==> #[trigger] out@[k] == ascii_safe_char(
                    cs@[k],
                ),
        decreases cs@.len() - i,
    {
        let c = cs[i];
        let kept = if is_alphanumeric(c) || c == '.' || c == '-' {
            c
        } else {
            '_'
        };
        push_char(&mut out, kept);
        assert(sanitized(cs@.take(i + 1)) =~= sanitized(cs@.take(i as int)).push(safe_char(c)));
        i = i + 1;
    }
    assert(cs@.take(cs@.len() as int) =~= cs@);
    out
}

/// Sanitizing twice changes nothing more than sanitizing once.
pub proof fn lemma_sanitize_idempotent(name: Seq<char>)
    ensures
        sanitized(sanitized(name)) == sanitized(name),
{
    assert(sanitized(sanitized(name)) =~= sanitized(name));
}

/// A sanitized name is as long as the name, and holds only alphanumeric
/// characters, `.`, `-` and `_`.
pub proof fn lemma_sanitized_chars(name: Seq<char>)
    ensures
        sanitized(name).len() == name.len(),
        forall|i: int|
            0 <= i < name.len() ==> {
                let c = #[trigger] sanitized(name)[i];
                char_is_alphanumeric(c) || c == '.' || c == '-' || c == '_'
            },
{
}

/// A short time-based prefix: the milliseconds since the Unix epoch in
/// lowercase hexadecimal.
pub fn uuid_prefix(millis: u128) -> (r: String)
    ensures
        r@ == lower_hex(millis as nat),
{
    let mut out = String::new();
    push_radix(&mut out, millis, 16);
    assert(out@ =~= lower_hex(millis as nat));
    out
}

/// The storage key of an upload: `<uuid_prefix>/<sanitized file name>`.
pub fn upload_key(millis: u128, filename: &str) -> (r: String)
    ensures
        r@ == lower_hex(millis as nat) + "/"@ + sanitized(filename@),
{
    let mut out = uuid_prefix(millis);
    append_str(&mut out, "/");
    let name = sanitize_filename(filename);
    append_str(&mut out, name.as_str());
    out
}

/// The JSON body of an error answer: `{"error":"<message>"}`.
pub fn error_body(message: &str) -> (r: String)
    ensures
        r@ == "{\"error\":\""@ + message@ + "\"}"@,
{
    let mut out = String::new();
    append_str(&mut out, "{\"error\":\"");
    append_str(&mut out, message);
    append_str(&mut out, "\"}");
    assert(out@ =~= "{\"error\":\""@ + message@ + "\"}"@);
    out
}

} // verus!
