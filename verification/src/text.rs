//! Character-level helpers shared by the parsers and formatters: the
//! `char::is_whitespace` class, `str::trim`, `str::split` and `str::splitn`
//! on character sequences, and decimal / hexadecimal rendering of integers.

use vstd::prelude::*;
use vstd::std_specs::iter::IteratorSpec;

verus! {

broadcast use vstd::string::group_string_axioms;

// ── Characters and strings ───────────────────────────────────────────────────

/// The characters of `s`, in order.
pub fn to_chars(s: &str) -> (r: Vec<char>)
    ensures
        r@ == s@,
{
    let mut it = s.chars();
    let mut out: Vec<char> = Vec::new();
    loop
        invariant
            out@ + it.remaining() == s@,
            it.obeys_prophetic_iter_laws(),
            it.decrease() is Some,
        decreases it.decrease()->0,
    {
        let ghost before = it.remaining();
        match it.next() {
            Some(c) => {
                out.push(c);
                assert(out@ + it.remaining() =~= s@) by {
                    assert(before == seq![c] + it.remaining());
                }
            },
            None => {
                assert(out@ =~= s@);
                return out;
            },
        }
    }
}

/// Appends one character; `String::push` as documented.
#[verifier::external_body]
pub(crate) fn push_char(s: &mut String, c: char)
    ensures
        final(s)@ == old(s)@.push(c),
{
    s.push(c);
}

/// A `String` holding exactly the given characters.
pub fn string_from_chars(cs: &Vec<char>) -> (r: String)
    ensures
        r@ == cs@,
{
    let mut out = String::new();
    let mut i: usize = 0;
    while i < cs.len()
        invariant
            i <= cs@.len(),
            out@ == cs@.take(i as int),
        decreases cs@.len() - i,
    {
        push_char(&mut out, cs[i]);
        assert(cs@.take(i as int).push(cs@[i as int]) =~= cs@.take(i + 1));
        i = i + 1;
    }
    assert(cs@.take(cs@.len() as int) =~= cs@);
    out
}

/// Appends the characters of `t` to `s`.
pub fn append_str(s: &mut String, t: &str)
    ensures
        final(s)@ == old(s)@ + t@,
{
    let cs = to_chars(t);
    let mut i: usize = 0;
    while i < cs.len()
        invariant
            i <= cs@.len(),
            cs@ == t@,
            s@ == old(s)@ + cs@.take(i as int),
        decreases cs@.len() - i,
    {
        push_char(s, cs[i]);
        assert(old(s)@ + cs@.take(i as int) + seq![cs@[i as int]] =~= old(s)@ + cs@.take(i + 1));
        i = i + 1;
    }
    assert(cs@.take(cs@.len() as int) =~= cs@);
}

/// Whether two string slices hold the same characters.
pub fn str_equal(a: &str, b: &str) -> (r: bool)
    ensures
        r == (a@ == b@),
{
    let x = to_chars(a);
    let y = to_chars(b);
    if x.len() != y.len() {
        return false;
    }
    let mut i: usize = 0;
    while i < x.len()
        invariant
            i <= x@.len(),
            x@.len() == y@.len(),
            x@ == a@,
            y@ == b@,
            forall|k: int| 0 <= k < i ==> x@[k] == y@[k],
        decreases x@.len() - i,
    {
        if x[i] != y[i] {
            assert(a@[i as int] != b@[i as int]);
            return false;
        }
        i = i + 1;
    }
    assert(x@ =~= y@);
    true
}

/// The characters of `v` from `start` up to (not including) `end`.
pub fn copy_range(v: &Vec<char>, start: usize, end: usize) -> (r: Vec<char>)
    requires
        start <= end <= v@.len(),
    ensures
        r@ == v@.subrange(start as int, end as int),
{
    let mut out: Vec<char> = Vec::new();
    let mut i = start;
    while i < end
        invariant
            start <= i <= end <= v@.len(),
            out@ == v@.subrange(start as int, i as int),
        decreases end - i,
    {
        out.push(v[i]);
        assert(out@ =~= v@.subrange(start as int, i + 1));
        i = i + 1;
    }
    out
}

// ── Whitespace and trimming ──────────────────────────────────────────────────

/// The Unicode `White_Space` property, which `char::is_whitespace` tests.
pub open spec fn is_white_space(c: char) -> bool {
    let u = c as u32;
    ||| 0x09 <= u <= 0x0D
    ||| u == 0x20
    ||| u == 0x85
    ||| u == 0xA0
    ||| u == 0x1680
    ||| 0x2000 <= u <= 0x200A
    ||| u == 0x2028
    ||| u == 0x2029
    ||| u == 0x202F
    ||| u == 0x205F
    ||| u == 0x3000
}

/// `char::is_whitespace`.
pub fn is_whitespace(c: char) -> (r: bool)
    ensures
        r == is_white_space(c),
{
    let u = c as u32;
    (0x09 <= u && u <= 0x0D) || u == 0x20 || u == 0x85 || u == 0xA0 || u == 0x1680 || (0x2000
        <= u && u <= 0x200A) || u == 0x2028 || u == 0x2029 || u == 0x202F || u == 0x205F || u
        == 0x3000
}

/// `s` without its leading whitespace.
pub open spec fn trim_start(s: Seq<char>) -> Seq<char>
    decreases s.len(),
{
    if s.len() > 0 && is_white_space(s[0]) {
        trim_start(s.drop_first())
    } else {
        s
    }
}

/// `s` without its trailing whitespace.
pub open spec fn trim_end(s: Seq<char>) -> Seq<char>
    decreases s.len(),
{
    if s.len() > 0 && is_white_space(s.last()) {
        trim_end(s.drop_last())
    } else {
        s
    }
}

/// `str::trim`: `s` without leading and trailing whitespace.
pub open spec fn trim(s: Seq<char>) -> Seq<char> {
    trim_end(trim_start(s))
}

/// `s` neither starts nor ends with whitespace.
pub open spec fn is_trimmed(s: Seq<char>) -> bool {
    s.len() == 0 || (!is_white_space(s[0]) && !is_white_space(s[s.len() - 1]))
}

proof fn lemma_trim_start(s: Seq<char>) -> (a: int)
    ensures
        0 <= a <= s.len(),
        trim_start(s) == s.skip(a),
        forall|k: int| 0 <= k < a ==> is_white_space(#[trigger] s[k]),
        a < s.len() ==> !is_white_space(s[a]),
    decreases s.len(),
{
    if s.len() > 0 && is_white_space(s[0]) {
        let a = lemma_trim_start(s.drop_first());
        assert(s.drop_first().skip(a) =~= s.skip(a + 1));
        assert forall|k: int| 0 <= k < a + 1 implies is_white_space(#[trigger] s[k]) by {
            if k > 0 {
                assert(s[k] == s.drop_first()[k - 1]);
            }
        }
        a + 1
    } else {
        assert(s.skip(0) =~= s);
        0
    }
}

proof fn lemma_trim_end(s: Seq<char>) -> (b: int)
    ensures
        0 <= b <= s.len(),
        trim_end(s) == s.take(b),
        forall|k: int| b <= k < s.len() ==> is_white_space(#[trigger] s[k]),
        b > 0 ==> !is_white_space(s[b - 1]),
    decreases s.len(),
{
    if s.len() > 0 && is_white_space(s.last()) {
        let b = lemma_trim_end(s.drop_last());
        assert(s.drop_last().take(b) =~= s.take(b));
        assert forall|k: int| b <= k < s.len() implies is_white_space(#[trigger] s[k]) by {
            if k < s.len() - 1 {
                assert(s[k] == s.drop_last()[k]);
            }
        }
        b
    } else {
        assert(s.take(s.len() as int) =~= s);
        s.len() as int
    }
}

/// What trimming does: it removes exactly the leading and the trailing
/// whitespace, so the result is a stretch of `s` that neither starts nor
/// ends with whitespace, with only whitespace before and after it; and
/// trimming again changes nothing.
pub proof fn lemma_trim(s: Seq<char>)
    ensures
        is_trimmed(trim(s)),
        trim(trim(s)) == trim(s),
        exists|a: int, b: int|
            0 <= a <= b <= s.len() && trim(s) == s.subrange(a, b) && (forall|k: int|
                0 <= k < a ==> is_white_space(#[trigger] s[k])) && (forall|k: int|
                b <= k < s.len() ==> is_white_space(#[trigger] s[k])),
{
    let a = lemma_trim_start(s);
    let t = s.skip(a);
    let b = lemma_trim_end(t);
    let r = trim(s);
    assert(r == t.take(b));
    assert(r =~= s.subrange(a, a + b));
    assert forall|k: int| a + b <= k < s.len() implies is_white_space(#[trigger] s[k]) by {
        assert(s[k] == t[k - a]);
    }
    if r.len() > 0 {
        assert(r[0] == s[a]);
        assert(r[r.len() - 1] == t[b - 1]);
    }
    lemma_trimmed_fixed(r);
}

/// A sequence that neither starts nor ends with whitespace is its own trim.
pub proof fn lemma_trimmed_fixed(s: Seq<char>)
    requires
        is_trimmed(s),
    ensures
        trim_start(s) == s,
        trim_end(s) == s,
        trim(s) == s,
{
}

/// `str::trim` on a character sequence.
pub fn trim_chars(v: &Vec<char>) -> (r: Vec<char>)
    ensures
        r@ == trim(v@),
{
    let n = v.len();
    let mut i: usize = 0;
    assert(v@.skip(0) =~= v@);
    while i < n && is_whitespace(v[i])
        invariant
            i <= n == v@.len(),
            trim_start(v@) == trim_start(v@.skip(i as int)),
        decreases n - i,
    {
        assert(v@.skip(i as int).drop_first() =~= v@.skip(i + 1));
        i = i + 1;
    }
    assert(trim_start(v@) == v@.skip(i as int)) by {
        if i == n {
            assert(v@.skip(i as int) =~= Seq::<char>::empty());
        }
    }
    let mut j: usize = n;
    while j > i && is_whitespace(v[j - 1])
        invariant
            i <= j <= n == v@.len(),
            trim_start(v@) == v@.skip(i as int),
            trim(v@) == trim_end(v@.subrange(i as int, j as int)),
        decreases j,
    {
        assert(v@.subrange(i as int, j as int).drop_last() =~= v@.subrange(i as int, j - 1));
        j = j - 1;
    }
    assert(v@.skip(i as int) =~= v@.subrange(i as int, n as int));
    copy_range(v, i, j)
}

// ── Splitting ────────────────────────────────────────────────────────────────

/// `str::split` with a single-character separator: the pieces of `s` between
/// occurrences of `sep` (there is always at least one piece).
pub open spec fn split(s: Seq<char>, sep: char) -> Seq<Seq<char>>
    decreases s.len(),
{
    if s.len() == 0 {
        seq![Seq::<char>::empty()]
    } else {
        let prev = split(s.drop_last(), sep);
        if s.last() == sep {
            prev.push(Seq::<char>::empty())
        } else {
            prev.update(prev.len() - 1, prev.last().push(s.last()))
        }
    }
}

proof fn lemma_split_nonempty(s: Seq<char>, sep: char)
    ensures
        split(s, sep).len() >= 1,
    decreases s.len(),
{
    if s.len() > 0 {
        lemma_split_nonempty(s.drop_last(), sep);
    }
}

/// The pieces `p` joined with `sep` between each two.
pub open spec fn join(p: Seq<Seq<char>>, sep: char) -> Seq<char>
    decreases p.len(),
{
    if p.len() == 0 {
        Seq::empty()
    } else if p.len() == 1 {
        p[0]
    } else {
        join(p.drop_last(), sep) + seq![sep] + p.last()
    }
}

/// What splitting does: the pieces hold no separator, and joining them with
/// the separator gives back the text.
pub proof fn lemma_split(s: Seq<char>, sep: char)
    ensures
        split(s, sep).len() >= 1,
        forall|k: int, i: int|
            0 <= k < split(s, sep).len() && 0 <= i < split(s, sep)[k].len() ==> #[trigger] split(
                s,
                sep,
            )[k][i] != sep,
        join(split(s, sep), sep) == s,
    decreases s.len(),
{
    if s.len() > 0 {
        let t = s.drop_last();
        let c = s.last();
        let prev = split(t, sep);
        lemma_split(t, sep);
        let cur = split(s, sep);
        if c == sep {
            assert(cur == prev.push(Seq::<char>::empty()));
            assert(cur.drop_last() =~= prev);
            assert(join(cur, sep) =~= s);
            assert forall|k: int, i: int|
                0 <= k < cur.len() && 0 <= i < cur[k].len() implies #[trigger] cur[k][i] != sep by {
                assert(cur[k] == prev[k]);
            }
        } else {
            let n = prev.len();
            assert(cur == prev.update(n - 1, prev.last().push(c)));
            assert forall|k: int, i: int|
                0 <= k < cur.len() && 0 <= i < cur[k].len() implies #[trigger] cur[k][i] != sep by {
                if k < n - 1 {
                    assert(cur[k] == prev[k]);
                } else if i < prev.last().len() {
                    assert(cur[k][i] == prev[n - 1][i]);
                }
            }
            if n == 1 {
                assert(join(cur, sep) =~= s);
            } else {
                assert(cur.drop_last() =~= prev.drop_last());
                assert(join(cur, sep) =~= join(prev, sep).push(c));
                assert(join(cur, sep) =~= s);
            }
        }
    }
}

/// `str::split` with a single-character separator.
pub fn split_chars(v: &Vec<char>, sep: char) -> (r: Vec<Vec<char>>)
    ensures
        r@.len() == split(v@, sep).len(),
        forall|k: int| 0 <= k < r@.len() ==> #[trigger] r@[k]@ == split(v@, sep)[k],
{
    let mut done: Vec<Vec<char>> = Vec::new();
    let mut cur: Vec<char> = Vec::new();
    let mut i: usize = 0;
    while i < v.len()
        invariant
            i <= v@.len(),
            done@.len() + 1 == split(v@.take(i as int), sep).len(),
            forall|k: int|
                0 <= k < done@.len() ==> #[trigger] done@[k]@ == split(v@.take(i as int), sep)[k],
            cur@ == split(v@.take(i as int), sep).last(),
        decreases v@.len() - i,
    {
        let c = v[i];
        let ghost pre = v@.take(i as int);
        proof {
            lemma_split_nonempty(pre, sep);
        }
        assert(v@.take(i + 1).drop_last() =~= pre);
        if c == sep {
            done.push(cur);
            cur = Vec::new();
        } else {
            cur.push(c);
        }
        i = i + 1;
    }
    assert(v@.take(v@.len() as int) =~= v@);
    proof {
        lemma_split_nonempty(v@, sep);
    }
    done.push(cur);
    done
}

/// Position of the first `c` in `s` at or after `from`, or `s.len()` if none.
pub open spec fn find_from(s: Seq<char>, c: char, from: int) -> int
    decreases s.len() - from,
{
    if from < 0 || from >= s.len() {
        s.len() as int
    } else if s[from] == c {
        from
    } else {
        find_from(s, c, from + 1)
    }
}

proof fn lemma_find_from_bounds(s: Seq<char>, c: char, from: int)
    requires
        0 <= from,
    ensures
        from <= find_from(s, c, from) <= s.len() || (from > s.len() && find_from(s, c, from)
            == s.len()),
        find_from(s, c, from) < s.len() ==> s[find_from(s, c, from)] == c,
    decreases s.len() - from,
{
    if from < s.len() && s[from] != c {
        lemma_find_from_bounds(s, c, from + 1);
    }
}

/// `str::splitn(n, sep)`: at most `n` pieces; the last piece is the
/// remainder of `s`, separators included.
pub open spec fn splitn(s: Seq<char>, n: nat, sep: char) -> Seq<Seq<char>>
    decreases n,
{
    if n == 0 {
        seq![]
    } else if n == 1 {
        seq![s]
    } else {
        let k = find_from(s, sep, 0);
        if k >= s.len() {
            seq![s]
        } else {
            seq![s.take(k)] + splitn(s.skip(k + 1), (n - 1) as nat, sep)
        }
    }
}

proof fn lemma_find_from_first(s: Seq<char>, c: char, from: int)
    requires
        0 <= from,
    ensures
        forall|i: int| from <= i < find_from(s, c, from) && i < s.len() ==> s[i] != c,
    decreases s.len() - from,
{
    if from < s.len() && s[from] != c {
        lemma_find_from_first(s, c, from + 1);
    }
}

proof fn lemma_join_prepend(a: Seq<char>, q: Seq<Seq<char>>, sep: char)
    requires
        q.len() >= 1,
    ensures
        join(seq![a] + q, sep) == a + seq![sep] + join(q, sep),
    decreases q.len(),
{
    let p = seq![a] + q;
    if q.len() == 1 {
        assert(p.drop_last() =~= seq![a]);
        assert(p.last() == q[0]);
        assert(join(seq![a], sep) == a);
        assert(join(q, sep) == q[0]);
        assert(join(p, sep) == join(p.drop_last(), sep) + seq![sep] + p.last());
    } else {
        assert(p.drop_last() =~= seq![a] + q.drop_last());
        lemma_join_prepend(a, q.drop_last(), sep);
        assert(p.last() == q.last());
        assert(join(p, sep) == join(p.drop_last(), sep) + seq![sep] + p.last());
        assert(join(q, sep) == join(q.drop_last(), sep) + seq![sep] + q.last());
        assert(join(p, sep) =~= a + seq![sep] + join(q, sep));
    }
}

/// What `splitn` does: for `n > 0` it gives between one and `n` pieces that
/// join with the separator back into the text; no piece but the last holds
/// the separator, and the last holds none either when there are fewer than
/// `n` pieces.
pub proof fn lemma_splitn(s: Seq<char>, n: nat, sep: char)
    ensures
        n == 0 ==> splitn(s, n, sep).len() == 0,
        n > 0 ==> 1 <= splitn(s, n, sep).len() <= n && join(splitn(s, n, sep), sep) == s,
        forall|k: int, i: int|
            0 <= k < splitn(s, n, sep).len() - 1 && 0 <= i < splitn(s, n, sep)[k].len()
                ==> #[trigger] splitn(s, n, sep)[k][i] != sep,
        n > 0 && splitn(s, n, sep).len() < n ==> forall|i: int|
            0 <= i < splitn(s, n, sep).last().len() ==> #[trigger] splitn(s, n, sep).last()[i]
                != sep,
    decreases n,
{
    if n >= 2 {
        let k = find_from(s, sep, 0);
        lemma_find_from_bounds(s, sep, 0);
        lemma_find_from_first(s, sep, 0);
        let p = splitn(s, n, sep);
        if k < s.len() {
            let rest = s.skip(k + 1);
            let q = splitn(rest, (n - 1) as nat, sep);
            lemma_splitn(rest, (n - 1) as nat, sep);
            assert(p == seq![s.take(k)] + q);
            lemma_join_prepend(s.take(k), q, sep);
            assert(join(p, sep) =~= s);
            assert forall|j: int, i: int|
                0 <= j < p.len() - 1 && 0 <= i < p[j].len() implies #[trigger] p[j][i] != sep by {
                if j == 0 {
                    assert(p[0] == s.take(k));
                } else {
                    assert(p[j] == q[j - 1]);
                }
            }
            if p.len() < n {
                assert(p.last() == q.last());
            }
        } else {
            assert(p == seq![s]);
        }
    }
}

/// Position of the first `c` in `v` at or after `from`, or `v.len()`.
fn find_char(v: &Vec<char>, c: char, from: usize) -> (r: usize)
    requires
        from <= v@.len(),
    ensures
        r == find_from(v@, c, from as int),
{
    let mut i = from;
    while i < v.len()
        invariant
            from <= i <= v@.len(),
            find_from(v@, c, from as int) == find_from(v@, c, i as int),
        decreases v@.len() - i,
    {
        if v[i] == c {
            return i;
        }
        i = i + 1;
    }
    i
}

/// `str::splitn(n, sep)` on a character sequence.
pub fn splitn_chars(v: &Vec<char>, n: usize, sep: char) -> (r: Vec<Vec<char>>)
    ensures
        r@.len() == splitn(v@, n as nat, sep).len(),
        forall|k: int| 0 <= k < r@.len() ==> #[trigger] r@[k]@ == splitn(v@, n as nat, sep)[k],
{
    let mut parts: Vec<Vec<char>> = Vec::new();
    if n == 0 {
        return parts;
    }
    let mut rest: Vec<char> = copy_range(v, 0, v.len());
    assert(rest@ =~= v@);
    let mut left: usize = n;
    while left > 1
        invariant
            1 <= left <= n,
            ({
                let full = splitn(v@, n as nat, sep);
                let tail = splitn(rest@, left as nat, sep);
                &&& full.len() == parts@.len() + tail.len()
                &&& forall|k: int| 0 <= k < parts@.len() ==> #[trigger] parts@[k]@ == full[k]
                &&& forall|k: int|
                    0 <= k < tail.len() ==> #[trigger] tail[k] == full[parts@.len() + k]
            }),
        ensures
            splitn(rest@, left as nat, sep) == seq![rest@],
        decreases left,
    {
        let k = find_char(&rest, sep, 0);
        proof {
            lemma_find_from_bounds(rest@, sep, 0);
        }
        if k >= rest.len() {
            break;
        }
        let ghost old_rest = rest@;
        let ghost old_parts = parts@;
        assert(splitn(old_rest, left as nat, sep) == seq![old_rest.take(k as int)] + splitn(
            old_rest.skip(k + 1),
            (left - 1) as nat,
            sep,
        ));
        let piece = copy_range(&rest, 0, k);
        let next = copy_range(&rest, k + 1, rest.len());
        assert(piece@ =~= rest@.take(k as int));
        assert(next@ =~= rest@.skip(k + 1));
        parts.push(piece);
        rest = next;
        left = left - 1;
        proof {
            let full = splitn(v@, n as nat, sep);
            let old_tail = splitn(old_rest, (left + 1) as nat, sep);
            let tail = splitn(rest@, left as nat, sep);
            assert(old_tail[0] == piece@);
            assert forall|j: int| 0 <= j < tail.len() implies #[trigger] tail[j] == full[parts@.len()
                + j] by {
                assert(tail[j] == old_tail[j + 1]);
            }
            assert forall|j: int| 0 <= j < parts@.len() implies #[trigger] parts@[j]@ == full[j] by {
                if j < old_parts.len() {
                    assert(parts@[j] == old_parts[j]);
                }
            }
        }
    }
    let ghost old_parts = parts@;
    parts.push(rest);
    proof {
        let full = splitn(v@, n as nat, sep);
        assert forall|j: int| 0 <= j < parts@.len() implies #[trigger] parts@[j]@ == full[j] by {
            if j < old_parts.len() {
                assert(parts@[j] == old_parts[j]);
            } else {
                assert(splitn(rest@, left as nat, sep)[0] == rest@);
            }
        }
    }
    parts
}

// ── Numbers ──────────────────────────────────────────────────────────────────

/// The digit for `d` (below 16): `0`-`9`, then `a`-`f`.
pub open spec fn digit_char(d: nat) -> char {
    if d < 10 {
        ((48 + d) as u8) as char
    } else {
        ((87 + d) as u8) as char
    }
}

/// `n` written in base `base` (2 to 16), most significant digit first, with
/// no leading zeros; zero is written `0`.
pub open spec fn radix_digits(n: nat, base: nat) -> Seq<char>
    decreases n,
{
    if base < 2 || n < base {
        seq![digit_char(n % 16)]
    } else {
        proof {
            assert(n / base < n) by (nonlinear_arith)
                requires
                    n >= base >= 2,
            ;
        }
        radix_digits(n / base, base).push(digit_char(n % base))
    }
}

/// The number that the digit `c` (`0`-`9`, then `a`-`f`) stands for.
pub open spec fn digit_value(c: char) -> int {
    if '0' <= c <= '9' {
        c as int - 48
    } else {
        c as int - 87
    }
}

/// The number that the digits `ds` stand for in base `base`, most
/// significant first.
pub open spec fn digits_value(ds: Seq<char>, base: nat) -> int
    decreases ds.len(),
{
    if ds.len() == 0 {
        0
    } else {
        digits_value(ds.drop_last(), base) * base + digit_value(ds.last())
    }
}

proof fn lemma_digit_char(d: nat)
    requires
        d < 16,
    ensures
        digit_value(digit_char(d)) == d,
        ('0' <= digit_char(d) <= '9') || ('a' <= digit_char(d) <= 'f'),
        digit_char(d) == '0' <==> d == 0,
{
}

/// What writing a number in a base gives: digits `0`-`9` and `a`-`f`, each
/// below the base, that stand for the number, at least one and with no
/// leading zero.
pub proof fn lemma_radix_digits(n: nat, base: nat)
    requires
        2 <= base <= 16,
    ensures
        radix_digits(n, base).len() >= 1,
        digits_value(radix_digits(n, base), base) == n,
        forall|i: int|
            0 <= i < radix_digits(n, base).len() ==> 0 <= digit_value(
                #[trigger] radix_digits(n, base)[i],
            ) < base && (('0' <= radix_digits(n, base)[i] <= '9') || ('a' <= radix_digits(
                n,
                base,
            )[i] <= 'f')),
        radix_digits(n, base).len() > 1 ==> radix_digits(n, base)[0] != '0',
    decreases n,
{
    let r = radix_digits(n, base);
    if n < base {
        assert(n % 16 == n);
        lemma_digit_char(n);
        assert(r.drop_last() =~= Seq::<char>::empty());
        assert(digits_value(r.drop_last(), base) == 0);
        assert(digits_value(r, base) == digits_value(r.drop_last(), base) * base + digit_value(
            r.last(),
        ));
    } else {
        let q = n / base;
        let d = n % base;
        assert(q < n && q >= 1 && d < base) by (nonlinear_arith)
            requires
                n >= base >= 2,
                q == n / base,
                d == n % base,
        ;
        assert(n == q * base + d) by (nonlinear_arith)
            requires
                base >= 2,
                q == n / base,
                d == n % base,
        ;
        lemma_radix_digits(q, base);
        lemma_digit_char(d);
        let p = radix_digits(q, base);
        assert(r == p.push(digit_char(d)));
        assert(r.drop_last() =~= p);
        assert(digits_value(r, base) == digits_value(p, base) * base + digit_value(r.last()));
        assert(digits_value(r, base) == q * base + d);
        assert forall|i: int| 0 <= i < r.len() implies 0 <= digit_value(#[trigger] r[i]) < base && (
        ('0' <= r[i] <= '9') || ('a' <= r[i] <= 'f')) by {
            if i < p.len() {
                assert(r[i] == p[i]);
            }
        }
        assert(r[0] == p[0]);
        if p.len() == 1 {
            assert(q < base) by {
                if q >= base {
                    assert(radix_digits(q, base).len() > 1) by {
                        lemma_radix_digits(q / base, base);
                    }
                }
            }
            assert(q % 16 == q);
            lemma_digit_char(q);
        }
    }
}

/// `n.to_string()` for an unsigned integer.
pub open spec fn decimal(n: nat) -> Seq<char> {
    radix_digits(n, 10)
}

/// `format!("{:x}", n)` for an unsigned integer.
pub open spec fn lower_hex(n: nat) -> Seq<char> {
    radix_digits(n, 16)
}

fn digit(d: u128) -> (c: char)
    requires
        d < 16,
    ensures
        c == digit_char(d as nat),
{
    let b: u8 = d as u8;
    if b < 10 {
        (48 + b) as char
    } else {
        (87 + b) as char
    }
}

/// Appends `radix_digits(n, base)` to `out`.
pub fn push_radix(out: &mut String, n: u128, base: u128)
    requires
        2 <= base <= 16,
    ensures
        final(out)@ == old(out)@ + radix_digits(n as nat, base as nat),
    decreases n,
{
    if n < base {
        push_char(out, digit(n));
        assert(n as nat % 16 == n as nat);
    } else {
        let q = n / base;
        let d = n % base;
        assert(q < n) by (nonlinear_arith)
            requires
                q == n / base,
                n >= base >= 2,
        ;
        push_radix(out, q, base);
        push_char(out, digit(d));
        assert(old(out)@ + radix_digits(q as nat, base as nat) + seq![digit_char(d as nat)]
            =~= old(out)@ + radix_digits(n as nat, base as nat));
    }
}

/// `n.to_string()` for a `u64`.
pub fn u64_to_decimal(n: u64) -> (r: String)
    ensures
        r@ == decimal(n as nat),
{
    let mut out = String::new();
    push_radix(&mut out, n as u128, 10);
    assert(out@ =~= decimal(n as nat));
    out
}

} // verus!
