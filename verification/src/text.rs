//! Character-level text primitives used by the parsers and formatters.
//!
//! Text is modelled as `Seq<char>`; the executable helpers work on `Vec<char>`
//! and `String` and are proved against the spec functions below.
use vstd::prelude::*;

verus! {

/// The Unicode `White_Space` property, as `char::is_whitespace` documents it.
pub open spec fn is_white_space(c: char) -> bool {
    ||| ('\u{9}' <= c && c <= '\u{d}')
    ||| c == ' '
    ||| c == '\u{85}'
    ||| c == '\u{a0}'
    ||| c == '\u{1680}'
    ||| ('\u{2000}' <= c && c <= '\u{200a}')
    ||| c == '\u{2028}'
    ||| c == '\u{2029}'
    ||| c == '\u{202f}'
    ||| c == '\u{205f}'
    ||| c == '\u{3000}'
}

/// `char::is_whitespace`: true exactly for the characters with the Unicode
/// `White_Space` property.
#[verifier::external_body]
pub(crate) fn char_is_whitespace(c: char) -> (b: bool)
    ensures
        b == is_white_space(c),
{
    c.is_whitespace()
}

/// `String::push`: appends one character.
#[verifier::external_body]
pub(crate) fn push_char(s: &mut String, c: char)
    ensures
        final(s)@ == old(s)@.push(c),
{
    s.push(c)
}

/// `String::push_str`: appends a string slice.
#[verifier::external_body]
pub(crate) fn push_str(s: &mut String, t: &str)
    ensures
        final(s)@ == old(s)@ + t@,
{
    s.push_str(t)
}

// ── Spec model ───────────────────────────────────────────────────────────

/// Length in bytes of the UTF-8 encoding of `s`, as `str::len` reports it.
pub open spec fn utf8_len(s: Seq<char>) -> usize {
    vstd::utf8::encode_utf8(s).len() as usize
}

/// `s` with its leading white space removed.
pub open spec fn trim_start(s: Seq<char>) -> Seq<char>
    decreases s.len(),
{
    if s.len() > 0 && is_white_space(s[0]) {
        trim_start(s.drop_first())
    } else {
        s
    }
}

/// `s` with its trailing white space removed.
pub open spec fn trim_end(s: Seq<char>) -> Seq<char>
    decreases s.len(),
{
    if s.len() > 0 && is_white_space(s.last()) {
        trim_end(s.drop_last())
    } else {
        s
    }
}

/// `str::trim`: leading and trailing white space removed.
pub open spec fn trim(s: Seq<char>) -> Seq<char> {
    trim_end(trim_start(s))
}

pub open spec fn starts_with(s: Seq<char>, p: Seq<char>) -> bool {
    p.len() <= s.len() && s.subrange(0, p.len() as int) == p
}

pub open spec fn ends_with(s: Seq<char>, p: Seq<char>) -> bool {
    p.len() <= s.len() && s.subrange(s.len() - p.len(), s.len() as int) == p
}

/// `p` occurs in `s` at position `i`.
pub open spec fn occurs_at(s: Seq<char>, p: Seq<char>, i: int) -> bool {
    0 <= i && i + p.len() <= s.len() && s.subrange(i, i + p.len()) == p
}

/// `p` occurs somewhere in `s`.
pub open spec fn contains(s: Seq<char>, p: Seq<char>) -> bool {
    exists|i: int| occurs_at(s, p, i)
}

/// Number of characters of `s` that are not white space.
pub open spec fn count_non_ws(s: Seq<char>) -> nat
    decreases s.len(),
{
    if s.len() == 0 {
        0
    } else {
        count_non_ws(s.drop_last()) + if is_white_space(s.last()) {
            0nat
        } else {
            1nat
        }
    }
}

/// Index of the first `'\n'` at or after `i`, or `s.len()` if there is none.
pub open spec fn line_end_from(s: Seq<char>, i: int) -> int
    decreases s.len() - i,
{
    if i < 0 || i >= s.len() {
        s.len() as int
    } else if s[i] == '\n' {
        i
    } else {
        line_end_from(s, i + 1)
    }
}

/// The line that starts at `start`: up to the next `'\n'`, with one `'\r'`
/// removed when it stands just before that `'\n'`.
pub open spec fn line_at(s: Seq<char>, start: int) -> Seq<char> {
    let e = line_end_from(s, start);
    let raw = s.subrange(start, e);
    if e < s.len() && raw.len() > 0 && raw.last() == '\r' {
        raw.drop_last()
    } else {
        raw
    }
}

/// The lines of `s` from position `start` on.
pub open spec fn lines_from(s: Seq<char>, start: int) -> Seq<Seq<char>>
    decreases s.len() + 1 - start,
    via lines_from_decreases
{
    if start < 0 || start >= s.len() {
        seq![]
    } else {
        seq![line_at(s, start)] + lines_from(s, line_end_from(s, start) + 1)
    }
}

#[via_fn]
proof fn lines_from_decreases(s: Seq<char>, start: int) {
    if !(start < 0 || start >= s.len()) {
        lemma_line_end_bounds(s, start);
    }
}

/// The contents of a vector of character vectors.
pub open spec fn views(v: Seq<Vec<char>>) -> Seq<Seq<char>> {
    v.map_values(|x: Vec<char>| x@)
}

/// `str::lines`: the text split at `"\n"` and `"\r\n"`; a final line ending
/// is optional, so no empty last line is produced for it.
pub open spec fn lines(s: Seq<char>) -> Seq<Seq<char>> {
    lines_from(s, 0)
}

/// The parts joined with `sep` between consecutive parts.
pub open spec fn join(parts: Seq<Seq<char>>, sep: Seq<char>) -> Seq<char>
    decreases parts.len(),
{
    if parts.len() == 0 {
        seq![]
    } else if parts.len() == 1 {
        parts[0]
    } else {
        join(parts.drop_last(), sep) + sep + parts.last()
    }
}

/// Decimal digits of `n`, most significant first (`"0"` for zero), as
/// `usize`'s `Display` writes them.
pub open spec fn decimal(n: nat) -> Seq<char>
    decreases n,
{
    if n < 10 {
        seq![((n + 48) as u8) as char]
    } else {
        decimal(n / 10) + seq![((n % 10 + 48) as u8) as char]
    }
}

/// `s` with every leading repetition of `p` removed (`str::trim_start_matches`
/// for a non-empty pattern).
pub open spec fn strip_prefixes(s: Seq<char>, p: Seq<char>) -> Seq<char>
    decreases s.len(),
{
    if p.len() > 0 && starts_with(s, p) {
        strip_prefixes(s.subrange(p.len() as int, s.len() as int), p)
    } else {
        s
    }
}

/// `s` with every trailing repetition of `p` removed (`str::trim_end_matches`
/// for a non-empty pattern).
pub open spec fn strip_suffixes(s: Seq<char>, p: Seq<char>) -> Seq<char>
    decreases s.len(),
{
    if p.len() > 0 && ends_with(s, p) {
        strip_suffixes(s.subrange(0, s.len() - p.len()), p)
    } else {
        s
    }
}

// ── Lemmas ───────────────────────────────────────────────────────────────

pub proof fn lemma_line_end_bounds(s: Seq<char>, i: int)
    requires
        0 <= i,
    ensures
        i <= s.len() ==> i <= line_end_from(s, i) <= s.len(),
        i > s.len() ==> line_end_from(s, i) == s.len(),
        line_end_from(s, i) < s.len() ==> s[line_end_from(s, i)] == '\n',
        forall|k: int| i <= k < line_end_from(s, i) ==> s[k] != '\n',
    decreases s.len() - i,
{
    if i < s.len() && s[i] != '\n' {
        lemma_line_end_bounds(s, i + 1);
    }
}

/// Skipping characters that are not `'\n'` does not move the end of the line.
pub proof fn lemma_line_end_skip(s: Seq<char>, a: int, b: int)
    requires
        0 <= a <= b <= s.len(),
        forall|k: int| a <= k < b ==> s[k] != '\n',
    ensures
        line_end_from(s, a) == line_end_from(s, b),
    decreases b - a,
{
    if a < b {
        lemma_line_end_skip(s, a + 1, b);
    }
}

pub proof fn lemma_count_non_ws_push(s: Seq<char>, c: char)
    ensures
        count_non_ws(s.push(c)) == count_non_ws(s) + if is_white_space(c) {
            0nat
        } else {
            1nat
        },
{
    assert(s.push(c).drop_last() =~= s);
}

pub proof fn lemma_count_non_ws_le(s: Seq<char>)
    ensures
        count_non_ws(s) <= s.len(),
    decreases s.len(),
{
    if s.len() > 0 {
        lemma_count_non_ws_le(s.drop_last());
    }
}

pub proof fn lemma_join_push(parts: Seq<Seq<char>>, sep: Seq<char>, p: Seq<char>)
    ensures
        join(parts.push(p), sep) == if parts.len() == 0 {
            p
        } else {
            join(parts, sep) + sep + p
        },
{
    assert(parts.push(p).drop_last() =~= parts);
}

// ── Executable helpers ──────────────────────────────────────────────────

/// The characters of `s`, in order.
pub fn to_chars(s: &str) -> (v: Vec<char>)
    ensures
        v@ == s@,
{
    let mut v: Vec<char> = Vec::new();
    for c in it: s.chars()
        invariant
            v@ == it.seq().subrange(0, it.index() as int),
            it.seq() == s@,
    {
        v.push(c);
    }
    v
}

/// A `String` holding exactly the characters `v`.
pub fn from_chars(v: &[char]) -> (s: String)
    ensures
        s@ == v@,
{
    let mut s = String::new();
    let mut i: usize = 0;
    while i < v.len()
        invariant
            i <= v.len(),
            s@ == v@.subrange(0, i as int),
        decreases v.len() - i,
    {
        push_char(&mut s, v[i]);
        i = i + 1;
    }
    s
}

/// `s` followed by the characters `v`.
pub fn push_chars(s: &mut String, v: &[char])
    ensures
        final(s)@ == old(s)@ + v@,
{
    let mut i: usize = 0;
    while i < v.len()
        invariant
            i <= v.len(),
            s@ == old(s)@ + v@.subrange(0, i as int),
        decreases v.len() - i,
    {
        push_char(s, v[i]);
        i = i + 1;
    }
}

/// The characters `v[from..to]`.
pub fn slice_chars(v: &[char], from: usize, to: usize) -> (r: Vec<char>)
    requires
        from <= to <= v.len(),
    ensures
        r@ == v@.subrange(from as int, to as int),
{
    let mut r: Vec<char> = Vec::new();
    let mut i = from;
    while i < to
        invariant
            from <= i <= to <= v.len(),
            r@ == v@.subrange(from as int, i as int),
        decreases to - i,
    {
        r.push(v[i]);
        i = i + 1;
    }
    r
}

/// Number of characters that are not white space.
pub fn count_nws_chars(v: &[char]) -> (n: usize)
    ensures
        n == count_non_ws(v@),
{
    let mut n: usize = 0;
    let mut i: usize = 0;
    while i < v.len()
        invariant
            i <= v.len(),
            n == count_non_ws(v@.subrange(0, i as int)),
            n <= i,
        decreases v.len() - i,
    {
        proof {
            lemma_count_non_ws_push(v@.subrange(0, i as int), v@[i as int]);
            assert(v@.subrange(0, i as int).push(v@[i as int]) =~= v@.subrange(0, i + 1));
        }
        if !char_is_whitespace(v[i]) {
            n = n + 1;
        }
        i = i + 1;
    }
    assert(v@.subrange(0, v.len() as int) =~= v@);
    n
}

/// Bounds `(a, b)` with `v[a..b] == trim(v)`.
pub fn trim_bounds(v: &[char]) -> (r: (usize, usize))
    ensures
        r.0 <= r.1 <= v.len(),
        v@.subrange(r.0 as int, r.1 as int) == trim(v@),
{
    let mut a: usize = 0;
    assert(v@.subrange(0, v.len() as int) =~= v@);
    while a < v.len() && char_is_whitespace(v[a])
        invariant
            a <= v.len(),
            trim_start(v@) == trim_start(v@.subrange(a as int, v.len() as int)),
        decreases v.len() - a,
    {
        assert(v@.subrange(a as int, v.len() as int).drop_first() =~= v@.subrange(
            a + 1,
            v.len() as int,
        ));
        a = a + 1;
    }
    assert(trim_start(v@) == v@.subrange(a as int, v.len() as int)) by {
        assert(v@.subrange(0, v.len() as int) =~= v@);
    }
    let mut b: usize = v.len();
    while b > a && char_is_whitespace(v[b - 1])
        invariant
            a <= b <= v.len(),
            trim_end(v@.subrange(a as int, v.len() as int)) == trim_end(
                v@.subrange(a as int, b as int),
            ),
        decreases b - a,
    {
        assert(v@.subrange(a as int, b as int).drop_last() =~= v@.subrange(
            a as int,
            b - 1,
        ));
        b = b - 1;
    }
    (a, b)
}

/// `trim(v)` as a new vector.
pub fn trim_chars(v: &[char]) -> (r: Vec<char>)
    ensures
        r@ == trim(v@),
{
    let (a, b) = trim_bounds(v);
    slice_chars(v, a, b)
}

/// Whether `p` is a prefix of `s`.
pub fn has_prefix(s: &[char], p: &[char]) -> (b: bool)
    ensures
        b == starts_with(s@, p@),
{
    if p.len() > s.len() {
        return false;
    }
    let mut i: usize = 0;
    while i < p.len()
        invariant
            i <= p.len() <= s.len(),
            s@.subrange(0, i as int) == p@.subrange(0, i as int),
        decreases p.len() - i,
    {
        if s[i] != p[i] {
            assert(s@.subrange(0, p.len() as int)[i as int] != p@[i as int]);
            return false;
        }
        assert(s@.subrange(0, i + 1) =~= s@.subrange(0, i as int).push(s@[i as int]));
        assert(p@.subrange(0, i + 1) =~= p@.subrange(0, i as int).push(p@[i as int]));
        i = i + 1;
    }
    assert(p@.subrange(0, p.len() as int) =~= p@);
    true
}

/// Whether `p` occurs in `s` at position `at`.
pub fn matches_at(s: &[char], p: &[char], at: usize) -> (b: bool)
    ensures
        b == occurs_at(s@, p@, at as int),
{
    if at > s.len() || p.len() > s.len() - at {
        return false;
    }
    let mut i: usize = 0;
    while i < p.len()
        invariant
            i <= p.len(),
            at + p.len() <= s.len(),
            s@.subrange(at as int, at + i) == p@.subrange(0, i as int),
        decreases p.len() - i,
    {
        if s[at + i] != p[i] {
            assert(s@.subrange(at as int, at + p.len())[i as int] != p@[i as int]);
            return false;
        }
        assert(s@.subrange(at as int, at + i + 1) =~= s@.subrange(at as int, at + i).push(
            s@[at + i],
        ));
        assert(p@.subrange(0, i + 1) =~= p@.subrange(0, i as int).push(p@[i as int]));
        i = i + 1;
    }
    assert(p@.subrange(0, p.len() as int) =~= p@);
    true
}

/// Whether `p` is a suffix of `s`.
pub fn has_suffix(s: &[char], p: &[char]) -> (b: bool)
    ensures
        b == ends_with(s@, p@),
{
    if p.len() > s.len() {
        return false;
    }
    let r = matches_at(s, p, s.len() - p.len());
    r
}

/// The first position at which `p` occurs in `s`, if any.
pub fn find_chars(s: &[char], p: &[char]) -> (r: Option<usize>)
    ensures
        r matches Some(i) ==> occurs_at(s@, p@, i as int) && forall|j: int|
            0 <= j < i ==> !occurs_at(s@, p@, j),
        r is None ==> !contains(s@, p@),
{
    if p.len() > s.len() {
        return None;
    }
    let last = s.len() - p.len();
    let mut i: usize = 0;
    loop
        invariant
            p.len() <= s.len(),
            last == s.len() - p.len(),
            i <= last,
            forall|j: int| 0 <= j < i ==> !occurs_at(s@, p@, j),
        decreases last - i,
    {
        if matches_at(s, p, i) {
            return Some(i);
        }
        if i == last {
            assert forall|j: int| occurs_at(s@, p@, j) implies j <= last by {}
            return None;
        }
        i = i + 1;
    }
}

/// Whether `p` occurs in `s`.
pub fn contains_chars(s: &[char], p: &[char]) -> (b: bool)
    ensures
        b == contains(s@, p@),
{
    match find_chars(s, p) {
        Some(_) => true,
        None => false,
    }
}

/// The lines of `v`, as `str::lines` splits them.
pub fn split_lines(v: &[char]) -> (r: Vec<Vec<char>>)
    ensures
        views(r@) == lines(v@),
{
    let mut r: Vec<Vec<char>> = Vec::new();
    let mut start: usize = 0;
    let mut i: usize = 0;
    while i < v.len()
        invariant
            start <= i <= v.len(),
            forall|k: int| start <= k < i ==> v@[k] != '\n',
            lines(v@) == views(r@) + lines_from(v@, start as int),
        decreases v.len() - i,
    {
        if v[i] == '\n' {
            proof {
                lemma_line_end_skip(v@, start as int, i as int);
                assert(line_end_from(v@, i as int) == i);
            }
            let mut end = i;
            if end > start && v[end - 1] == '\r' {
                end = end - 1;
            }
            let line = slice_chars(v, start, end);
            proof {
                let raw = v@.subrange(start as int, i as int);
                if i > start && v@[i - 1] == '\r' {
                    assert(raw.drop_last() =~= v@.subrange(start as int, end as int));
                }
                assert(line@ == line_at(v@, start as int));
                assert(lines_from(v@, start as int) == seq![line_at(v@, start as int)]
                    + lines_from(v@, i + 1));
            }
            let ghost old_r = views(r@);
            r.push(line);
            proof {
                assert(views(r@) =~= old_r.push(line@));
                assert(views(r@) + lines_from(v@, i + 1) =~= old_r + (seq![
                    line_at(v@, start as int),
                ] + lines_from(v@, i + 1)));
            }
            start = i + 1;
        }
        i = i + 1;
    }
    if start < v.len() {
        proof {
            lemma_line_end_skip(v@, start as int, v.len() as int);
            assert(line_end_from(v@, v.len() as int) == v.len());
            assert(lines_from(v@, v.len() + 1) =~= Seq::<Seq<char>>::empty());
            assert(lines_from(v@, start as int) =~= seq![line_at(v@, start as int)]);
        }
        let line = slice_chars(v, start, v.len());
        let ghost old_r = views(r@);
        r.push(line);
        proof {
            assert(views(r@) =~= old_r.push(line@));
        }
    }
    r
}

/// Decimal rendering of `n`.
pub fn decimal_string(n: usize) -> (s: String)
    ensures
        s@ == decimal(n as nat),
    decreases n,
{
    if n < 10 {
        let mut s = String::new();
        let d: u8 = n as u8;
        push_char(&mut s, (d + 48) as char);
        s
    } else {
        let mut s = decimal_string(n / 10);
        let d: u8 = (n % 10) as u8;
        push_char(&mut s, (d + 48) as char);
        s
    }
}

/// Decimal rendering of a 64-bit `n`.
pub fn decimal_u64(n: u64) -> (s: String)
    ensures
        s@ == decimal(n as nat),
    decreases n,
{
    if n < 10 {
        let mut s = String::new();
        let d: u8 = n as u8;
        push_char(&mut s, (d + 48) as char);
        s
    } else {
        let mut s = decimal_u64(n / 10);
        let d: u8 = (n % 10) as u8;
        push_char(&mut s, (d + 48) as char);
        s
    }
}

/// Decimal rendering of an integer, with a minus sign when negative.
pub open spec fn signed_decimal(n: int) -> Seq<char> {
    if n < 0 {
        seq!['-'] + decimal((-n) as nat)
    } else {
        decimal(n as nat)
    }
}

/// Decimal rendering of a signed 64-bit `n`.
pub fn decimal_i64(n: i64) -> (s: String)
    ensures
        s@ == signed_decimal(n as int),
{
    if n < 0 {
        let m: u64 = if n == i64::MIN {
            9223372036854775808u64
        } else {
            (-n) as u64
        };
        let mut s = String::new();
        push_char(&mut s, '-');
        let digits = decimal_u64(m);
        push_str(&mut s, digits.as_str());
        s
    } else {
        decimal_u64(n as u64)
    }
}

/// `s` right-aligned in a field of `w` characters, padded with spaces.
pub open spec fn pad_left(s: Seq<char>, w: nat) -> Seq<char> {
    if s.len() < w {
        Seq::new((w - s.len()) as nat, |i: int| ' ') + s
    } else {
        s
    }
}

/// `v` with every leading repetition of `p` removed.
pub fn trim_start_matches(v: &[char], p: &[char]) -> (r: Vec<char>)
    requires
        p.len() > 0,
    ensures
        r@ == strip_prefixes(v@, p@),
{
    let mut start: usize = 0;
    assert(v@.subrange(0, v.len() as int) =~= v@);
    loop
        invariant
            start <= v.len(),
            p.len() > 0,
            strip_prefixes(v@, p@) == strip_prefixes(v@.subrange(start as int, v.len() as int), p@),
        ensures
            strip_prefixes(v@, p@) == v@.subrange(start as int, v.len() as int),
        decreases v.len() - start,
    {
        if matches_at(v, p, start) {
            assert(starts_with(v@.subrange(start as int, v.len() as int), p@)) by {
                assert(v@.subrange(start as int, v.len() as int).subrange(0, p.len() as int)
                    =~= v@.subrange(start as int, start + p.len()));
            }
            assert(v@.subrange(start as int, v.len() as int).subrange(p.len() as int, v.len() - start)
                =~= v@.subrange(start + p.len(), v.len() as int));
            start = start + p.len();
        } else {
            proof {
                if starts_with(v@.subrange(start as int, v.len() as int), p@) {
                    assert(v@.subrange(start as int, v.len() as int).subrange(0, p.len() as int)
                        =~= v@.subrange(start as int, start + p.len()));
                }
            }
            assert(!starts_with(v@.subrange(start as int, v.len() as int), p@));
            break;
        }
    }
    slice_chars(v, start, v.len())
}

/// `v` with every trailing repetition of `p` removed.
pub fn trim_end_matches(v: &[char], p: &[char]) -> (r: Vec<char>)
    requires
        p.len() > 0,
    ensures
        r@ == strip_suffixes(v@, p@),
{
    let mut end: usize = v.len();
    assert(v@.subrange(0, v.len() as int) =~= v@);
    loop
        invariant
            end <= v.len(),
            p.len() > 0,
            strip_suffixes(v@, p@) == strip_suffixes(v@.subrange(0, end as int), p@),
        ensures
            strip_suffixes(v@, p@) == v@.subrange(0, end as int),
        decreases end,
    {
        let pre = slice_chars(v, 0, end);
        if has_suffix(pre.as_slice(), p) {
            assert(pre@.subrange(0, end - p.len()) =~= v@.subrange(0, end - p.len()));
            end = end - p.len();
        } else {
            assert(!ends_with(v@.subrange(0, end as int), p@));
            break;
        }
    }
    slice_chars(v, 0, end)
}

/// The parts `parts[from..to]` joined with `sep`.
pub fn join_range(parts: &Vec<Vec<char>>, from: usize, to: usize, sep: &[char]) -> (r: Vec<char>)
    requires
        from <= to <= parts.len(),
    ensures
        r@ == join(views(parts@).subrange(from as int, to as int), sep@),
{
    let mut r: Vec<char> = Vec::new();
    let mut i: usize = from;
    while i < to
        invariant
            from <= i <= to <= parts.len(),
            r@ == join(views(parts@).subrange(from as int, i as int), sep@),
        decreases to - i,
    {
        proof {
            lemma_join_push(views(parts@).subrange(from as int, i as int), sep@, parts[i as int]@);
            assert(views(parts@).subrange(from as int, i as int).push(parts[i as int]@)
                =~= views(parts@).subrange(from as int, i + 1));
        }
        if i > from {
            r.extend_from_slice(sep);
        }
        r.extend_from_slice(parts[i].as_slice());
        i = i + 1;
    }
    r
}

/// A copy of a list of strings.
pub fn clone_strings(v: &Vec<String>) -> (r: Vec<String>)
    ensures
        r@.len() == v@.len(),
        forall|i: int| 0 <= i < v@.len() ==> #[trigger] r@[i]@ == v@[i]@,
{
    let mut r: Vec<String> = Vec::new();
    let mut i: usize = 0;
    while i < v.len()
        invariant
            i <= v.len(),
            r@.len() == i,
            forall|k: int| 0 <= k < i ==> #[trigger] r@[k]@ == v@[k]@,
        decreases v.len() - i,
    {
        r.push(v[i].clone());
        i = i + 1;
    }
    r
}

/// The parts joined with `sep`.
pub fn join_chars(parts: &Vec<Vec<char>>, sep: &[char]) -> (r: Vec<char>)
    ensures
        r@ == join(views(parts@), sep@),
{
    let mut r: Vec<char> = Vec::new();
    let mut i: usize = 0;
    while i < parts.len()
        invariant
            i <= parts.len(),
            r@ == join(views(parts@).subrange(0, i as int), sep@),
        decreases parts.len() - i,
    {
        proof {
            lemma_join_push(views(parts@).subrange(0, i as int), sep@, parts[i as int]@);
            assert(views(parts@).subrange(0, i as int).push(parts[i as int]@)
                =~= views(parts@).subrange(0, i + 1));
        }
        if i > 0 {
            r.extend_from_slice(sep);
        }
        r.extend_from_slice(parts[i].as_slice());
        i = i + 1;
    }
    assert(views(parts@).subrange(0, parts.len() as int) =~= views(parts@));
    r
}

} // verus!
