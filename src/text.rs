use vstd::prelude::*;

verus! {

/// The characters of `s`, in order, for constant-time indexing.
pub fn chars_of(s: &str) -> (r: Vec<char>)
    ensures
        r@ == s@,
{
    let mut out: Vec<char> = Vec::new();
    for c in it: s.chars()
        invariant
            out@ == it.seq().take(it.index() as int),
            it.seq() == s@,
    {
        out.push(c);
    }
    out
}

/// Characters with the Unicode White_Space property, the ones that
/// `str::trim` removes.
pub open spec fn is_whitespace(c: char) -> bool {
    ('\u{9}' <= c && c <= '\u{d}') || c == ' ' || c == '\u{85}' || c == '\u{a0}' || c
        == '\u{1680}' || ('\u{2000}' <= c && c <= '\u{200a}') || c == '\u{2028}' || c
        == '\u{2029}' || c == '\u{202f}' || c == '\u{205f}' || c == '\u{3000}'
}

pub fn is_whitespace_char(c: char) -> (r: bool)
    ensures
        r == is_whitespace(c),
{
    ('\u{9}' <= c && c <= '\u{d}') || c == ' ' || c == '\u{85}' || c == '\u{a0}' || c
        == '\u{1680}' || ('\u{2000}' <= c && c <= '\u{200a}') || c == '\u{2028}' || c
        == '\u{2029}' || c == '\u{202f}' || c == '\u{205f}' || c == '\u{3000}'
}

/// The first index at or after `i` that holds no whitespace, or the length.
pub open spec fn skip_whitespace(s: Seq<char>, i: int) -> int
    decreases s.len() - i,
{
    if 0 <= i < s.len() && is_whitespace(s[i]) {
        skip_whitespace(s, i + 1)
    } else {
        i
    }
}

/// The end of `s[..j]` once trailing whitespace is removed.
pub open spec fn trim_end(s: Seq<char>, j: int) -> int
    decreases j,
{
    if 0 < j <= s.len() && is_whitespace(s[j - 1]) {
        trim_end(s, j - 1)
    } else {
        j
    }
}

/// The first index at or after `i` that holds `c`, or the length.
pub open spec fn find_char(s: Seq<char>, c: char, i: int) -> int
    decreases s.len() - i,
{
    if 0 <= i < s.len() && s[i] != c {
        find_char(s, c, i + 1)
    } else {
        i
    }
}

/// Start and end of `chars` without surrounding whitespace.
pub fn trim_bounds(chars: &Vec<char>) -> (r: (usize, usize))
    ensures
        r.0 == skip_whitespace(chars@, 0),
        r.1 == trim_end(chars@, chars@.len() as int),
        r.0 <= chars.len(),
        r.1 <= chars.len(),
{
    let mut a: usize = 0;
    while a < chars.len() && is_whitespace_char(chars[a])
        invariant
            a <= chars.len(),
            skip_whitespace(chars@, 0) == skip_whitespace(chars@, a as int),
        decreases chars.len() - a,
    {
        a = a + 1;
    }
    let mut b: usize = chars.len();
    while b > 0 && is_whitespace_char(chars[b - 1])
        invariant
            b <= chars.len(),
            trim_end(chars@, chars@.len() as int) == trim_end(chars@, b as int),
        decreases b,
    {
        b = b - 1;
    }
    (a, b)
}

/// The first index that holds `c`, or the length.
pub fn position_of(chars: &Vec<char>, c: char) -> (r: usize)
    ensures
        r == find_char(chars@, c, 0),
        r <= chars.len(),
{
    let mut i: usize = 0;
    while i < chars.len() && chars[i] != c
        invariant
            i <= chars.len(),
            find_char(chars@, c, 0) == find_char(chars@, c, i as int),
        decreases chars.len() - i,
    {
        i = i + 1;
    }
    i
}

} // verus!
