//! Match intervals and what the cursor needs of a regular expression.
use vstd::prelude::*;
use vstd::utf8::*;
use vstd::string::*;
use regex::Regex;

verus! {

#[verifier::external_type_specification]
#[verifier::external_body]
pub struct ExRegex(Regex);

/// Whether the bytes `w` occur anywhere in `s`.
pub open spec fn contains_bytes(s: Seq<u8>, w: Seq<u8>) -> bool {
    exists|j: int| 0 <= j && j + w.len() <= s.len() && #[trigger] s.subrange(j, j + w.len()) == w
}

/// The text `\n` of a pattern.
pub open spec fn escaped_lf() -> Seq<u8> {
    seq![0x5cu8, 0x6eu8]
}

/// The text `\r` of a pattern.
pub open spec fn escaped_cr() -> Seq<u8> {
    seq![0x5cu8, 0x72u8]
}

/// The text `[[:space:]]` of a pattern.
pub open spec fn space_class() -> Seq<u8> {
    seq![0x5bu8, 0x5bu8, 0x3au8, 0x73u8, 0x70u8, 0x61u8, 0x63u8, 0x65u8, 0x3au8, 0x5du8, 0x5du8]
}

/// Whether the text of a pattern shows that it may match across lines: it
/// holds an escaped line feed, an escaped carriage return or a space class.
pub open spec fn looks_multiline(pattern: Seq<u8>) -> bool {
    contains_bytes(pattern, escaped_lf()) || contains_bytes(pattern, escaped_cr())
        || contains_bytes(pattern, space_class())
}

/// A half-open range `[start, end)` of byte offsets.
#[derive(Clone, Copy, Debug, PartialEq, Eq, Structural)]
pub struct Interval {
    pub start: usize,
    pub end: usize,
}

impl Interval {
    pub fn new(start: usize, end: usize) -> (r: Interval)
        ensures
            r == (Interval { start, end }),
    {
        Interval { start, end }
    }
}

/// The interval moved `d` bytes on.
pub open spec fn shifted(iv: Interval, d: int) -> Interval {
    Interval { start: (iv.start + d) as usize, end: (iv.end + d) as usize }
}

/// An interval that lies within `[0, len]`.
pub open spec fn within(iv: Interval, len: int) -> bool {
    iv.start <= iv.end <= len
}

/// A match kept only when it starts at 0.
pub open spec fn anchored_spec(found: Option<Interval>) -> Option<Interval> {
    match found {
        Some(m) => if m.start == 0 {
            Some(m)
        } else {
            None
        },
        None => None,
    }
}

/// A match that starts at 0 is kept; any other is dropped.
pub fn anchored(found: Option<Interval>) -> (r: Option<Interval>)
    ensures
        r == anchored_spec(found),
{
    match found {
        Some(m) => if m.start == 0 {
            Some(m)
        } else {
            None
        },
        None => None,
    }
}

/// Whether `pattern` may match across lines, judged from its text: it
/// holds `\n`, `\r` or `[[:space:]]`. Patterns that span lines in other
/// ways are not recognised.
pub fn is_multiline_regex(pattern: &str) -> (r: bool)
    ensures
        r == looks_multiline(pattern.spec_bytes()),
{
    let h = pattern.as_bytes();
    let lf: Vec<u8> = vec![0x5cu8, 0x6eu8];
    let cr: Vec<u8> = vec![0x5cu8, 0x72u8];
    let space: Vec<u8> = vec![0x5bu8, 0x5bu8, 0x3au8, 0x73u8, 0x70u8, 0x61u8, 0x63u8, 0x65u8, 0x3au8, 0x5du8, 0x5du8];
    proof {
        assert(lf@ =~= escaped_lf());
        assert(cr@ =~= escaped_cr());
        assert(space@ =~= space_class());
    }
    holds_bytes(h, lf.as_slice()) || holds_bytes(h, cr.as_slice()) || holds_bytes(h, space.as_slice())
}

/// Whether the bytes `w` occur anywhere in `h`.
fn holds_bytes(h: &[u8], w: &[u8]) -> (r: bool)
    ensures
        r == contains_bytes(h@, w@),
{
    let n = h.len();
    let m = w.len();
    if m > n {
        return false;
    }
    let mut j: usize = 0;
    loop
        invariant
            n == h@.len(),
            m == w@.len(),
            m <= n,
            j <= n - m,
            forall|i: int| 0 <= i < j ==> #[trigger] h@.subrange(i, i + m) != w@,
        decreases n - m - j,
    {
        if bytes_at(h, w, j) {
            return true;
        }
        if j == n - m {
            return false;
        }
        j = j + 1;
    }
}

/// Whether the bytes of `w` stand in `h` at `j`.
pub(crate) fn bytes_at(h: &[u8], w: &[u8], j: usize) -> (r: bool)
    requires
        j + w@.len() <= h@.len(),
    ensures
        r == (h@.subrange(j as int, j + w@.len()) == w@),
{
    let hl = h.len();
    let mut i: usize = 0;
    while i < w.len()
        invariant
            hl == h@.len(),
            j + w@.len() <= h@.len(),
            i <= w@.len(),
            forall|t: int| 0 <= t < i ==> h@[j + t] == w@[t],
        decreases w@.len() - i,
    {
        if h[j + i] != w[i] {
            proof {
                assert(h@.subrange(j as int, j + w@.len())[i as int] != w@[i as int]);
            }
            return false;
        }
        i = i + 1;
    }
    proof {
        assert(h@.subrange(j as int, j + w@.len()) =~= w@);
    }
    true
}

/// The text a regular expression was compiled from.
pub uninterp spec fn pattern_source(re: Regex) -> Seq<u8>;

/// The leftmost-first match of a regular expression in a text.
pub uninterp spec fn first_match_of(re: Regex, hay: Seq<u8>) -> Option<Interval>;

/// The spans of the capture groups of the leftmost-first match of a regular
/// expression in a text.
pub uninterp spec fn captures_of(re: Regex, hay: Seq<u8>) -> Option<Seq<Option<Interval>>>;

/// Relies on regex::Regex::as_str: the text the pattern was compiled from.
#[verifier::external_body]
pub(crate) fn pattern_text(re: &Regex) -> (r: &str)
    ensures
        r.spec_bytes() == pattern_source(*re),
{
    re.as_str()
}

/// Relies on regex::Regex::find: the leftmost-first match in `hay`, whose
/// offsets lie within it and on character starts.
#[verifier::external_body]
pub(crate) fn find_match(re: &Regex, hay: &str) -> (r: Option<Interval>)
    ensures
        r == first_match_of(*re, hay.spec_bytes()),
        match r {
            Some(m) => within(m, hay.spec_bytes().len() as int) && is_char_boundary(
                hay.spec_bytes(),
                m.start as int,
            ) && is_char_boundary(hay.spec_bytes(), m.end as int),
            None => true,
        },
{
    re.find(hay).map(|m| Interval { start: m.start(), end: m.end() })
}

/// Relies on regex::Regex::captures: the spans of the capture groups of the
/// first match in `hay`, the one `find` gives; group 0 is that whole match
/// and is always there.
#[verifier::external_body]
pub(crate) fn find_captures(re: &Regex, hay: &str) -> (r: Option<Vec<Option<Interval>>>)
    ensures
        match r {
            Some(g) => captures_of(*re, hay.spec_bytes()) == Some(g@) && g@.len() >= 1 && g@[0]
                == first_match_of(*re, hay.spec_bytes()) && g@[0] is Some && forall|i: int|
                0 <= i < g@.len() ==> match #[trigger] g@[i] {
                    Some(m) => within(m, hay.spec_bytes().len() as int),
                    None => true,
                },
            None => captures_of(*re, hay.spec_bytes()) is None && first_match_of(
                *re,
                hay.spec_bytes(),
            ) is None,
        },
{
    re.captures(hay).map(
        |c| c.iter().map(|m| m.map(|m| Interval { start: m.start(), end: m.end() })).collect(),
    )
}

} // verus!
