//! Boundary metrics: where characters and lines start in UTF-8 text.
use vstd::prelude::*;
use vstd::utf8::*;
use vstd::string::*;

verus! {

broadcast use vstd::utf8::encode_utf8_valid_utf8;

/// The line-feed byte.
pub const LF: u8 = 10;

/// Encoded length of a UTF-8 scalar, read off its first byte.
pub open spec fn utf8_len_of(b: u8) -> nat {
    if b < 0x80 {
        1
    } else if b < 0xe0 {
        2
    } else if b < 0xf0 {
        3
    } else {
        4
    }
}

pub open spec fn opt_int(r: Option<usize>) -> Option<int> {
    match r {
        Some(x) => Some(x as int),
        None => None,
    }
}

/// Where the boundaries of a metric lie, as a predicate on bytes.
pub trait Boundaries: Sized {
    /// Whether `offset` is a boundary of this metric in the bytes `s`.
    spec fn at_boundary(s: Seq<u8>, offset: int) -> bool;
}

/// A metric is a kind of marker in a text: an offset is either on one of
/// its boundaries or not.
pub trait Metric: Boundaries {

    /// Whether the given offset is a boundary of this metric.
    fn is_boundary(s: &str, offset: usize) -> (r: bool)
        requires
            offset <= s.spec_bytes().len(),
        ensures
            r == Self::at_boundary(s.spec_bytes(), offset as int),
    ;

    /// The nearest boundary strictly before `offset`.
    fn prev(s: &str, offset: usize) -> (r: Option<usize>)
        requires
            offset <= s.spec_bytes().len(),
        ensures
            opt_int(r) == prev_boundary::<Self>(s.spec_bytes(), offset as int),
    ;

    /// The nearest boundary strictly after `offset`.
    fn next(s: &str, offset: usize) -> (r: Option<usize>)
        requires
            offset <= s.spec_bytes().len(),
        ensures
            opt_int(r) == next_boundary::<Self>(s.spec_bytes(), offset as int),
    ;

    /// `offset` itself when it is a boundary, else the next one.
    fn at_or_next(s: &str, offset: usize) -> (r: Option<usize>)
        requires
            offset <= s.spec_bytes().len(),
        ensures
            opt_int(r) == at_or_next_boundary::<Self>(s.spec_bytes(), offset as int),
    {
        if Self::is_boundary(s, offset) {
            Some(offset)
        } else {
            Self::next(s, offset)
        }
    }

    /// `offset` itself when it is a boundary, else the previous one.
    fn at_or_prev(s: &str, offset: usize) -> (r: Option<usize>)
        requires
            offset <= s.spec_bytes().len(),
        ensures
            opt_int(r) == at_or_prev_boundary::<Self>(s.spec_bytes(), offset as int),
    {
        if Self::is_boundary(s, offset) {
            Some(offset)
        } else {
            Self::prev(s, offset)
        }
    }
}

/// The least boundary of `M` strictly after `i`, if any.
pub open spec fn next_boundary<M: Boundaries>(s: Seq<u8>, i: int) -> Option<int>
    decreases s.len() - i,
{
    if i >= s.len() {
        None
    } else if M::at_boundary(s, i + 1) {
        Some(i + 1)
    } else {
        next_boundary::<M>(s, i + 1)
    }
}

/// The greatest boundary of `M` strictly before `i`, if any.
pub open spec fn prev_boundary<M: Boundaries>(s: Seq<u8>, i: int) -> Option<int>
    decreases i,
{
    if i <= 0 {
        None
    } else if M::at_boundary(s, i - 1) {
        Some(i - 1)
    } else {
        prev_boundary::<M>(s, i - 1)
    }
}

pub open spec fn at_or_next_boundary<M: Boundaries>(s: Seq<u8>, i: int) -> Option<int> {
    if M::at_boundary(s, i) {
        Some(i)
    } else {
        next_boundary::<M>(s, i)
    }
}

pub open spec fn at_or_prev_boundary<M: Boundaries>(s: Seq<u8>, i: int) -> Option<int> {
    if M::at_boundary(s, i) {
        Some(i)
    } else {
        prev_boundary::<M>(s, i)
    }
}

/// What `next_boundary` returns: the least boundary after `i`, or none at all
/// up to the end.
pub proof fn lemma_next_boundary<M: Boundaries>(s: Seq<u8>, i: int)
    requires
        0 <= i <= s.len(),
    ensures
        match next_boundary::<M>(s, i) {
            Some(k) => i < k <= s.len() && M::at_boundary(s, k) && forall|j: int|
                i < j < k ==> !M::at_boundary(s, j),
            None => forall|j: int| i < j <= s.len() ==> !M::at_boundary(s, j),
        },
    decreases s.len() - i,
{
    if i < s.len() && !M::at_boundary(s, i + 1) {
        lemma_next_boundary::<M>(s, i + 1);
    }
}

/// What `prev_boundary` returns: the greatest boundary before `i`, or none
/// at all from the start.
pub proof fn lemma_prev_boundary<M: Boundaries>(s: Seq<u8>, i: int)
    requires
        0 <= i,
    ensures
        match prev_boundary::<M>(s, i) {
            Some(k) => 0 <= k < i && M::at_boundary(s, k) && forall|j: int|
                k < j < i ==> !M::at_boundary(s, j),
            None => forall|j: int| 0 <= j < i ==> !M::at_boundary(s, j),
        },
    decreases i,
{
    if i > 0 && !M::at_boundary(s, i - 1) {
        lemma_prev_boundary::<M>(s, i - 1);
    }
}

/// The least boundary after `i` is what `next_boundary` finds.
pub proof fn lemma_next_boundary_is<M: Boundaries>(s: Seq<u8>, i: int, k: int)
    requires
        0 <= i < k <= s.len(),
        M::at_boundary(s, k),
        forall|j: int| i < j < k ==> !M::at_boundary(s, j),
    ensures
        next_boundary::<M>(s, i) == Some(k),
{
    lemma_next_boundary::<M>(s, i);
}

/// The greatest boundary before `i` is what `prev_boundary` finds.
pub proof fn lemma_prev_boundary_is<M: Boundaries>(s: Seq<u8>, i: int, k: int)
    requires
        0 <= k < i,
        M::at_boundary(s, k),
        forall|j: int| k < j < i ==> !M::at_boundary(s, j),
    ensures
        prev_boundary::<M>(s, i) == Some(k),
{
    lemma_prev_boundary::<M>(s, i);
}

/// A character that starts at `i` takes the number of bytes its first byte
/// announces: the next character starts right after them, and none starts
/// among them.
pub proof fn lemma_char_width(s: Seq<u8>, i: int)
    requires
        valid_utf8(s),
        0 <= i < s.len(),
        is_char_boundary(s, i),
    ensures
        i + utf8_len_of(s[i]) <= s.len(),
        is_char_boundary(s, i + utf8_len_of(s[i])),
        forall|j: int| i < j < i + utf8_len_of(s[i]) ==> !is_char_boundary(s, j),
{
    let t = s.subrange(i, s.len() as int);
    valid_utf8_split(s, i);
    assert(valid_first_scalar(t) && valid_utf8(pop_first_scalar(t)));
    let w = length_of_first_scalar(t);
    assert(t[0] == s[i]);
    assert(w == utf8_len_of(s[i]));
    assert forall|j: int| i < j < i + w implies !is_char_boundary(s, j) by {
        assert(s[j] == t[j - i]);
        is_char_boundary_iff_not_is_continuation_byte(s, j);
    }
    if i + w == s.len() {
        is_char_boundary_start_end_of_seq(s);
    } else {
        let rest = pop_first_scalar(t);
        assert(rest.len() > 0);
        assert(valid_first_scalar(rest));
        assert(s[i + w] == rest[0]);
        is_char_boundary_iff_not_is_continuation_byte(s, i + w);
    }
}

/// UTF-8 character metric: a boundary is the offset of a character's first
/// byte, or the end of the text.
pub struct CharMetric;

impl CharMetric {
    /// Given the first byte of a UTF-8 encoded character, returns how many
    /// bytes the character takes.
    pub fn len_utf8_from_first_byte(b: u8) -> (r: usize)
        ensures
            r == utf8_len_of(b),
    {
        if b < 0x80 {
            1
        } else if b < 0xe0 {
            2
        } else if b < 0xf0 {
            3
        } else {
            4
        }
    }
}

impl Boundaries for CharMetric {
    open spec fn at_boundary(s: Seq<u8>, offset: int) -> bool {
        is_char_boundary(s, offset)
    }
}

impl Metric for CharMetric {
    fn is_boundary(s: &str, offset: usize) -> (r: bool) {
        s.is_char_boundary(offset)
    }

    fn prev(s: &str, offset: usize) -> (r: Option<usize>) {
        if offset == 0 {
            None
        } else {
            let mut len: usize = 1;
            proof {
                is_char_boundary_start_end_of_seq(s.spec_bytes());
            }
            while !s.is_char_boundary(offset - len)
                invariant
                    1 <= len <= offset,
                    offset <= s.spec_bytes().len(),
                    is_char_boundary(s.spec_bytes(), 0),
                    forall|j: int|
                        offset - len < j < offset ==> !is_char_boundary(s.spec_bytes(), j),
                decreases offset - len,
            {
                len += 1;
            }
            proof {
                lemma_prev_boundary_is::<CharMetric>(
                    s.spec_bytes(),
                    offset as int,
                    offset - len,
                );
            }
            Some(offset - len)
        }
    }

    /// On a character start, the length that its first byte announces is
    /// added; inside a character, the bytes that follow are scanned.
    fn next(s: &str, offset: usize) -> (r: Option<usize>) {
        let n = s.as_bytes().len();
        if offset == n {
            proof {
                lemma_next_boundary::<CharMetric>(s.spec_bytes(), offset as int);
            }
            None
        } else if s.is_char_boundary(offset) {
            let b = s.as_bytes()[offset];
            proof {
                lemma_char_width(s.spec_bytes(), offset as int);
            }
            let k = offset + CharMetric::len_utf8_from_first_byte(b);
            proof {
                assert forall|j: int| offset < j < k implies !CharMetric::at_boundary(
                    s.spec_bytes(),
                    j,
                ) by {}
                lemma_next_boundary_is::<CharMetric>(s.spec_bytes(), offset as int, k as int);
            }
            Some(k)
        } else {
            let mut k: usize = offset + 1;
            proof {
                is_char_boundary_start_end_of_seq(s.spec_bytes());
            }
            while !s.is_char_boundary(k)
                invariant
                    offset < k <= n,
                    n == s.spec_bytes().len(),
                    is_char_boundary(s.spec_bytes(), n as int),
                    forall|j: int| offset < j < k ==> !is_char_boundary(s.spec_bytes(), j),
                decreases n - k,
            {
                k += 1;
            }
            proof {
                lemma_next_boundary_is::<CharMetric>(s.spec_bytes(), offset as int, k as int);
            }
            Some(k)
        }
    }
}

/// Relies on memchr::memchr: the index of the first byte of `hay` equal to
/// `needle`, or none when no byte is.
#[verifier::external_body]
fn first_index_of(needle: u8, hay: &[u8]) -> (r: Option<usize>)
    ensures
        match r {
            Some(i) => i < hay@.len() && hay@[i as int] == needle && forall|j: int|
                0 <= j < i ==> hay@[j] != needle,
            None => forall|j: int| 0 <= j < hay@.len() ==> hay@[j] != needle,
        },
{
    memchr::memchr(needle, hay)
}

/// Relies on memchr::memrchr: the index of the last byte of `hay` equal to
/// `needle`, or none when no byte is.
#[verifier::external_body]
fn last_index_of(needle: u8, hay: &[u8]) -> (r: Option<usize>)
    ensures
        match r {
            Some(i) => i < hay@.len() && hay@[i as int] == needle && forall|j: int|
                i < j < hay@.len() ==> hay@[j] != needle,
            None => forall|j: int| 0 <= j < hay@.len() ==> hay@[j] != needle,
        },
{
    memchr::memrchr(needle, hay)
}

/// Newline metric: a boundary is the offset right after a line feed.
pub struct NewlineMetric;

impl Boundaries for NewlineMetric {
    open spec fn at_boundary(s: Seq<u8>, offset: int) -> bool {
        0 < offset <= s.len() && s[offset - 1] == LF
    }
}

impl Metric for NewlineMetric {
    fn is_boundary(s: &str, offset: usize) -> (r: bool) {
        if offset == 0 {
            false
        } else {
            s.as_bytes()[offset - 1] == LF
        }
    }

    /// At offset 0 there is nothing before, and the result is none.
    fn prev(s: &str, offset: usize) -> (r: Option<usize>) {
        if offset <= 1 {
            proof {
                lemma_prev_boundary::<NewlineMetric>(s.spec_bytes(), offset as int);
            }
            None
        } else {
            let bytes = s.as_bytes();
            let head = &bytes[0..offset - 1];
            match last_index_of(LF, head) {
                Some(p) => {
                    proof {
                        assert forall|j: int|
                            p + 1 < j < offset implies !NewlineMetric::at_boundary(
                            s.spec_bytes(),
                            j,
                        ) by {
                            assert(head@[j - 1] == s.spec_bytes()[j - 1]);
                        }
                        lemma_prev_boundary_is::<NewlineMetric>(
                            s.spec_bytes(),
                            offset as int,
                            p + 1,
                        );
                    }
                    Some(p + 1)
                },
                None => {
                    proof {
                        lemma_prev_boundary::<NewlineMetric>(s.spec_bytes(), offset as int);
                        if let Some(k) = prev_boundary::<NewlineMetric>(
                            s.spec_bytes(),
                            offset as int,
                        ) {
                            assert(head@[k - 1] == LF);
                        }
                    }
                    None
                },
            }
        }
    }

    fn next(s: &str, offset: usize) -> (r: Option<usize>) {
        let bytes = s.as_bytes();
        let tail = &bytes[offset..bytes.len()];
        match first_index_of(LF, tail) {
            Some(p) => {
                proof {
                    assert forall|j: int|
                        offset < j < offset + p + 1 implies !NewlineMetric::at_boundary(
                        s.spec_bytes(),
                        j,
                    ) by {
                        assert(tail@[j - 1 - offset] == s.spec_bytes()[j - 1]);
                    }
                    lemma_next_boundary_is::<NewlineMetric>(
                        s.spec_bytes(),
                        offset as int,
                        offset + p + 1,
                    );
                }
                Some(offset + p + 1)
            },
            None => {
                proof {
                    lemma_next_boundary::<NewlineMetric>(s.spec_bytes(), offset as int);
                    if let Some(k) = next_boundary::<NewlineMetric>(
                        s.spec_bytes(),
                        offset as int,
                    ) {
                        assert(tail@[k - 1 - offset] == LF);
                    }
                }
                None
            },
        }
    }
}

/// The character whose encoding starts at byte `i` of `s`.
pub open spec fn char_at(s: Seq<u8>, i: int) -> char {
    decode_utf8(s.subrange(i, s.len() as int))[0]
}

pub proof fn lemma_next_char_start(s: Seq<u8>, i: int)
    requires
        0 <= i <= s.len(),
    ensures
        match next_boundary::<CharMetric>(s, i) {
            Some(k) => i < k <= s.len() && is_char_boundary(s, k) && forall|j: int|
                i < j < k ==> !is_char_boundary(s, j),
            None => forall|j: int| i < j <= s.len() ==> !is_char_boundary(s, j),
        },
{
    lemma_next_boundary::<CharMetric>(s, i);
    match next_boundary::<CharMetric>(s, i) {
        Some(k) => {
            assert forall|j: int| i < j < k implies !is_char_boundary(s, j) by {
                assert(!CharMetric::at_boundary(s, j));
            }
        },
        None => {
            assert forall|j: int| i < j <= s.len() implies !is_char_boundary(s, j) by {
                assert(!CharMetric::at_boundary(s, j));
            }
        },
    }
}

pub proof fn lemma_prev_char_start(s: Seq<u8>, i: int)
    requires
        0 <= i,
    ensures
        match prev_boundary::<CharMetric>(s, i) {
            Some(k) => 0 <= k < i && is_char_boundary(s, k) && forall|j: int|
                k < j < i ==> !is_char_boundary(s, j),
            None => forall|j: int| 0 <= j < i ==> !is_char_boundary(s, j),
        },
{
    lemma_prev_boundary::<CharMetric>(s, i);
    match prev_boundary::<CharMetric>(s, i) {
        Some(k) => {
            assert forall|j: int| k < j < i implies !is_char_boundary(s, j) by {
                assert(!CharMetric::at_boundary(s, j));
            }
        },
        None => {
            assert forall|j: int| 0 <= j < i implies !is_char_boundary(s, j) by {
                assert(!CharMetric::at_boundary(s, j));
            }
        },
    }
}

/// Number of characters that start in `[a, b)`.
pub open spec fn char_starts(s: Seq<u8>, a: int, b: int) -> nat
    decreases b - a,
{
    if b <= a {
        0
    } else {
        char_starts(s, a, b - 1) + if is_char_boundary(s, b - 1) {
            1nat
        } else {
            0nat
        }
    }
}

pub proof fn lemma_char_starts_split(s: Seq<u8>, a: int, b: int, c: int)
    requires
        a <= b <= c,
    ensures
        char_starts(s, a, c) == char_starts(s, a, b) + char_starts(s, b, c),
    decreases c - b,
{
    if c > b {
        lemma_char_starts_split(s, a, b, c - 1);
    }
}

pub proof fn lemma_char_starts_one(s: Seq<u8>, b: int, c: int)
    requires
        b < c,
        is_char_boundary(s, b),
        forall|j: int| b < j < c ==> !is_char_boundary(s, j),
    ensures
        char_starts(s, b, c) == 1,
    decreases c - b,
{
    assert(char_starts(s, b, b) == 0);
    if c > b + 1 {
        lemma_char_starts_one(s, b, c - 1);
    }
}

/// Going to the next boundary of a metric and then back to the previous one
/// returns to the boundary one started on, and so does going back first and
/// then forward.
pub proof fn lemma_next_prev_round_trip<M: Boundaries>(s: Seq<u8>, i: int)
    requires
        0 <= i <= s.len(),
        M::at_boundary(s, i),
    ensures
        next_boundary::<M>(s, i) matches Some(k) ==> prev_boundary::<M>(s, k) == Some(i),
        prev_boundary::<M>(s, i) matches Some(k) ==> next_boundary::<M>(s, k) == Some(i),
{
    lemma_next_boundary::<M>(s, i);
    lemma_prev_boundary::<M>(s, i);
    if let Some(k) = next_boundary::<M>(s, i) {
        lemma_prev_boundary_is::<M>(s, k, i);
    }
    if let Some(k) = prev_boundary::<M>(s, i) {
        lemma_next_boundary_is::<M>(s, k, i);
    }
}

/// The character whose encoding starts at byte `i`.
pub(crate) fn char_at_exec(s: &str, i: usize) -> (c: char)
    requires
        i < s.spec_bytes().len(),
        is_char_boundary(s.spec_bytes(), i as int),
    ensures
        c == char_at(s.spec_bytes(), i as int),
{
    let (_, tail) = s.split_at(i);
    proof {
        encode_utf8_decode_utf8(tail@);
        assert(tail.spec_bytes().len() > 0);
        if tail@.len() == 0 {
            assert(encode_utf8(tail@) =~= Seq::<u8>::empty());
        }
    }
    tail.get_char(0)
}

} // verus!
