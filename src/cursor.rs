//! A cursor over borrowed text, with line-relative navigation, literal and
//! pattern search, and character skipping.
use vstd::prelude::*;
use vstd::utf8::*;
use vstd::string::*;
use regex::Regex;
use crate::metric::{
    at_or_next_boundary, at_or_prev_boundary, char_at, char_at_exec, char_starts,
    lemma_char_starts_one, lemma_char_starts_split, lemma_next_boundary, lemma_next_char_start,
    lemma_prev_boundary, lemma_prev_char_start, next_boundary, opt_int, prev_boundary,
    Boundaries, CharMetric, Metric, NewlineMetric,
};
use crate::pattern::{
    anchored, anchored_spec, bytes_at, captures_of, find_captures, find_match, first_match_of,
    is_multiline_regex, looks_multiline, pattern_source, pattern_text, shifted, within, Interval,
};

verus! {

broadcast use vstd::utf8::encode_utf8_valid_utf8;

/// Start of the line that holds offset `p`.
pub open spec fn line_start(s: Seq<u8>, p: int) -> int {
    match at_or_prev_boundary::<NewlineMetric>(s, p) {
        Some(k) => k,
        None => 0,
    }
}

/// Start of the line after the one that holds `p`, or the end of the text.
pub open spec fn next_line_start(s: Seq<u8>, p: int) -> int {
    match next_boundary::<NewlineMetric>(s, p) {
        Some(k) => k,
        None => s.len() as int,
    }
}

/// Start of the line before the one that holds `p`, or 0.
pub open spec fn prev_line_start(s: Seq<u8>, p: int) -> int {
    let b = line_start(s, p);
    if b == 0 {
        0
    } else {
        match prev_boundary::<NewlineMetric>(s, b) {
            Some(k) => k,
            None => 0,
        }
    }
}

/// Where `k` moves to the next line start lead from `p`.
pub open spec fn lines_forward(s: Seq<u8>, p: int, k: nat) -> int
    decreases k,
{
    if k == 0 {
        p
    } else {
        next_line_start(s, lines_forward(s, p, (k - 1) as nat))
    }
}

/// Where `k` moves to the previous newline boundary lead from `p`, falling
/// to 0 when there is none.
pub open spec fn lines_backward(s: Seq<u8>, p: int, k: nat) -> int
    decreases k,
{
    if k == 0 {
        p
    } else {
        match prev_boundary::<NewlineMetric>(s, lines_backward(s, p, (k - 1) as nat)) {
            Some(q) => q,
            None => 0,
        }
    }
}

proof fn lemma_lines_backward_rests(s: Seq<u8>, p: int, i: nat, k: nat)
    requires
        i <= k,
        lines_backward(s, p, i) == 0,
    ensures
        lines_backward(s, p, k) == 0,
    decreases k,
{
    if k > i {
        lemma_lines_backward_rests(s, p, i, (k - 1) as nat);
    }
}

/// Start of the line `n` lines from the one that holds `p` (1 is that line
/// itself, 0 the one before).
pub open spec fn line_beginning_at(s: Seq<u8>, p: int, n: Option<i32>) -> int {
    match n {
        None => line_start(s, p),
        Some(x) => if x == 1 {
            line_start(s, p)
        } else if x > 1 {
            lines_forward(s, p, (x - 1) as nat)
        } else {
            lines_backward(s, line_start(s, p), (1 - x) as nat)
        },
    }
}

/// Offset of the last character of the line `n` lines from the one that
/// holds `p`, counted as in `line_beginning_at`: the character just before
/// the next line starts, or the last of the text. Counting back past the
/// first line gives the end of the first line.
pub open spec fn line_end_at(s: Seq<u8>, p: int, n: Option<i32>) -> int {
    let q = match n {
        None => next_line_start(s, p),
        Some(x) => if x == 1 {
            next_line_start(s, p)
        } else if x > 1 {
            lines_forward(s, p, x as nat)
        } else {
            let b = line_beginning_at(s, p, Some((x + 1) as i32));
            if b == 0 {
                next_line_start(s, 0)
            } else {
                b
            }
        },
    };
    match prev_boundary::<CharMetric>(s, q) {
        Some(k) => k,
        None => 0,
    }
}

/// Whether `w` occurs in `s` at byte `j`, starting on a character.
pub open spec fn occurs_at(s: Seq<u8>, w: Seq<u8>, j: int) -> bool {
    0 <= j && j + w.len() <= s.len() && is_char_boundary(s, j) && s.subrange(j, j + w.len())
        == w
}

/// The first occurrence of `w` in `s` at or after `from`.
pub open spec fn first_occurrence(s: Seq<u8>, w: Seq<u8>, from: int) -> Option<int>
    decreases s.len() + 1 - from,
{
    if from > s.len() {
        None
    } else if occurs_at(s, w, from) {
        Some(from)
    } else {
        first_occurrence(s, w, from + 1)
    }
}

/// Where the search for the occurrence after one at `j` resumes: past it,
/// or one byte on after an empty one.
pub open spec fn resume_after(w: Seq<u8>, j: int) -> int {
    if w.len() == 0 {
        j + 1
    } else {
        j + w.len()
    }
}

/// The start of the `k`-th of the non-overlapping occurrences of `w` in `s`
/// found from `from` on (the first is `k == 1`).
pub open spec fn nth_occurrence(s: Seq<u8>, w: Seq<u8>, from: int, k: nat) -> Option<int>
    decreases k,
{
    if k == 0 {
        None
    } else {
        match first_occurrence(s, w, from) {
            None => None,
            Some(j) => if k == 1 {
                Some(j)
            } else {
                nth_occurrence(s, w, resume_after(w, j), (k - 1) as nat)
            },
        }
    }
}

/// What a forward search for `w` from `p` finds: the end of the
/// `count`-th occurrence, unless it ends after `bound` or `bound` is before
/// `p`.
pub open spec fn search_forward_end(
    s: Seq<u8>,
    w: Seq<u8>,
    p: int,
    bound: Option<usize>,
    count: Option<usize>,
) -> Option<int> {
    let b = match bound {
        Some(b) => b as int,
        None => s.len() as int,
    };
    let c: nat = match count {
        Some(c) => c as nat,
        None => 1,
    };
    if b < p {
        None
    } else {
        match nth_occurrence(s, w, p, c) {
            Some(j) => if j + w.len() <= b {
                Some(j + w.len())
            } else {
                None
            },
            None => None,
        }
    }
}

proof fn lemma_first_occurrence(s: Seq<u8>, w: Seq<u8>, from: int)
    requires
        0 <= from,
    ensures
        match first_occurrence(s, w, from) {
            Some(j) => from <= j && occurs_at(s, w, j) && forall|i: int|
                from <= i < j ==> !occurs_at(s, w, i),
            None => forall|i: int| from <= i ==> !occurs_at(s, w, i),
        },
    decreases s.len() + 1 - from,
{
    if from <= s.len() && !occurs_at(s, w, from) {
        lemma_first_occurrence(s, w, from + 1);
    }
}

/// Whether a forward skip over `cs` standing at `j`, limited by `lim`, takes
/// the next character.
pub open spec fn skip_forward_takes(s: Seq<u8>, cs: Seq<char>, j: int, lim: int) -> bool {
    &&& j < lim
    &&& j < s.len()
    &&& cs.contains(char_at(s, j))
    &&& match next_boundary::<CharMetric>(s, j) {
        Some(k) => k <= lim,
        None => false,
    }
}

/// `q` is where a forward skip over `cs` from `p`, limited by `lim`, stops:
/// every character start on the way was taken, and the one at `q` is not.
pub open spec fn skip_forward_stop(s: Seq<u8>, cs: Seq<char>, p: int, lim: int, q: int) -> bool {
    &&& p <= q <= s.len()
    &&& (p >= lim ==> q == p)
    &&& (p < lim ==> q <= lim && is_char_boundary(s, q))
    &&& forall|j: int|
        p <= j < q && is_char_boundary(s, j) ==> skip_forward_takes(s, cs, j, lim)
    &&& !skip_forward_takes(s, cs, q, lim)
}

/// Whether a backward skip over `cs` standing at `j`, limited by `lim`,
/// takes the previous character.
pub open spec fn skip_backward_takes(s: Seq<u8>, cs: Seq<char>, j: int, lim: int) -> bool {
    &&& j > lim
    &&& match prev_boundary::<CharMetric>(s, j) {
        Some(k) => k >= lim && cs.contains(char_at(s, k)),
        None => false,
    }
}

/// `q` is where a backward skip over `cs` from `p`, limited by `lim`,
/// stops.
pub open spec fn skip_backward_stop(s: Seq<u8>, cs: Seq<char>, p: int, lim: int, q: int) -> bool {
    &&& 0 <= q <= p
    &&& (q == p || is_char_boundary(s, q))
    &&& (p <= lim ==> q == p)
    &&& (p > lim ==> q >= lim)
    &&& forall|j: int|
        q < j <= p && (j == p || is_char_boundary(s, j)) ==> skip_backward_takes(s, cs, j, lim)
    &&& !skip_backward_takes(s, cs, q, lim)
}

/// Whether `c` has the Unicode White_Space property.
pub open spec fn is_white_space(c: char) -> bool {
    let u = c as u32;
    ||| 0x09 <= u <= 0x0d
    ||| u == 0x20
    ||| u == 0x85
    ||| u == 0xa0
    ||| u == 0x1680
    ||| 0x2000 <= u <= 0x200a
    ||| u == 0x2028
    ||| u == 0x2029
    ||| u == 0x202f
    ||| u == 0x205f
    ||| u == 0x3000
}

/// Relies on char::is_whitespace: whether `c` has the Unicode White_Space
/// property.
#[verifier::external_body]
fn white_space(c: char) -> (r: bool)
    ensures
        r == is_white_space(c),
{
    c.is_whitespace()
}

/// `q` ends the run of white space that starts at `p`.
pub open spec fn white_space_run_end(s: Seq<u8>, p: int, q: int) -> bool {
    &&& p <= q <= s.len()
    &&& is_char_boundary(s, q)
    &&& forall|j: int|
        p <= j < q && is_char_boundary(s, j) ==> is_white_space(char_at(s, j))
    &&& (q == s.len() || !is_white_space(char_at(s, q)))
}

/// Going to the start of the line twice ends where going once does.
pub proof fn lemma_line_start_idempotent(s: Seq<u8>, p: int)
    requires
        0 <= p <= s.len(),
    ensures
        line_start(s, line_start(s, p)) == line_start(s, p),
{
    lemma_prev_boundary::<NewlineMetric>(s, p);
}

proof fn lemma_nth_occurrence_grows(s: Seq<u8>, w: Seq<u8>, from: int, k: nat)
    requires
        0 <= from,
        k >= 1,
    ensures
        nth_occurrence(s, w, from, k + 1) matches Some(b) ==> nth_occurrence(s, w, from, k)
            matches Some(a) && a < b,
    decreases k,
{
    lemma_first_occurrence(s, w, from);
    if let Some(j) = first_occurrence(s, w, from) {
        let next = resume_after(w, j);
        lemma_first_occurrence(s, w, next);
        if k > 1 {
            lemma_nth_occurrence_grows(s, w, next, (k - 1) as nat);
        }
    }
}

/// A forward search for the `k + 1`-th occurrence ends strictly after the
/// one for the `k`-th, on the same text, needle, start and bound: each
/// further occurrence lies further on.
pub proof fn lemma_search_forward_progress(
    s: Seq<u8>,
    w: Seq<u8>,
    p: int,
    bound: Option<usize>,
    k: usize,
)
    requires
        0 <= p,
        1 <= k < usize::MAX,
    ensures
        search_forward_end(s, w, p, bound, Some((k + 1) as usize)) matches Some(b) ==> (
        search_forward_end(s, w, p, bound, Some(k)) matches Some(a) && a < b),
{
    lemma_nth_occurrence_grows(s, w, p, k as nat);
}

/// Skipping backward over the same characters, limited by where a forward
/// skip started, comes back to that start and passes as many characters as
/// the forward skip did.
pub proof fn lemma_skip_forward_then_backward(
    s: Seq<u8>,
    cs: Seq<char>,
    p: int,
    lim: int,
    q: int,
    back: int,
)
    requires
        0 <= p,
        is_char_boundary(s, p),
        skip_forward_stop(s, cs, p, lim, q),
        skip_backward_stop(s, cs, q, p, back),
    ensures
        back == p,
        char_starts(s, back, q) == char_starts(s, p, q),
{
    if back > p {
        lemma_prev_char_start(s, back);
        match prev_boundary::<CharMetric>(s, back) {
            Some(k) => {
                assert(skip_forward_takes(s, cs, k, lim));
            },
            None => {
                assert(is_char_boundary(s, p));
            },
        }
    }
}

/// End of the window an anchored match from `p` may look at: the end of
/// the text for a multiline pattern, else the end of the line, its line
/// feed left out.
pub open spec fn scan_end(s: Seq<u8>, p: int, multiline: bool) -> int {
    if multiline {
        s.len() as int
    } else {
        match next_boundary::<NewlineMetric>(s, p) {
            Some(k) => k - 1,
            None => s.len() as int,
        }
    }
}

/// The part of the text an anchored match at `p` with `re` looks at.
pub open spec fn match_window(s: Seq<u8>, p: int, re: Regex) -> Seq<u8> {
    s.subrange(p, scan_end(s, p, looks_multiline(pattern_source(re))))
}

/// Where a pattern search bounded by `bound` stops: the bound, or the end
/// of the text when it is absent or past the end.
pub open spec fn search_limit(s: Seq<u8>, bound: Option<usize>) -> int {
    match bound {
        Some(b) => if b <= s.len() {
            b as int
        } else {
            s.len() as int
        },
        None => s.len() as int,
    }
}

/// A position in a borrowed, immutable text. The position is a byte offset
/// and never passes the end of the text.
pub struct StrCursor<'a> {
    data: &'a str,
    pos: usize,
}

impl<'a> StrCursor<'a> {
    /// The bytes of the text.
    pub closed spec fn text(&self) -> Seq<u8> {
        self.data.spec_bytes()
    }

    /// The current offset.
    pub closed spec fn offset(&self) -> int {
        self.pos as int
    }

    pub closed spec fn wf(&self) -> bool {
        &&& self.pos <= self.data.spec_bytes().len()
        &&& self.data.spec_bytes().len() <= usize::MAX
    }

    /// A well-formed cursor stands within its text.
    pub proof fn lemma_offset_in_text(&self)
        requires
            self.wf(),
        ensures
            0 <= self.offset() <= self.text().len(),
            self.text().len() <= usize::MAX,
    {
    }

    /// A cursor over `data` at `pos`; a position past the end is taken as the
    /// end.
    pub fn new(data: &'a str, pos: usize) -> (r: StrCursor<'a>)
        ensures
            r.wf(),
            r.text() == data.spec_bytes(),
            r.offset() == if pos <= data.spec_bytes().len() {
                pos as int
            } else {
                data.spec_bytes().len() as int
            },
    {
        let n = data.as_bytes().len();
        StrCursor { data, pos: if pos <= n { pos } else { n } }
    }

    /// Moves to `pos`; a position past the end is taken as the end.
    pub fn set(&mut self, pos: usize)
        requires
            old(self).wf(),
        ensures
            final(self).wf(),
            final(self).text() == old(self).text(),
            final(self).offset() == if pos <= old(self).text().len() {
                pos as int
            } else {
                old(self).text().len() as int
            },
    {
        let n = self.data.as_bytes().len();
        self.pos = if pos <= n { pos } else { n };
    }

    /// Moves `inc` bytes forward, stopping at the end.
    pub fn inc(&mut self, inc: usize)
        requires
            old(self).wf(),
        ensures
            final(self).wf(),
            final(self).text() == old(self).text(),
            final(self).offset() == if old(self).offset() + inc <= old(self).text().len() {
                old(self).offset() + inc
            } else {
                old(self).text().len() as int
            },
    {
        let n = self.data.as_bytes().len();
        if inc <= n - self.pos {
            self.pos = self.pos + inc;
        } else {
            self.pos = n;
        }
    }

    /// Moves `dec` bytes backward, stopping at 0.
    pub fn dec(&mut self, dec: usize)
        requires
            old(self).wf(),
        ensures
            final(self).wf(),
            final(self).text() == old(self).text(),
            final(self).offset() == if dec > old(self).offset() {
                0
            } else {
                old(self).offset() - dec
            },
    {
        if dec > self.pos {
            self.pos = 0;
        } else {
            self.pos = self.pos - dec;
        }
    }

    pub fn pos(&self) -> (r: usize)
        ensures
            r == self.offset(),
    {
        self.pos
    }

    pub fn data(&self) -> (r: &str)
        ensures
            r.spec_bytes() == self.text(),
    {
        self.data
    }

    /// Moves to the next boundary of `M`. Where there is none, the cursor
    /// stays and the result is none.
    pub fn next<M: Metric>(&mut self) -> (r: Option<usize>)
        requires
            old(self).wf(),
        ensures
            final(self).wf(),
            final(self).text() == old(self).text(),
            opt_int(r) == next_boundary::<M>(old(self).text(), old(self).offset()),
            final(self).offset() == match r {
                Some(k) => k as int,
                None => old(self).offset(),
            },
    {
        if let Some(l) = M::next(self.data, self.pos) {
            proof {
                lemma_next_boundary::<M>(self.data.spec_bytes(), self.pos as int);
            }
            self.pos = l;
            Some(l)
        } else {
            None
        }
    }

    pub fn is_boundary<M: Metric>(&self) -> (r: bool)
        requires
            self.wf(),
        ensures
            r == M::at_boundary(self.text(), self.offset()),
    {
        M::is_boundary(self.data, self.pos)
    }

    /// Moves to the previous boundary of `M`. Where there is none, the cursor
    /// stays and the result is none.
    pub fn prev<M: Metric>(&mut self) -> (r: Option<usize>)
        requires
            old(self).wf(),
        ensures
            final(self).wf(),
            final(self).text() == old(self).text(),
            opt_int(r) == prev_boundary::<M>(old(self).text(), old(self).offset()),
            final(self).offset() == match r {
                Some(k) => k as int,
                None => old(self).offset(),
            },
    {
        if let Some(offset) = M::prev(self.data, self.pos) {
            proof {
                lemma_prev_boundary::<M>(self.data.spec_bytes(), self.pos as int);
            }
            self.pos = offset;
            Some(offset)
        } else {
            None
        }
    }

    /// Moves to the boundary of `M` at or after the cursor.
    pub fn at_or_next<M: Metric>(&mut self) -> (r: Option<usize>)
        requires
            old(self).wf(),
        ensures
            final(self).wf(),
            final(self).text() == old(self).text(),
            opt_int(r) == at_or_next_boundary::<M>(old(self).text(), old(self).offset()),
            final(self).offset() == match r {
                Some(k) => k as int,
                None => old(self).offset(),
            },
    {
        if let Some(l) = M::at_or_next(self.data, self.pos) {
            proof {
                lemma_next_boundary::<M>(self.data.spec_bytes(), self.pos as int);
            }
            self.pos = l;
            Some(l)
        } else {
            None
        }
    }

    /// Moves to the boundary of `M` at or before the cursor.
    pub fn at_or_prev<M: Metric>(&mut self) -> (r: Option<usize>)
        requires
            old(self).wf(),
        ensures
            final(self).wf(),
            final(self).text() == old(self).text(),
            opt_int(r) == at_or_prev_boundary::<M>(old(self).text(), old(self).offset()),
            final(self).offset() == match r {
                Some(k) => k as int,
                None => old(self).offset(),
            },
    {
        if let Some(l) = M::at_or_prev(self.data, self.pos) {
            proof {
                lemma_prev_boundary::<M>(self.data.spec_bytes(), self.pos as int);
            }
            self.pos = l;
            Some(l)
        } else {
            None
        }
    }

    /// Reads the character at the cursor and moves past it. At the end the
    /// cursor stays and the result is none.
    pub fn get_next_char(&mut self) -> (r: Option<char>)
        requires
            old(self).wf(),
            is_char_boundary(old(self).text(), old(self).offset()),
        ensures
            final(self).wf(),
            final(self).text() == old(self).text(),
            is_char_boundary(final(self).text(), final(self).offset()),
            old(self).offset() == old(self).text().len() ==> r is None && final(self).offset()
                == old(self).offset(),
            old(self).offset() < old(self).text().len() ==> r == Some(
                char_at(old(self).text(), old(self).offset()),
            ) && Some(final(self).offset()) == next_boundary::<CharMetric>(
                old(self).text(),
                old(self).offset(),
            ),
    {
        let n = self.data.as_bytes().len();
        if self.pos == n {
            return None;
        }
        let c = char_at_exec(self.data, self.pos);
        match CharMetric::next(self.data, self.pos) {
            Some(k) => {
                proof {
                    lemma_next_boundary::<CharMetric>(self.data.spec_bytes(), self.pos as int);
                }
                self.pos = k;
                Some(c)
            },
            None => {
                proof {
                    lemma_next_boundary::<CharMetric>(self.data.spec_bytes(), self.pos as int);
                    is_char_boundary_start_end_of_seq(self.data.spec_bytes());
                    assert(CharMetric::at_boundary(self.data.spec_bytes(), n as int));
                }
                None
            },
        }
    }

    /// Moves to the start of the character before the cursor and reads it.
    /// At 0 the cursor stays and the result is none.
    pub fn get_prev_char(&mut self) -> (r: Option<char>)
        requires
            old(self).wf(),
        ensures
            final(self).wf(),
            final(self).text() == old(self).text(),
            is_char_boundary(final(self).text(), final(self).offset()) || final(self).offset()
                == old(self).offset(),
            old(self).offset() == 0 ==> r is None && final(self).offset() == 0,
            old(self).offset() > 0 ==> Some(final(self).offset()) == prev_boundary::<CharMetric>(
                old(self).text(),
                old(self).offset(),
            ) && r == Some(char_at(old(self).text(), final(self).offset())),
    {
        match CharMetric::prev(self.data, self.pos) {
            Some(k) => {
                proof {
                    lemma_prev_boundary::<CharMetric>(self.data.spec_bytes(), self.pos as int);
                }
                let c = char_at_exec(self.data, k);
                self.pos = k;
                Some(c)
            },
            None => {
                proof {
                    is_char_boundary_start_end_of_seq(self.data.spec_bytes());
                    if self.pos > 0 {
                        lemma_prev_boundary::<CharMetric>(self.data.spec_bytes(), self.pos as int);
                        assert(CharMetric::at_boundary(self.data.spec_bytes(), 0));
                    }
                }
                None
            },
        }
    }

    /// Moves to the start of the current line and returns it.
    pub fn goto_line_begin(&mut self) -> (r: usize)
        requires
            old(self).wf(),
        ensures
            final(self).wf(),
            final(self).text() == old(self).text(),
            r == final(self).offset(),
            r == line_start(old(self).text(), old(self).offset()),
    {
        if self.pos() != 0 && self.at_or_prev::<NewlineMetric>().is_none() {
            self.set(0);
        }
        self.pos()
    }

    /// Moves to the start of the next line, or to the end where there is no
    /// next line, and returns it.
    pub fn goto_next_line(&mut self) -> (r: usize)
        requires
            old(self).wf(),
        ensures
            final(self).wf(),
            final(self).text() == old(self).text(),
            r == final(self).offset(),
            r == next_line_start(old(self).text(), old(self).offset()),
    {
        let res = self.next::<NewlineMetric>();
        match res {
            None => {
                let n = self.data.as_bytes().len();
                self.set(n);
                n
            },
            Some(x) => x,
        }
    }

    /// Moves to the start of the previous line, or to 0 where there is no
    /// previous line, and returns it.
    pub fn goto_prev_line(&mut self) -> (r: usize)
        requires
            old(self).wf(),
        ensures
            final(self).wf(),
            final(self).text() == old(self).text(),
            r == final(self).offset(),
            r == prev_line_start(old(self).text(), old(self).offset()),
    {
        self.goto_line_begin();
        if self.pos() == 0 {
            return 0;
        }
        let res = self.prev::<NewlineMetric>();
        match res {
            None => {
                self.set(0);
                0
            },
            Some(x) => x,
        }
    }

    /// The start of the line `n` lines from the current one: `None` or 1 is
    /// the current line, 2 the next, 0 the previous and so on. The cursor
    /// does not move.
    pub fn line_beginning_position(&mut self, n: Option<i32>) -> (r: usize)
        requires
            old(self).wf(),
        ensures
            final(self).wf(),
            final(self).text() == old(self).text(),
            final(self).offset() == old(self).offset(),
            r == line_beginning_at(old(self).text(), old(self).offset(), n),
            r <= old(self).text().len(),
    {
        let pos = self.pos();
        let ghost s = self.text();
        match n {
            None => {
                self.goto_line_begin();
            },
            Some(x) => {
                if x == 1 {
                    self.goto_line_begin();
                } else if x > 1 {
                    let k: u32 = (x - 1) as u32;
                    let mut i: u32 = 0;
                    while i < k
                        invariant
                            self.wf(),
                            self.text() == s,
                            i <= k,
                            self.offset() == lines_forward(s, pos as int, i as nat),
                        decreases k - i,
                    {
                        self.goto_next_line();
                        i = i + 1;
                    }
                } else {
                    self.goto_line_begin();
                    let ghost b = self.offset();
                    let k: u64 = (1 - (x as i64)) as u64;
                    if self.pos() != 0 {
                        let mut i: u64 = 0;
                        while i < k
                            invariant_except_break
                                self.offset() == lines_backward(s, b, i as nat),
                            invariant
                                self.wf(),
                                self.text() == s,
                                i <= k,
                            ensures
                                self.offset() == lines_backward(s, b, k as nat),
                            decreases k - i,
                        {
                            if self.prev::<NewlineMetric>().is_none() {
                                self.set(0);
                                proof {
                                    lemma_lines_backward_rests(s, b, (i + 1) as nat, k as nat);
                                }
                                break;
                            }
                            i = i + 1;
                        }
                    } else {
                        proof {
                            lemma_lines_backward_rests(s, b, 0, k as nat);
                        }
                    }
                }
            },
        }
        let result = self.pos();
        self.set(pos);
        result
    }

    /// The offset of the last character of the line `n` lines from the
    /// current one, counted as in `line_beginning_position`. The cursor does
    /// not move.
    pub fn line_end_position(&mut self, n: Option<i32>) -> (r: usize)
        requires
            old(self).wf(),
        ensures
            final(self).wf(),
            final(self).text() == old(self).text(),
            final(self).offset() == old(self).offset(),
            r == line_end_at(old(self).text(), old(self).offset(), n),
    {
        let pos = self.pos();
        let ghost s = self.text();
        match n {
            None => {
                self.goto_next_line();
            },
            Some(x) => {
                if x == 1 {
                    self.goto_next_line();
                } else if x > 1 {
                    let k: u32 = x as u32;
                    let mut i: u32 = 0;
                    while i < k
                        invariant
                            self.wf(),
                            self.text() == s,
                            i <= k,
                            self.offset() == lines_forward(s, pos as int, i as nat),
                        decreases k - i,
                    {
                        self.goto_next_line();
                        i = i + 1;
                    }
                } else {
                    let b = self.line_beginning_position(Some(x + 1));
                    if b == 0 {
                        self.set(0);
                        self.goto_next_line();
                    } else {
                        self.set(b);
                    }
                }
            },
        }
        let result = match self.prev::<CharMetric>() {
            Some(k) => k,
            None => 0,
        };
        self.set(pos);
        result
    }

    /// Whether the cursor is at the start of a line.
    pub fn is_bol(&self) -> (r: bool)
        requires
            self.wf(),
        ensures
            r == (self.offset() == 0 || NewlineMetric::at_boundary(self.text(), self.offset())),
    {
        if self.pos == 0 {
            true
        } else {
            NewlineMetric::is_boundary(self.data, self.pos)
        }
    }

    /// Searches forward for the `count`-th (by default the first)
    /// occurrence of `needle` that does not end after `bound` (by default the
    /// end of the text). On success the cursor moves to the end of it, which
    /// is returned; otherwise the cursor stays.
    pub fn search_forward(
        &mut self,
        needle: &str,
        bound: Option<usize>,
        count: Option<usize>,
    ) -> (r: Option<usize>)
        requires
            old(self).wf(),
        ensures
            final(self).wf(),
            final(self).text() == old(self).text(),
            opt_int(r) == search_forward_end(
                old(self).text(),
                needle.spec_bytes(),
                old(self).offset(),
                bound,
                count,
            ),
            final(self).offset() == match r {
                Some(e) => e as int,
                None => old(self).offset(),
            },
    {
        let ghost s = self.text();
        let w = needle.as_bytes();
        let wanted = match count {
            Some(c) => c,
            None => 1,
        };
        let n = self.data.as_bytes().len();
        let last_end = match bound {
            Some(b) => b,
            None => n,
        };
        let pos = self.pos();
        if last_end < pos || wanted == 0 {
            return None;
        }
        let mut from: usize = pos;
        let mut k: usize = wanted;
        let found: usize;
        loop
            invariant
                self.wf(),
                self.pos == pos,
                s == self.data.spec_bytes(),
                w@ == needle.spec_bytes(),
                pos <= last_end,
                last_end == match bound {
                    Some(b) => b,
                    None => n,
                },
                wanted == match count {
                    Some(c) => c,
                    None => 1,
                },
                n == s.len(),
                from <= n,
                1 <= k <= wanted,
                nth_occurrence(s, w@, pos as int, wanted as nat) == nth_occurrence(
                    s,
                    w@,
                    from as int,
                    k as nat,
                ),
            ensures
                nth_occurrence(s, w@, pos as int, wanted as nat) == Some(found as int),
                found + w@.len() <= n,
            decreases n - from,
        {
            proof {
                lemma_first_occurrence(s, w@, from as int);
            }
            match find_occurrence(self.data, w, from) {
                None => {
                    return None;
                },
                Some(j) => {
                    if k == 1 {
                        found = j;
                        break;
                    }
                    if j == n {
                        proof {
                            assert(w@.len() == 0);
                            assert(first_occurrence(s, w@, j + 1) is None);
                            assert(nth_occurrence(s, w@, j + 1, (k - 1) as nat) is None);
                        }
                        return None;
                    }
                    from = if w.len() == 0 {
                        j + 1
                    } else {
                        j + w.len()
                    };
                    k = k - 1;
                },
            }
        }
        let end = found + w.len();
        if end > last_end {
            return None;
        }
        self.pos = end;
        Some(end)
    }

    /// Moves forward over the characters that are in `cs`, stopping before
    /// the first that is not, and never past `limit` (by default the end of
    /// the text). Returns how many characters were passed.
    pub fn skip_chars_forward(&mut self, cs: &str, limit: Option<usize>) -> (r: usize)
        requires
            old(self).wf(),
            old(self).offset() < match limit {
                Some(l) => l as int,
                None => old(self).text().len() as int,
            } ==> is_char_boundary(old(self).text(), old(self).offset()),
        ensures
            final(self).wf(),
            final(self).text() == old(self).text(),
            skip_forward_stop(
                old(self).text(),
                cs@,
                old(self).offset(),
                match limit {
                    Some(l) => l as int,
                    None => old(self).text().len() as int,
                },
                final(self).offset(),
            ),
            r == char_starts(old(self).text(), old(self).offset(), final(self).offset()),
    {
        let ghost s = self.text();
        let n = self.data.as_bytes().len();
        let p = self.pos;
        let lim = match limit {
            Some(l) => l,
            None => n,
        };
        let mut count: usize = 0;
        loop
            invariant
                s == self.data.spec_bytes(),
                n == s.len(),
                p <= self.pos <= n,
                p < lim ==> is_char_boundary(s, self.pos as int),
                p < lim ==> self.pos <= lim,
                p >= lim ==> self.pos == p,
                count == char_starts(s, p as int, self.pos as int),
                count <= self.pos - p,
                forall|j: int|
                    p <= j < self.pos && is_char_boundary(s, j) ==> skip_forward_takes(
                        s,
                        cs@,
                        j,
                        lim as int,
                    ),
            ensures
                !skip_forward_takes(s, cs@, self.pos as int, lim as int),
            decreases n - self.pos,
        {
            if self.pos >= lim || self.pos == n {
                break;
            }
            let c = char_at_exec(self.data, self.pos);
            let k = match CharMetric::next(self.data, self.pos) {
                Some(k) => k,
                None => {
                    proof {
                        lemma_next_boundary::<CharMetric>(s, self.pos as int);
                        is_char_boundary_start_end_of_seq(s);
                        assert(CharMetric::at_boundary(s, n as int));
                    }
                    break;
                },
            };
            if !(contains_char(cs, c) && k <= lim) {
                break;
            }
            proof {
                lemma_next_char_start(s, self.pos as int);
                lemma_char_starts_one(s, self.pos as int, k as int);
                lemma_char_starts_split(s, p as int, self.pos as int, k as int);
            }
            self.pos = k;
            count = count + 1;
        }
        count
    }

    /// Moves backward over the characters that are in `cs`, stopping after
    /// the first that is not, and never before `limit` (by default 0).
    /// Returns how many characters were passed.
    pub fn skip_chars_backward(&mut self, cs: &str, limit: Option<usize>) -> (r: usize)
        requires
            old(self).wf(),
        ensures
            final(self).wf(),
            final(self).text() == old(self).text(),
            skip_backward_stop(
                old(self).text(),
                cs@,
                old(self).offset(),
                match limit {
                    Some(l) => l as int,
                    None => 0,
                },
                final(self).offset(),
            ),
            r == char_starts(old(self).text(), final(self).offset(), old(self).offset()),
    {
        let ghost s = self.text();
        let p = self.pos;
        let lim = match limit {
            Some(l) => l,
            None => 0,
        };
        let mut count: usize = 0;
        loop
            invariant
                s == self.data.spec_bytes(),
                self.pos <= p <= s.len(),
                self.pos == p || is_char_boundary(s, self.pos as int),
                p > lim ==> self.pos >= lim,
                p <= lim ==> self.pos == p,
                count == char_starts(s, self.pos as int, p as int),
                count <= p - self.pos,
                forall|j: int|
                    #![trigger skip_backward_takes(s, cs@, j, lim as int)]
                    self.pos < j <= p && (j == p || is_char_boundary(s, j))
                        ==> skip_backward_takes(s, cs@, j, lim as int),
            ensures
                !skip_backward_takes(s, cs@, self.pos as int, lim as int),
            decreases self.pos,
        {
            if self.pos <= lim {
                break;
            }
            proof {
                lemma_prev_char_start(s, self.pos as int);
            }
            let k = match CharMetric::prev(self.data, self.pos) {
                Some(k) => k,
                None => {
                    break;
                },
            };
            let c = char_at_exec(self.data, k);
            if !(k >= lim && contains_char(cs, c)) {
                break;
            }
            proof {
                lemma_char_starts_one(s, k as int, self.pos as int);
                lemma_char_starts_split(s, k as int, self.pos as int, p as int);
                assert(prev_boundary::<CharMetric>(s, self.pos as int) == Some(k as int));
                assert(skip_backward_takes(s, cs@, self.pos as int, lim as int));
                assert forall|j: int|
                    k < j <= p && (j == p || is_char_boundary(s, j)) implies skip_backward_takes(
                    s,
                    cs@,
                    j,
                    lim as int,
                ) by {
                    if j < self.pos {
                        assert(!is_char_boundary(s, j));
                    }
                }
            }
            self.pos = k;
            count = count + 1;
        }
        count
    }

    /// Moves past the run of white-space characters at the cursor, to the
    /// first character that is not white space or to the end, and returns
    /// the new position.
    pub fn skip_whitespace(&mut self) -> (r: usize)
        requires
            old(self).wf(),
            is_char_boundary(old(self).text(), old(self).offset()),
        ensures
            final(self).wf(),
            final(self).text() == old(self).text(),
            r == final(self).offset(),
            white_space_run_end(old(self).text(), old(self).offset(), r as int),
    {
        let ghost s = self.text();
        let n = self.data.as_bytes().len();
        let p = self.pos;
        loop
            invariant
                s == self.data.spec_bytes(),
                n == s.len(),
                p <= self.pos <= n,
                is_char_boundary(s, self.pos as int),
                forall|j: int|
                    p <= j < self.pos && is_char_boundary(s, j) ==> is_white_space(
                        char_at(s, j),
                    ),
            ensures
                self.pos == n || !is_white_space(char_at(s, self.pos as int)),
            decreases n - self.pos,
        {
            if self.pos == n {
                break;
            }
            let c = char_at_exec(self.data, self.pos);
            if !white_space(c) {
                break;
            }
            proof {
                lemma_next_char_start(s, self.pos as int);
                is_char_boundary_start_end_of_seq(s);
            }
            match CharMetric::next(self.data, self.pos) {
                Some(k) => {
                    self.pos = k;
                },
                None => {
                    break;
                },
            }
        }
        self.pos
    }

    /// End of the window an anchored match at the cursor looks at.
    pub fn scan_window_end(&self, multiline: bool) -> (r: usize)
        requires
            self.wf(),
        ensures
            r == scan_end(self.text(), self.offset(), multiline),
            self.offset() <= r <= self.text().len(),
            is_char_boundary(self.text(), r as int),
    {
        let ghost s = self.text();
        proof {
            is_char_boundary_start_end_of_seq(s);
        }
        if multiline {
            return self.data.as_bytes().len();
        }
        match NewlineMetric::next(self.data, self.pos) {
            Some(p) => {
                proof {
                    lemma_next_boundary::<NewlineMetric>(s, self.pos as int);
                    is_char_boundary_iff_not_is_continuation_byte(s, p - 1);
                }
                p - 1
            },
            None => self.data.as_bytes().len(),
        }
    }

    /// The match of `re` that starts right at the cursor, within the rest of
    /// the line (or of the text, for a pattern that may span lines), as
    /// offsets into that window. The cursor does not move.
    pub fn looking_at(&self, re: &Regex) -> (r: Option<Interval>)
        requires
            self.wf(),
            is_char_boundary(self.text(), self.offset()),
        ensures
            r == anchored_spec(first_match_of(*re, match_window(self.text(), self.offset(), *re))),
    {
        let multiline = is_multiline_regex(pattern_text(re));
        let end = self.scan_window_end(multiline);
        let window = sub_str(self.data, self.pos, end);
        anchored(find_match(re, window))
    }

    /// As `looking_at`, with the spans of the capture groups; group 0 is
    /// the whole match. Slower than `looking_at`.
    pub fn capturing_at(&self, re: &Regex) -> (r: Option<Vec<Option<Interval>>>)
        requires
            self.wf(),
            is_char_boundary(self.text(), self.offset()),
        ensures
            ({
                let w = match_window(self.text(), self.offset(), *re);
                match r {
                    Some(g) => Some(g@) == captures_of(*re, w) && g@.len() >= 1 && g@[0]
                        == anchored_spec(first_match_of(*re, w)),
                    None => anchored_spec(first_match_of(*re, w)) is None,
                }
            }),
    {
        let multiline = is_multiline_regex(pattern_text(re));
        let end = self.scan_window_end(multiline);
        let window = sub_str(self.data, self.pos, end);
        match find_captures(re, window) {
            Some(groups) => {
                let whole = groups[0];
                if anchored(whole).is_some() {
                    Some(groups)
                } else {
                    None
                }
            },
            None => None,
        }
    }

    /// Takes a match found in the text that follows the cursor: moves the
    /// cursor to its end and returns it as offsets into the whole text. With
    /// none, the cursor stays.
    pub fn advance_past(&mut self, found: Option<Interval>) -> (r: Option<Interval>)
        requires
            old(self).wf(),
            match found {
                Some(m) => within(m, old(self).text().len() - old(self).offset()),
                None => true,
            },
        ensures
            final(self).wf(),
            final(self).text() == old(self).text(),
            r == match found {
                Some(m) => Some(shifted(m, old(self).offset())),
                None => None::<Interval>,
            },
            final(self).offset() == match r {
                Some(m) => m.end as int,
                None => old(self).offset(),
            },
    {
        match found {
            None => None,
            Some(m) => {
                let res = Interval::new(self.pos + m.start, self.pos + m.end);
                self.pos = self.pos + m.end;
                Some(res)
            },
        }
    }

    /// The first match of `re` in the text from the cursor up to `bound`
    /// (by default, or when past it, the end of the text). On success the
    /// cursor moves to its end and the match is returned as offsets into the
    /// whole text; otherwise the cursor stays.
    pub fn re_search_forward(&mut self, re: &Regex, bound: Option<usize>) -> (r: Option<
        Interval,
    >)
        requires
            old(self).wf(),
            old(self).offset() < search_limit(old(self).text(), bound) ==> is_char_boundary(
                old(self).text(),
                old(self).offset(),
            ) && is_char_boundary(old(self).text(), search_limit(old(self).text(), bound)),
        ensures
            final(self).wf(),
            final(self).text() == old(self).text(),
            r == if old(self).offset() < search_limit(old(self).text(), bound) {
                match first_match_of(
                    *re,
                    old(self).text().subrange(
                        old(self).offset(),
                        search_limit(old(self).text(), bound),
                    ),
                ) {
                    Some(m) => Some(shifted(m, old(self).offset())),
                    None => None::<Interval>,
                }
            } else {
                None::<Interval>
            },
            final(self).offset() == match r {
                Some(m) => m.end as int,
                None => old(self).offset(),
            },
    {
        let n = self.data.as_bytes().len();
        let end = match bound {
            Some(b) => if b <= n {
                b
            } else {
                n
            },
            None => n,
        };
        if end <= self.pos {
            return None;
        }
        proof {
            is_char_boundary_start_end_of_seq(self.text());
        }
        let window = sub_str(self.data, self.pos, end);
        let found = find_match(re, window);
        self.advance_past(found)
    }

    /// The character that starts at `offset`, or none at the end. The cursor
    /// does not move.
    pub fn char_after(&mut self, offset: usize) -> (r: Option<char>)
        requires
            old(self).wf(),
            offset <= old(self).text().len(),
            is_char_boundary(old(self).text(), offset as int),
        ensures
            final(self).wf(),
            final(self).text() == old(self).text(),
            final(self).offset() == old(self).offset(),
            r == if offset < old(self).text().len() {
                Some(char_at(old(self).text(), offset as int))
            } else {
                None::<char>
            },
    {
        let pos = self.pos();
        self.set(offset);
        let result = self.get_next_char();
        self.set(pos);
        result
    }
}

/// Whether `c` is one of the characters of `cs`.
fn contains_char(cs: &str, c: char) -> (r: bool)
    ensures
        r == cs@.contains(c),
{
    let n = cs.unicode_len();
    let mut i: usize = 0;
    while i < n
        invariant
            n == cs@.len(),
            i <= n,
            forall|j: int| 0 <= j < i ==> cs@[j] != c,
        decreases n - i,
    {
        if cs.get_char(i) == c {
            return true;
        }
        i = i + 1;
    }
    false
}

/// The first occurrence of `w` in `s` at or after `from`.
fn find_occurrence(s: &str, w: &[u8], from: usize) -> (r: Option<usize>)
    requires
        from <= s.spec_bytes().len(),
    ensures
        opt_int(r) == first_occurrence(s.spec_bytes(), w@, from as int),
{
    let h = s.as_bytes();
    let n = h.len();
    if w.len() > n {
        proof {
            lemma_first_occurrence(s.spec_bytes(), w@, from as int);
        }
        return None;
    }
    let last = n - w.len();
    if from > last {
        proof {
            lemma_first_occurrence(s.spec_bytes(), w@, from as int);
        }
        return None;
    }
    let mut j: usize = from;
    loop
        invariant
            h@ == s.spec_bytes(),
            n == h@.len(),
            last + w@.len() == n,
            from <= j <= last,
            first_occurrence(s.spec_bytes(), w@, from as int) == first_occurrence(
                s.spec_bytes(),
                w@,
                j as int,
            ),
        decreases last - j,
    {
        if s.is_char_boundary(j) && bytes_at(h, w, j) {
            return Some(j);
        }
        if j == last {
            proof {
                lemma_first_occurrence(s.spec_bytes(), w@, j + 1);
            }
            return None;
        }
        j = j + 1;
    }
}

/// The part of `s` from byte `from` to byte `to`.
fn sub_str<'b>(s: &'b str, from: usize, to: usize) -> (r: &'b str)
    requires
        from <= to <= s.spec_bytes().len(),
        is_char_boundary(s.spec_bytes(), from as int),
        is_char_boundary(s.spec_bytes(), to as int),
    ensures
        r.spec_bytes() == s.spec_bytes().subrange(from as int, to as int),
{
    let ghost b = s.spec_bytes();
    let (head, _) = s.split_at(to);
    proof {
        let hb = head.spec_bytes();
        valid_utf8_split(b, to as int);
        if from < to {
            is_char_boundary_iff_not_is_continuation_byte(b, from as int);
            is_char_boundary_iff_not_is_continuation_byte(hb, from as int);
            assert(hb[from as int] == b[from as int]);
        } else {
            is_char_boundary_start_end_of_seq(hb);
        }
    }
    let (_, mid) = head.split_at(from);
    proof {
        assert(mid.spec_bytes() =~= b.subrange(from as int, to as int));
    }
    mid
}

} // verus!
