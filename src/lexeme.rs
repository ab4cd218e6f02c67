//! Lexemes: decoded units paired with the offset where they start.
//!
//! Only characters are offered as lexemes. Lines as lexemes (a line's text
//! with its start) are not: the cursor needs only where lines start and
//! end, which the newline metric gives as offsets, so no line is decoded.
use vstd::prelude::*;
use vstd::string::*;
use crate::metric::{
    char_at, char_at_exec, lemma_next_char_start, lemma_prev_char_start, next_boundary,
    prev_boundary, CharMetric, Metric,
};

verus! {

/// A decoded unit together with the offset where it starts.
pub struct Addressable<T> {
    pub value: T,
    pub address: usize,
}

/// A lexeme is a value that means something to a parser (a character, a
/// line), found between boundaries of a metric.
pub trait Lexeme {
    type Item;

    /// The unit, and its address, that a step backward from `offset` lands
    /// on.
    spec fn prev_unit(s: Seq<u8>, offset: int) -> Option<(Self::Item, int)>;

    /// The unit, and its address, that a step forward from `offset` lands
    /// on.
    spec fn next_unit(s: Seq<u8>, offset: int) -> Option<(Self::Item, int)>;

    fn prev(s: &str, offset: usize) -> (r: Option<Addressable<Self::Item>>)
        requires
            offset <= s.spec_bytes().len(),
        ensures
            match r {
                Some(a) => Self::prev_unit(s.spec_bytes(), offset as int) == Some(
                    (a.value, a.address as int),
                ),
                None => Self::prev_unit(s.spec_bytes(), offset as int) is None,
            },
    ;

    fn next(s: &str, offset: usize) -> (r: Option<Addressable<Self::Item>>)
        requires
            offset <= s.spec_bytes().len(),
        ensures
            match r {
                Some(a) => Self::next_unit(s.spec_bytes(), offset as int) == Some(
                    (a.value, a.address as int),
                ),
                None => Self::next_unit(s.spec_bytes(), offset as int) is None,
            },
    ;
}

/// The character that starts at the boundary `k`, where one does.
pub open spec fn char_unit(s: Seq<u8>, k: Option<int>) -> Option<(char, int)> {
    match k {
        Some(a) => if a < s.len() {
            Some((char_at(s, a), a))
        } else {
            None
        },
        None => None,
    }
}

/// Characters as lexemes: a step moves to the neighbouring character start
/// and reads the character there.
pub struct CharLexeme;

impl Lexeme for CharLexeme {
    type Item = char;

    open spec fn prev_unit(s: Seq<u8>, offset: int) -> Option<(char, int)> {
        char_unit(s, prev_boundary::<CharMetric>(s, offset))
    }

    open spec fn next_unit(s: Seq<u8>, offset: int) -> Option<(char, int)> {
        char_unit(s, next_boundary::<CharMetric>(s, offset))
    }

    fn prev(s: &str, offset: usize) -> (r: Option<Addressable<char>>) {
        proof {
            lemma_prev_char_start(s.spec_bytes(), offset as int);
        }
        if let Some(a) = CharMetric::prev(s, offset) {
            let c = char_at_exec(s, a);
            Some(Addressable { value: c, address: a })
        } else {
            None
        }
    }

    fn next(s: &str, offset: usize) -> (r: Option<Addressable<char>>) {
        proof {
            lemma_next_char_start(s.spec_bytes(), offset as int);
        }
        if let Some(a) = CharMetric::next(s, offset) {
            if a < s.as_bytes().len() {
                let c = char_at_exec(s, a);
                Some(Addressable { value: c, address: a })
            } else {
                None
            }
        } else {
            None
        }
    }
}

} // verus!
