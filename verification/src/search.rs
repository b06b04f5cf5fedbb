//! Literal patterns and the walk over a haystack that finds them.

use crate::text::{
    absent, lemma_next_match_is, lemma_next_match_none, lemma_occurs_skip, next_match, occurs_at,
};
use vstd::prelude::*;
use vstd::string::StringSliceAdditionalSpecFns;
use vstd::utf8::{encode_utf8_valid_utf8, valid_utf8};

verus! {

/// `memchr::memmem::find`: the offset of the first occurrence of `needle` in
/// `haystack`, so that none begins before it, or nothing where the needle
/// does not occur. An empty needle occurs at offset 0.
pub assume_specification[ memchr::memmem::find ](haystack: &[u8], needle: &[u8]) -> (found:
    Option<usize>)
    ensures
        found matches Some(at) ==> occurs_at(haystack@, needle@, at as int) && forall|before: int|
            0 <= before < at ==> !occurs_at(haystack@, needle@, before),
        found is None ==> absent(haystack@, needle@),
;

/// A value that stands for a literal byte string to search for.
pub trait Pattern {
    /// The bytes to search for.
    spec fn literal(&self) -> Seq<u8>;

    /// The bytes are well-formed UTF-8.
    proof fn lemma_literal_is_text(&self)
        ensures
            valid_utf8(self.literal()),
    ;

    /// The bytes to search for, to search with.
    fn as_needle(&self) -> (needle: &[u8])
        ensures
            needle@ == self.literal(),
    ;
}

/// A string slice stands for its bytes.
impl<'a> Pattern for &'a str {
    open spec fn literal(&self) -> Seq<u8> {
        self.spec_bytes()
    }

    proof fn lemma_literal_is_text(&self) {
        encode_utf8_valid_utf8(self@);
    }

    fn as_needle(&self) -> (needle: &[u8]) {
        self.as_bytes()
    }
}

/// One step of a walk over a haystack: a span that is one occurrence of the
/// needle, a span that holds the start of none, or the end of the walk.
#[derive(Clone, Copy, Debug, PartialEq, Eq, Structural)]
pub enum SearchStep {
    /// An occurrence of the needle, from the first offset up to the second.
    Match(usize, usize),
    /// A span in which no occurrence begins, from the first offset up to
    /// the second, where the next occurrence or the haystack's end is.
    Reject(usize, usize),
    /// The haystack has been walked to its end.
    Done,
}

/// A walk over a haystack, one step at a time: spans that hold the start of
/// no occurrence, and occurrences of the needle, left to right, without gap
/// or overlap.
pub struct Searcher<'h, 'n> {
    haystack: &'h [u8],
    needle: &'n [u8],
    position: usize,
    /// The last search found an occurrence at `position`: the next step is
    /// that match, and needs no search.
    at_match: bool,
}

impl<'h, 'n> Searcher<'h, 'n> {
    #[verifier::type_invariant]
    spec fn inv(self) -> bool {
        &&& self.needle@.len() > 0
        &&& self.position <= self.haystack@.len()
        &&& self.at_match ==> occurs_at(self.haystack@, self.needle@, self.position as int)
    }

    /// The bytes that are walked over.
    pub closed spec fn haystack(&self) -> Seq<u8> {
        self.haystack@
    }

    /// The bytes that are searched for.
    pub closed spec fn needle(&self) -> Seq<u8> {
        self.needle@
    }

    /// How far the walk has come.
    pub closed spec fn position(&self) -> int {
        self.position as int
    }

    /// A walk that stands at the start of `haystack`.
    pub fn new(haystack: &'h [u8], needle: &'n [u8]) -> (out: Self)
        requires
            needle@.len() > 0,
        ensures
            out.haystack() == haystack@,
            out.needle() == needle@,
            out.position() == 0,
    {
        Searcher { haystack, needle, position: 0, at_match: false }
    }

    /// The next step of the walk. It starts where the last one ended.
    pub fn next(&mut self) -> (step: SearchStep)
        ensures
            final(self).haystack() == old(self).haystack(),
            final(self).needle() == old(self).needle(),
            0 <= old(self).position() <= final(self).position() <= old(self).haystack().len(),
            match step {
                SearchStep::Done => {
                    &&& old(self).position() == old(self).haystack().len()
                    &&& final(self).position() == old(self).position()
                },
                SearchStep::Match(start, end) => {
                    &&& start == old(self).position()
                    &&& start < old(self).haystack().len()
                    &&& next_match(old(self).haystack(), old(self).needle(), start as int) == start
                    &&& end == start + old(self).needle().len()
                    &&& final(self).position() == end
                },
                SearchStep::Reject(start, end) => {
                    &&& start == old(self).position()
                    &&& start < end
                    &&& next_match(old(self).haystack(), old(self).needle(), start as int) == end
                    &&& final(self).position() == end
                },
            },
    {
        proof {
            use_type_invariant(&*self);
        }
        let from = self.position;
        let length = self.haystack.len();
        if from == length {
            return SearchStep::Done;
        }
        if self.at_match {
            let end = from + self.needle.len();
            self.at_match = false;
            self.position = end;
            return SearchStep::Match(from, end);
        }
        let rest = vstd::slice::slice_subrange(self.haystack, from, length);
        match memchr::memmem::find(rest, self.needle) {
            Some(at) => {
                proof {
                    lemma_occurs_skip(self.haystack@, self.needle@, from as int, at as int);
                    assert forall|before: int| from <= before < from + at implies !occurs_at(
                        self.haystack@,
                        self.needle@,
                        before,
                    ) by {
                        lemma_occurs_skip(
                            self.haystack@,
                            self.needle@,
                            from as int,
                            before - from,
                        );
                    }
                    lemma_next_match_is(
                        self.haystack@,
                        self.needle@,
                        from as int,
                        from + at,
                    );
                }
                if at == 0 {
                    let end = from + self.needle.len();
                    self.position = end;
                    SearchStep::Match(from, end)
                } else {
                    let end = from + at;
                    self.position = end;
                    self.at_match = true;
                    SearchStep::Reject(from, end)
                }
            },
            None => {
                proof {
                    assert forall|at: int| from <= at implies !occurs_at(
                        self.haystack@,
                        self.needle@,
                        at,
                    ) by {
                        lemma_occurs_skip(self.haystack@, self.needle@, from as int, at - from);
                    }
                    lemma_next_match_none(self.haystack@, self.needle@, from as int);
                }
                self.position = length;
                SearchStep::Reject(from, length)
            },
        }
    }
}

} // verus!
