//! A replaced view of a string that lies in memory as a whole.

use crate::render::{render_to_string, Render};
use crate::search::{Pattern, SearchStep, Searcher};
use crate::sink::{feed, lemma_feed_concat, lemma_feed_one, Sink, SinkError};
use crate::text::{lemma_replace_keeps_text, lemma_walk_replaces, replace_all, walk};
use vstd::prelude::*;
use vstd::string::StringSliceAdditionalSpecFns;
use vstd::utf8::{encode_utf8, encode_utf8_valid_utf8};

verus! {

/// What a [`ReplacedString`] stands for.
pub struct Replaced {
    /// The bytes of the string.
    pub haystack: Seq<u8>,
    /// The bytes to replace.
    pub needle: Seq<u8>,
    /// The chunks that the replacement renders as.
    pub replacement: Seq<Seq<u8>>,
}

/// A string with every occurrence of a needle replaced, not yet rendered.
/// Making one does no work; each render walks the haystack once and renders
/// the replacement anew for every occurrence.
pub struct ReplacedString<'a, P: Pattern, R: Render> {
    haystack: &'a str,
    needle: P,
    replacement: R,
}

impl<'a, P: Pattern, R: Render> View for ReplacedString<'a, P, R> {
    type V = Replaced;

    closed spec fn view(&self) -> Replaced {
        Replaced {
            haystack: self.haystack.spec_bytes(),
            needle: self.needle.literal(),
            replacement: self.replacement.chunks(),
        }
    }
}

impl<'a, P: Pattern, R: Render> ReplacedString<'a, P, R> {
    #[verifier::type_invariant]
    spec fn inv(self) -> bool {
        self.needle.literal().len() > 0
    }

    /// A view of `haystack` with `needle` replaced by `replacement`.
    pub fn new(haystack: &'a str, needle: P, replacement: R) -> (out: Self)
        requires
            needle.literal().len() > 0,
        ensures
            out@ == (Replaced {
                haystack: haystack.spec_bytes(),
                needle: needle.literal(),
                replacement: replacement.chunks(),
            }),
    {
        ReplacedString { haystack, needle, replacement }
    }

    /// The replaced text as a string.
    pub fn to_string(&self) -> (out: String)
        ensures
            encode_utf8(out@) == replace_all(
                self@.haystack,
                self@.needle,
                self@.replacement.flatten(),
            ),
    {
        proof {
            use_type_invariant(self);
            lemma_walk_replaces(self@.haystack, self@.needle, self@.replacement, 0);
            assert(self@.haystack.skip(0) =~= self@.haystack);
        }
        render_to_string(self)
    }
}

impl<'a, P: Pattern, R: Render> Render for ReplacedString<'a, P, R> {
    open spec fn chunks(&self) -> Seq<Seq<u8>> {
        walk(self@.haystack, self@.needle, self@.replacement, 0)
    }

    proof fn lemma_renders_text(&self) {
        if self@.needle.len() > 0 {
            self.needle.lemma_literal_is_text();
            self.replacement.lemma_renders_text();
            encode_utf8_valid_utf8(self.haystack@);
            lemma_walk_replaces(self@.haystack, self@.needle, self@.replacement, 0);
            assert(self@.haystack.skip(0) =~= self@.haystack);
            lemma_replace_keeps_text(
                self@.haystack,
                self@.needle,
                self@.replacement.flatten(),
            );
        }
    }

    fn render<W: Sink>(&self, sink: W) -> (out: (W, Result<(), SinkError>)) {
        proof {
            use_type_invariant(self);
        }
        let haystack = self.haystack.as_bytes();
        let mut searcher = Searcher::new(haystack, self.needle.as_needle());
        let mut current = sink;
        loop
            invariant
                searcher.haystack() == self@.haystack,
                searcher.needle() == self@.needle,
                haystack@ == self@.haystack,
                self@.needle.len() > 0,
                0 <= searcher.position() <= haystack@.len(),
                feed::<W>(sink.model(), self.chunks()) == feed::<W>(
                    current.model(),
                    walk(self@.haystack, self@.needle, self@.replacement, searcher.position()),
                ),
            decreases haystack@.len() - searcher.position(),
        {
            match searcher.next() {
                SearchStep::Match(_, _) => {
                    proof {
                        lemma_feed_concat::<W>(
                            current.model(),
                            self@.replacement,
                            walk(
                                self@.haystack,
                                self@.needle,
                                self@.replacement,
                                searcher.position(),
                            ),
                        );
                    }
                    let (next, outcome) = self.replacement.render(current);
                    current = next;
                    if outcome.is_err() {
                        return (current, outcome);
                    }
                },
                SearchStep::Reject(start, end) => {
                    let span = vstd::slice::slice_subrange(haystack, start, end);
                    proof {
                        lemma_feed_concat::<W>(
                            current.model(),
                            seq![span@],
                            walk(
                                self@.haystack,
                                self@.needle,
                                self@.replacement,
                                searcher.position(),
                            ),
                        );
                        lemma_feed_one::<W>(current.model(), span@);
                    }
                    let (next, outcome) = current.write(span);
                    current = next;
                    if outcome.is_err() {
                        return (current, outcome);
                    }
                },
                SearchStep::Done => {
                    return (current, Ok(()));
                },
            }
        }
    }
}

/// Strings that can make a replaced view of themselves.
pub trait LazyReplace {
    /// The bytes of the string.
    spec fn haystack_bytes(&self) -> Seq<u8>;

    /// A view of this string with `pat` replaced by `replacement`.
    fn lazy_replace<P: Pattern, R: Render>(&self, pat: P, replacement: R) -> (out: ReplacedString<
        '_,
        P,
        R,
    >)
        requires
            pat.literal().len() > 0,
        ensures
            out@ == (Replaced {
                haystack: self.haystack_bytes(),
                needle: pat.literal(),
                replacement: replacement.chunks(),
            }),
    ;
}

impl LazyReplace for str {
    open spec fn haystack_bytes(&self) -> Seq<u8> {
        self.spec_bytes()
    }

    fn lazy_replace<P: Pattern, R: Render>(&self, pat: P, replacement: R) -> (out: ReplacedString<
        '_,
        P,
        R,
    >) {
        ReplacedString::new(self, pat, replacement)
    }
}

impl LazyReplace for String {
    open spec fn haystack_bytes(&self) -> Seq<u8> {
        encode_utf8(self@)
    }

    fn lazy_replace<P: Pattern, R: Render>(&self, pat: P, replacement: R) -> (out: ReplacedString<
        '_,
        P,
        R,
    >) {
        ReplacedString::new(self.as_str(), pat, replacement)
    }
}

} // verus!
