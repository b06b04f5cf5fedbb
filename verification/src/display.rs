//! A replaced view of anything that renders.

use crate::filter::{filtered, flush, lemma_filtered_keeps_text, react_all};
use crate::render::{render_to_string, Render};
use crate::sink::{lemma_feed_concat, Sink, SinkError};
use crate::writer::{lemma_feed_filter, FilterModel, ReplaceWriter};
use vstd::prelude::*;
use vstd::string::StringSliceAdditionalSpecFns;
use vstd::utf8::{encode_utf8, encode_utf8_valid_utf8};

verus! {

/// What a [`ReplaceDisplay`] stands for.
pub struct Filtered {
    /// The chunks that the haystack renders as.
    pub haystack: Seq<Seq<u8>>,
    /// The bytes to replace.
    pub needle: Seq<u8>,
    /// The chunks that the replacement renders as.
    pub replacement: Seq<Seq<u8>>,
}

/// Anything that renders, with a needle replaced in what it renders as, not
/// yet rendered. Making one does no work; each render sends the haystack
/// through a fresh filter, chunk by chunk, and ends the stream.
pub struct ReplaceDisplay<'a, H, R> {
    haystack: H,
    needle: &'a str,
    replacement: R,
}

impl<'a, H: Render, R: Render> View for ReplaceDisplay<'a, H, R> {
    type V = Filtered;

    closed spec fn view(&self) -> Filtered {
        Filtered {
            haystack: self.haystack.chunks(),
            needle: self.needle.spec_bytes(),
            replacement: self.replacement.chunks(),
        }
    }
}

impl<'a, H, R> ReplaceDisplay<'a, H, R> {
    #[verifier::type_invariant]
    spec fn inv(self) -> bool {
        self.needle.spec_bytes().len() > 0
    }
}

impl<'a, H: Render, R: Render> ReplaceDisplay<'a, H, R> {
    /// A view of `haystack` with `needle` replaced by `replacement`.
    pub fn new(haystack: H, needle: &'a str, replacement: R) -> (out: Self)
        requires
            needle.spec_bytes().len() > 0,
        ensures
            out@ == (Filtered {
                haystack: haystack.chunks(),
                needle: needle.spec_bytes(),
                replacement: replacement.chunks(),
            }),
    {
        ReplaceDisplay { haystack, needle, replacement }
    }

    /// The replaced text as a string.
    pub fn to_string(&self) -> (out: String)
        ensures
            encode_utf8(out@) == filtered(
                self@.needle,
                self@.replacement,
                self@.haystack,
            ).flatten(),
    {
        render_to_string(self)
    }
}

impl<'a, H: Render, R: Render> Render for ReplaceDisplay<'a, H, R> {
    open spec fn chunks(&self) -> Seq<Seq<u8>> {
        filtered(self@.needle, self@.replacement, self@.haystack)
    }

    proof fn lemma_renders_text(&self) {
        self.haystack.lemma_renders_text();
        self.replacement.lemma_renders_text();
        encode_utf8_valid_utf8(self.needle@);
        lemma_filtered_keeps_text(self@.needle, self@.replacement, self@.haystack);
    }

    fn render<W: Sink>(&self, sink: W) -> (out: (W, Result<(), SinkError>)) {
        proof {
            use_type_invariant(self);
            let start = FilterModel {
                inner: sink.model(),
                needle: self@.needle,
                replacement: self@.replacement,
                carry: Seq::<u8>::empty(),
            };
            let (handed, held) = react_all(
                self@.needle,
                self@.replacement,
                Seq::empty(),
                self@.haystack,
            );
            lemma_feed_filter::<W, &R>(start, self@.haystack);
            lemma_feed_concat::<W>(sink.model(), handed, flush(held));
        }
        let filter = ReplaceWriter::new(sink, self.needle, &self.replacement);
        let (filter, outcome) = self.haystack.render(filter);
        if outcome.is_err() {
            (filter.into_inner(), outcome)
        } else {
            filter.finish()
        }
    }
}

/// Values that can make a replaced view of what they render as.
pub trait LazyReplaceDisplay: Render + Sized {
    /// A view of this value with `pat` replaced by `replacement`.
    fn replace_display<'a, R: Render>(self, pat: &'a str, replacement: R) -> (out: ReplaceDisplay<
        'a,
        Self,
        R,
    >)
        requires
            pat.spec_bytes().len() > 0,
        ensures
            out@ == (Filtered {
                haystack: self.chunks(),
                needle: pat.spec_bytes(),
                replacement: replacement.chunks(),
            }),
    ;
}

impl<T: Render> LazyReplaceDisplay for T {
    fn replace_display<'a, R: Render>(self, pat: &'a str, replacement: R) -> (out: ReplaceDisplay<
        'a,
        Self,
        R,
    >) {
        ReplaceDisplay::new(self, pat, replacement)
    }
}

} // verus!
