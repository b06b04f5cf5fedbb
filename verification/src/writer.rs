//! The streaming filter: a sink that replaces a needle in what passes
//! through it, however the text is cut into chunks.

use crate::filter::{flush, is_start_of, react, react_all};
use crate::render::Render;
use crate::sink::{feed, lemma_feed_concat, lemma_feed_one, Sink, SinkError};
use vstd::prelude::*;
use vstd::slice::slice_subrange;
use vstd::string::StringSliceAdditionalSpecFns;

verus! {

/// What a contract sees of a [`ReplaceWriter`].
pub struct FilterModel<M> {
    /// The sink behind the filter.
    pub inner: M,
    /// The bytes to replace.
    pub needle: Seq<u8>,
    /// The chunks that the replacement renders as.
    pub replacement: Seq<Seq<u8>>,
    /// The bytes held back: a start of the needle, shorter than the needle.
    pub carry: Seq<u8>,
}

/// A sink in front of another sink. It replaces each occurrence of `needle`
/// that begins where the filter is idle, also one that is spread over
/// several chunks, and keeps no more than a needle's length of bytes back.
pub struct ReplaceWriter<'a, W, R> {
    writer: W,
    /// How many bytes of the needle the last chunks have matched.
    needle_pos: usize,
    needle: &'a str,
    replacement: R,
    /// The matched bytes, kept to be handed on if the match fails.
    buffer: Vec<u8>,
}

/// Whether `len` bytes of `left` from `left_from` equal those of `right`
/// from `right_from`.
fn same_bytes(left: &[u8], left_from: usize, right: &[u8], right_from: usize, len: usize) -> (out:
    bool)
    requires
        left_from + len <= left@.len(),
        right_from + len <= right@.len(),
    ensures
        out == (left@.subrange(left_from as int, left_from + len) == right@.subrange(
            right_from as int,
            right_from + len,
        )),
{
    let mut done: usize = 0;
    proof {
        broadcast use vstd::slice::group_slice_axioms;

        assert(left@.len() == vstd::slice::spec_slice_len(left));
        assert(right@.len() == vstd::slice::spec_slice_len(right));
    }
    while done < len
        invariant
            done <= len,
            left_from + len <= left@.len() <= usize::MAX,
            right_from + len <= right@.len() <= usize::MAX,
            left@.subrange(left_from as int, left_from + done) == right@.subrange(
                right_from as int,
                right_from + done,
            ),
        decreases len - done,
    {
        if left[left_from + done] != right[right_from + done] {
            proof {
                let a = left@.subrange(left_from as int, left_from + len);
                let b = right@.subrange(right_from as int, right_from + len);
                assert(a[done as int] != b[done as int]);
            }
            return false;
        }
        proof {
            assert(left@.subrange(left_from as int, left_from + done + 1) =~= left@.subrange(
                left_from as int,
                left_from + done,
            ).push(left@[left_from + done]));
            assert(right@.subrange(right_from as int, right_from + done + 1) =~= right@.subrange(
                right_from as int,
                right_from + done,
            ).push(right@[right_from + done]));
        }
        done = done + 1;
    }
    true
}

impl<'a, W, R> ReplaceWriter<'a, W, R> {
    #[verifier::type_invariant]
    spec fn inv(self) -> bool {
        &&& self.needle_pos == self.buffer@.len()
        &&& self.needle_pos < self.needle.spec_bytes().len()
        &&& self.buffer@ == self.needle.spec_bytes().take(self.needle_pos as int)
    }
}

impl<'a, W: Sink, R: Render> ReplaceWriter<'a, W, R> {
    /// An idle filter in front of `writer`.
    pub fn new(writer: W, needle: &'a str, replacement: R) -> (out: Self)
        requires
            needle.spec_bytes().len() > 0,
        ensures
            out.model() == (FilterModel {
                inner: writer.model(),
                needle: needle.spec_bytes(),
                replacement: replacement.chunks(),
                carry: Seq::empty(),
            }),
    {
        let buffer = Vec::new();
        assert(buffer@ =~= needle.spec_bytes().take(0));
        ReplaceWriter { writer, needle_pos: 0, needle, replacement, buffer }
    }

    /// The bytes held back: the start of the needle that the last chunks
    /// have matched.
    pub fn pending(&self) -> (out: &[u8])
        ensures
            out@ == self.model().carry,
            is_start_of(out@, self.model().needle),
    {
        proof {
            use_type_invariant(self);
        }
        self.buffer.as_slice()
    }

    /// Ends the stream: hands on the carry that was never completed, as it
    /// is, and gives the inner sink back.
    pub fn finish(self) -> (out: (W, Result<(), SinkError>))
        ensures
            (out.0.model(), out.1 is Ok) == feed::<W>(
                self.model().inner,
                flush(self.model().carry),
            ),
    {
        proof {
            use_type_invariant(&self);
        }
        let ReplaceWriter { writer, needle_pos, needle, replacement, buffer } = self;
        if needle_pos > 0 {
            proof {
                lemma_feed_one::<W>(writer.model(), buffer@);
            }
            writer.write(buffer.as_slice())
        } else {
            (writer, Ok(()))
        }
    }

    /// Gives the inner sink back as it is. The carry is dropped.
    pub fn into_inner(self) -> (out: W)
        ensures
            out.model() == self.model().inner,
    {
        self.writer
    }
}

impl<'a, W: Sink, R: Render> Sink for ReplaceWriter<'a, W, R> {
    type Model = FilterModel<W::Model>;

    closed spec fn model(&self) -> FilterModel<W::Model> {
        FilterModel {
            inner: self.writer.model(),
            needle: self.needle.spec_bytes(),
            replacement: self.replacement.chunks(),
            carry: self.buffer@,
        }
    }

    /// The filter reacts to the chunk and feeds the inner sink what it hands
    /// on. If the inner sink refuses a chunk, the filter is idle afterwards.
    open spec fn step(model: FilterModel<W::Model>, chunk: Seq<u8>) -> (
        FilterModel<W::Model>,
        bool,
    ) {
        let (out, held) = react(model.needle, model.replacement, model.carry, chunk);
        let (inner, taken) = feed::<W>(model.inner, out);
        (
            FilterModel {
                inner,
                needle: model.needle,
                replacement: model.replacement,
                carry: if taken {
                    held
                } else {
                    Seq::empty()
                },
            },
            taken,
        )
    }

    fn write(self, chunk: &[u8]) -> (out: (Self, Result<(), SinkError>)) {
        proof {
            use_type_invariant(&self);
        }
        let ghost before = self.model();
        let ReplaceWriter { writer, needle_pos, needle, replacement, buffer } = self;
        let pattern = needle.as_bytes();
        let mut writer = writer;
        let mut needle_pos = needle_pos;
        let mut buffer = buffer;
        let mut start: usize = 0;
        proof {
            assert(chunk@.skip(0) =~= chunk@);
        }
        loop
            invariant
                before == self.model(),
                start <= chunk@.len(),
                pattern@ == needle.spec_bytes(),
                needle_pos == buffer@.len(),
                needle_pos < pattern@.len(),
                buffer@ == pattern@.take(needle_pos as int),
                start > 0 ==> needle_pos == 0 && start < chunk@.len(),
                Self::step(before, chunk@) == Self::step(
                    FilterModel {
                        inner: writer.model(),
                        needle: pattern@,
                        replacement: replacement.chunks(),
                        carry: buffer@,
                    },
                    chunk@.skip(start as int),
                ),
            decreases chunk@.len() - start,
        {
            let ghost now = FilterModel {
                inner: writer.model(),
                needle: pattern@,
                replacement: replacement.chunks(),
                carry: buffer@,
            };
            let ghost piece = chunk@.skip(start as int);
            let ghost rest = pattern@.skip(needle_pos as int);
            let rest_len = pattern.len() - needle_pos;
            let avail = chunk.len() - start;
            let wanted = if avail < rest_len {
                avail
            } else {
                rest_len
            };
            proof {
                assert(chunk@.subrange(start as int, start + wanted) =~= piece.take(
                    wanted as int,
                ));
                assert(pattern@.subrange(needle_pos as int, needle_pos + wanted) =~= rest.take(
                    wanted as int,
                ));
            }
            if same_bytes(chunk, start, pattern, needle_pos, wanted) {
                if avail < rest_len {
                    // The chunk goes on matching and ends before the needle
                    // does: it is held back.
                    buffer.extend_from_slice(slice_subrange(chunk, start, chunk.len()));
                    needle_pos = needle_pos + avail;
                    proof {
                        assert(buffer@ =~= now.carry + piece);
                        assert(buffer@ =~= pattern@.take(needle_pos as int));
                    }
                    return (
                        ReplaceWriter { writer, needle_pos, needle, replacement, buffer },
                        Ok(()),
                    );
                }
                // The chunk reaches the end of the needle: the replacement
                // goes out, and what is left of the chunk is taken next.
                buffer.clear();
                needle_pos = 0;
                let ghost left = piece.skip(rest_len as int);
                proof {
                    assert(left =~= chunk@.skip(start + rest_len));
                    assert(buffer@ =~= pattern@.take(0));
                    if left.len() > 0 {
                        lemma_feed_concat::<W>(
                            now.inner,
                            now.replacement,
                            react(now.needle, now.replacement, Seq::empty(), left).0,
                        );
                    }
                }
                let (next, outcome) = replacement.render(writer);
                writer = next;
                if outcome.is_err() {
                    return (
                        ReplaceWriter { writer, needle_pos, needle, replacement, buffer },
                        outcome,
                    );
                }
                start = start + rest_len;
                if start == chunk.len() {
                    return (
                        ReplaceWriter { writer, needle_pos, needle, replacement, buffer },
                        Ok(()),
                    );
                }
            } else {
                // The match has failed: what was held back goes out, then
                // the chunk.
                let unmatched = slice_subrange(chunk, start, chunk.len());
                proof {
                    lemma_feed_concat::<W>(now.inner, seq![now.carry], seq![piece]);
                    assert(seq![now.carry, piece] =~= seq![now.carry] + seq![piece]);
                    lemma_feed_one::<W>(now.inner, now.carry);
                    lemma_feed_one::<W>(W::step(now.inner, now.carry).0, piece);
                }
                let (next, outcome) = writer.write(buffer.as_slice());
                buffer.clear();
                needle_pos = 0;
                proof {
                    assert(buffer@ =~= pattern@.take(0));
                }
                if outcome.is_err() {
                    return (
                        ReplaceWriter { writer: next, needle_pos, needle, replacement, buffer },
                        outcome,
                    );
                }
                let (next, outcome) = next.write(unmatched);
                return (
                    ReplaceWriter { writer: next, needle_pos, needle, replacement, buffer },
                    outcome,
                );
            }
        }
    }
}

/// Feeding a filter a run of chunks feeds the sink behind it all that the
/// filter hands on for them, up to the first chunk that the sink refuses.
pub proof fn lemma_feed_filter<'a, W: Sink, R: Render>(
    model: FilterModel<W::Model>,
    chunks: Seq<Seq<u8>>,
)
    ensures
        feed::<ReplaceWriter<'a, W, R>>(model, chunks) == ({
            let (out, held) = react_all(model.needle, model.replacement, model.carry, chunks);
            let (inner, taken) = feed::<W>(model.inner, out);
            (
                FilterModel {
                    inner,
                    needle: model.needle,
                    replacement: model.replacement,
                    carry: if taken {
                        held
                    } else {
                        Seq::empty()
                    },
                },
                taken,
            )
        }),
    decreases chunks.len(),
{
    if chunks.len() > 0 {
        let (first, held) = react(model.needle, model.replacement, model.carry, chunks[0]);
        let (later, last) = react_all(model.needle, model.replacement, held, chunks.drop_first());
        let (next, taken) = <ReplaceWriter<'a, W, R> as Sink>::step(model, chunks[0]);
        lemma_feed_concat::<W>(model.inner, first, later);
        if taken {
            lemma_feed_filter::<W, R>(next, chunks.drop_first());
        }
    }
}

} // verus!
