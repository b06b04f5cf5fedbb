//! Values that render as a sequence of chunks.

use crate::sink::{feed, lemma_feed_buffer, lemma_feed_concat, lemma_feed_one, Sink, SinkError};
use vstd::prelude::*;
use vstd::seq_lib::lemma_flatten_concat;
use vstd::string::StringSliceAdditionalSpecFns;
use vstd::utf8::{encode_utf8, encode_utf8_valid_utf8, valid_utf8, valid_utf8_concat};

verus! {

/// A value that can write itself into a sink, chunk by chunk.
pub trait Render {
    /// The chunks that this value renders as, in order.
    spec fn chunks(&self) -> Seq<Seq<u8>>;

    /// End to end, the chunks are well-formed UTF-8. A single chunk need not
    /// be: it may end inside a character.
    proof fn lemma_renders_text(&self)
        ensures
            valid_utf8(self.chunks().flatten()),
    ;

    /// Offers the chunks to `sink` in order and stops at the first one that
    /// the sink refuses.
    fn render<W: Sink>(&self, sink: W) -> (out: (W, Result<(), SinkError>))
        ensures
            (out.0.model(), out.1 is Ok) == feed::<W>(sink.model(), self.chunks()),
    ;
}

/// The bytes that `value` renders as, end to end.
pub open spec fn rendered<T: Render>(value: &T) -> Seq<u8> {
    value.chunks().flatten()
}

/// A string slice renders as one chunk: its bytes.
impl<'a> Render for &'a str {
    open spec fn chunks(&self) -> Seq<Seq<u8>> {
        seq![self.spec_bytes()]
    }

    proof fn lemma_renders_text(&self) {
        seq![self.spec_bytes()].lemma_flatten_one_element();
        encode_utf8_valid_utf8(self@);
    }

    fn render<W: Sink>(&self, sink: W) -> (out: (W, Result<(), SinkError>)) {
        proof {
            lemma_feed_one::<W>(sink.model(), self.spec_bytes());
        }
        sink.write_str(self)
    }
}

/// An owned string renders as one chunk: its bytes.
impl Render for String {
    open spec fn chunks(&self) -> Seq<Seq<u8>> {
        seq![encode_utf8(self@)]
    }

    proof fn lemma_renders_text(&self) {
        seq![encode_utf8(self@)].lemma_flatten_one_element();
        encode_utf8_valid_utf8(self@);
    }

    fn render<W: Sink>(&self, sink: W) -> (out: (W, Result<(), SinkError>)) {
        proof {
            lemma_feed_one::<W>(sink.model(), encode_utf8(self@));
        }
        sink.write_str(self.as_str())
    }
}

/// A reference renders as what it points to.
impl<'a, T: Render> Render for &'a T {
    open spec fn chunks(&self) -> Seq<Seq<u8>> {
        (**self).chunks()
    }

    proof fn lemma_renders_text(&self) {
        (**self).lemma_renders_text();
    }

    fn render<W: Sink>(&self, sink: W) -> (out: (W, Result<(), SinkError>)) {
        (**self).render(sink)
    }
}

/// A pair renders as its first part, then its second.
impl<A: Render, B: Render> Render for (A, B) {
    open spec fn chunks(&self) -> Seq<Seq<u8>> {
        self.0.chunks() + self.1.chunks()
    }

    proof fn lemma_renders_text(&self) {
        self.0.lemma_renders_text();
        self.1.lemma_renders_text();
        lemma_flatten_concat(self.0.chunks(), self.1.chunks());
        valid_utf8_concat(self.0.chunks().flatten(), self.1.chunks().flatten());
    }

    fn render<W: Sink>(&self, sink: W) -> (out: (W, Result<(), SinkError>)) {
        proof {
            lemma_feed_concat::<W>(sink.model(), self.0.chunks(), self.1.chunks());
        }
        let (sink, first) = self.0.render(sink);
        if first.is_err() {
            return (sink, first);
        }
        self.1.render(sink)
    }
}

/// The chunks that `items` render as, one item after another.
pub open spec fn joined<T: Render>(items: Seq<T>) -> Seq<Seq<u8>>
    decreases items.len(),
{
    if items.len() == 0 {
        Seq::empty()
    } else {
        items[0].chunks() + joined(items.drop_first())
    }
}

/// Items that render as well-formed UTF-8 do so one after another too.
pub proof fn lemma_joined_text<T: Render>(items: Seq<T>)
    ensures
        valid_utf8(joined(items).flatten()),
    decreases items.len(),
{
    if items.len() > 0 {
        items[0].lemma_renders_text();
        lemma_joined_text(items.drop_first());
        lemma_flatten_concat(items[0].chunks(), joined(items.drop_first()));
        valid_utf8_concat(items[0].chunks().flatten(), joined(items.drop_first()).flatten());
    }
}

/// A list renders as its items, one after another.
impl<T: Render> Render for Vec<T> {
    open spec fn chunks(&self) -> Seq<Seq<u8>> {
        joined(self@)
    }

    proof fn lemma_renders_text(&self) {
        lemma_joined_text(self@);
    }

    fn render<W: Sink>(&self, sink: W) -> (out: (W, Result<(), SinkError>)) {
        let mut current = sink;
        let mut done: usize = 0;
        proof {
            assert(self@.skip(0) =~= self@);
        }
        while done < self.len()
            invariant
                done <= self@.len(),
                feed::<W>(sink.model(), self.chunks()) == feed::<W>(
                    current.model(),
                    joined(self@.skip(done as int)),
                ),
            decreases self@.len() - done,
        {
            proof {
                let rest = self@.skip(done as int);
                assert(rest.drop_first() =~= self@.skip(done + 1));
                lemma_feed_concat::<W>(
                    current.model(),
                    self@[done as int].chunks(),
                    joined(self@.skip(done + 1)),
                );
            }
            let (next, outcome) = self[done].render(current);
            current = next;
            if outcome.is_err() {
                return (current, outcome);
            }
            done = done + 1;
        }
        (current, Ok(()))
    }
}

/// Renders `value` into a fresh buffer.
pub fn render_to_bytes<T: Render>(value: &T) -> (out: Vec<u8>)
    ensures
        out@ == rendered(value),
{
    proof {
        lemma_feed_buffer(Seq::empty(), value.chunks());
    }
    let (bytes, _) = value.render(Vec::new());
    bytes
}

/// `String::from_utf8` of std: the string whose bytes are `bytes`, if they
/// are well-formed UTF-8, and nothing otherwise.
#[verifier::external_body]
fn string_from_utf8(bytes: Vec<u8>) -> (out: Option<String>)
    ensures
        out is Some <==> valid_utf8(bytes@),
        out matches Some(text) ==> encode_utf8(text@) == bytes@,
{
    match String::from_utf8(bytes) {
        Ok(text) => Some(text),
        Err(_) => None,
    }
}

/// Renders `value` into a string.
pub fn render_to_string<T: Render>(value: &T) -> (out: String)
    ensures
        encode_utf8(out@) == rendered(value),
{
    proof {
        value.lemma_renders_text();
    }
    string_from_utf8(render_to_bytes(value)).unwrap()
}

} // verus!
