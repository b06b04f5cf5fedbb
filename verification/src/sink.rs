//! Sinks: where rendered chunks go.
//!
//! A sink is handed over, takes a chunk or refuses it, and is handed back.
//! What a sink does with a chunk is a function of its model alone, so a
//! contract can say exactly what a whole run of chunks does to it.

use vstd::prelude::*;
use vstd::string::StringSliceAdditionalSpecFns;

verus! {

/// The one failure a render can meet: the sink refused a chunk.
#[derive(Clone, Copy, Debug, PartialEq, Eq, Structural)]
pub struct SinkError;

/// A destination for chunks of bytes.
pub trait Sink: Sized {
    /// What a contract sees of a sink of this kind.
    type Model;

    /// What a contract sees of this sink.
    spec fn model(&self) -> Self::Model;

    /// The sink after `chunk` was offered to it, and whether it took the chunk.
    spec fn step(model: Self::Model, chunk: Seq<u8>) -> (Self::Model, bool);

    /// Offers one chunk. The sink comes back whether or not it took the chunk.
    fn write(self, chunk: &[u8]) -> (out: (Self, Result<(), SinkError>))
        ensures
            (out.0.model(), out.1 is Ok) == Self::step(self.model(), chunk@),
    ;

    /// Offers the bytes of a string as one chunk.
    fn write_str(self, text: &str) -> (out: (Self, Result<(), SinkError>))
        ensures
            (out.0.model(), out.1 is Ok) == Self::step(self.model(), text.spec_bytes()),
    {
        self.write(text.as_bytes())
    }
}

/// The sink after `chunks` were offered in order, up to and including the
/// first one it refused, and whether it took them all.
pub open spec fn feed<W: Sink>(model: W::Model, chunks: Seq<Seq<u8>>) -> (W::Model, bool)
    decreases chunks.len(),
{
    if chunks.len() == 0 {
        (model, true)
    } else {
        let (next, taken) = W::step(model, chunks[0]);
        if taken {
            feed::<W>(next, chunks.drop_first())
        } else {
            (next, false)
        }
    }
}

/// Feeding `first + second` is feeding `first` and, if all of it was taken,
/// `second`.
pub proof fn lemma_feed_concat<W: Sink>(
    model: W::Model,
    first: Seq<Seq<u8>>,
    second: Seq<Seq<u8>>,
)
    ensures
        feed::<W>(model, first + second) == if feed::<W>(model, first).1 {
            feed::<W>(feed::<W>(model, first).0, second)
        } else {
            feed::<W>(model, first)
        },
    decreases first.len(),
{
    if first.len() == 0 {
        assert(first + second =~= second);
    } else {
        let (next, taken) = W::step(model, first[0]);
        assert((first + second).drop_first() =~= first.drop_first() + second);
        if taken {
            lemma_feed_concat::<W>(next, first.drop_first(), second);
        }
    }
}

/// Feeding a single chunk is one step.
pub proof fn lemma_feed_one<W: Sink>(model: W::Model, chunk: Seq<u8>)
    ensures
        feed::<W>(model, seq![chunk]) == W::step(model, chunk),
{
    assert(seq![chunk].drop_first() =~= Seq::<Seq<u8>>::empty());
    assert(feed::<W>(W::step(model, chunk).0, Seq::<Seq<u8>>::empty()) == (
        W::step(model, chunk).0,
        true,
    ));
}

/// A growable buffer takes every chunk and appends it.
impl Sink for Vec<u8> {
    type Model = Seq<u8>;

    open spec fn model(&self) -> Seq<u8> {
        self@
    }

    open spec fn step(model: Seq<u8>, chunk: Seq<u8>) -> (Seq<u8>, bool) {
        (model + chunk, true)
    }

    fn write(self, chunk: &[u8]) -> (out: (Self, Result<(), SinkError>)) {
        let mut bytes = self;
        bytes.extend_from_slice(chunk);
        assert(bytes@ =~= self@ + chunk@);
        (bytes, Ok(()))
    }
}

/// A growable buffer that was fed holds what it held, then the chunks end to
/// end.
pub proof fn lemma_feed_buffer(held: Seq<u8>, chunks: Seq<Seq<u8>>)
    ensures
        feed::<Vec<u8>>(held, chunks) == (held + chunks.flatten(), true),
    decreases chunks.len(),
{
    if chunks.len() > 0 {
        lemma_feed_buffer(held + chunks[0], chunks.drop_first());
    }
}

/// What a contract sees of a [`Bounded`] sink.
pub struct BoundedModel {
    /// The bytes taken so far.
    pub bytes: Seq<u8>,
    /// The number of bytes that the sink can hold.
    pub limit: nat,
}

/// A buffer that holds at most `limit` bytes. It refuses a chunk that does
/// not fit as a whole, and takes nothing of it.
pub struct Bounded {
    bytes: Vec<u8>,
    limit: usize,
}

impl Bounded {
    #[verifier::type_invariant]
    spec fn within_limit(self) -> bool {
        self.bytes@.len() <= self.limit
    }

    /// An empty buffer with room for `limit` bytes.
    pub fn new(limit: usize) -> (out: Self)
        ensures
            out.model() == (BoundedModel { bytes: Seq::empty(), limit: limit as nat }),
    {
        Bounded { bytes: Vec::new(), limit }
    }

    /// The bytes taken so far.
    pub fn as_slice(&self) -> (out: &[u8])
        ensures
            out@ == self.model().bytes,
    {
        self.bytes.as_slice()
    }

    /// The number of bytes that still fit.
    pub fn room(&self) -> (out: usize)
        ensures
            out == self.model().limit - self.model().bytes.len(),
    {
        proof {
            use_type_invariant(self);
        }
        self.limit - self.bytes.len()
    }
}

impl Sink for Bounded {
    type Model = BoundedModel;

    closed spec fn model(&self) -> BoundedModel {
        BoundedModel { bytes: self.bytes@, limit: self.limit as nat }
    }

    open spec fn step(model: BoundedModel, chunk: Seq<u8>) -> (BoundedModel, bool) {
        if model.bytes.len() + chunk.len() <= model.limit {
            (BoundedModel { bytes: model.bytes + chunk, limit: model.limit }, true)
        } else {
            (model, false)
        }
    }

    fn write(self, chunk: &[u8]) -> (out: (Self, Result<(), SinkError>)) {
        proof {
            use_type_invariant(&self);
        }
        if chunk.len() <= self.limit - self.bytes.len() {
            let Bounded { bytes, limit } = self;
            let mut bytes = bytes;
            bytes.extend_from_slice(chunk);
            assert(bytes@ =~= self.bytes@ + chunk@);
            (Bounded { bytes, limit }, Ok(()))
        } else {
            (self, Err(SinkError))
        }
    }
}

} // verus!
