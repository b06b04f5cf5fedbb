//! Deferred substring replacement for rendered output.
//!
//! A view binds a haystack, a literal needle and a replacement without doing
//! any work. Rendering the view pushes chunks of bytes into a sink: the
//! haystack with every occurrence of the needle replaced, and never a copy of
//! the replaced text as a whole.
//!
//! There are two kinds of view. A [`ReplacedString`] is a view of a string
//! that lies in memory: a render walks over it and finds every occurrence. A
//! [`ReplaceDisplay`] is a view of anything that renders: a render sends its
//! chunks through a [`ReplaceWriter`], a filter that holds back at most a
//! start of the needle and finds the occurrences that begin where it is idle,
//! also those that are spread over several chunks.
//!
//! Every contract is stated over byte strings (`Seq<u8>`) and over the chunk
//! sequences that a value renders as. The module `laws` holds what follows
//! from them for every text and every way of cutting it into chunks.

pub mod display;
pub mod filter;
pub mod laws;
pub mod render;
pub mod replaced;
pub mod search;
pub mod sink;
pub mod text;
pub mod writer;

pub use display::{Filtered, LazyReplaceDisplay, ReplaceDisplay};
pub use render::{render_to_bytes, render_to_string, Render};
pub use replaced::{LazyReplace, Replaced, ReplacedString};
pub use search::{Pattern, SearchStep, Searcher};
pub use sink::{Bounded, BoundedModel, Sink, SinkError};
pub use writer::{FilterModel, ReplaceWriter};
