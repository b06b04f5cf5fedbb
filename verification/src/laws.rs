//! What holds of every view, every filter and every way of cutting a text
//! into chunks.

use crate::display::ReplaceDisplay;
use crate::filter::{
    filtered, flush, held_after, is_start_of, lands_idle, lemma_flush_flatten,
    lemma_react_all_absent, lemma_react_all_concat, lemma_react_all_holds_same,
    lemma_react_all_holds_start, lemma_react_all_match, lemma_react_all_misses,
    lemma_react_all_same, lemma_react_all_takes_text, react_all,
};
use crate::render::{rendered, Render};
use crate::replaced::ReplacedString;
use crate::search::Pattern;
use crate::sink::{feed, lemma_feed_buffer};
use crate::text::{
    absent, lemma_occurs_skip, lemma_replace_absent, lemma_replace_same, lemma_replace_sole,
    lemma_walk_replaces, occurs_at, replace_all, walk,
};
use vstd::prelude::*;
use vstd::seq_lib::lemma_flatten_concat;

verus! {

/// `at` is the one offset at which `needle` occurs in `hay`.
pub open spec fn sole_occurrence(hay: Seq<u8>, needle: Seq<u8>, at: int) -> bool {
    &&& occurs_at(hay, needle, at)
    &&& forall|other: int| occurs_at(hay, needle, other) ==> other == at
}

/// Offset `at` of the stream lies at a cut between two chunks, or at its
/// start or end, and a filter that starts idle is idle when it gets there.
pub open spec fn idle_at(needle: Seq<u8>, chunks: Seq<Seq<u8>>, at: int) -> bool {
    exists|cut: int| lands_idle(needle, Seq::empty(), chunks, cut, at)
}

/// A view of a string renders, end to end, as the string with every
/// occurrence of the needle replaced by what the replacement renders as.
pub proof fn law_view_replaces_all<'a, P: Pattern, R: Render>(view: &ReplacedString<'a, P, R>)
    requires
        view@.needle.len() > 0,
    ensures
        rendered(view) == replace_all(view@.haystack, view@.needle, view@.replacement.flatten()),
{
    lemma_walk_replaces(view@.haystack, view@.needle, view@.replacement, 0);
    assert(view@.haystack.skip(0) =~= view@.haystack);
}

/// The spans of a walk and the occurrences between them make up the
/// haystack, without gap or overlap: a view that replaces the needle by
/// itself renders as the haystack.
pub proof fn law_walk_covers_haystack(hay: Seq<u8>, needle: Seq<u8>)
    requires
        needle.len() > 0,
    ensures
        walk(hay, needle, seq![needle], 0).flatten() == hay,
{
    lemma_walk_replaces(hay, needle, seq![needle], 0);
    seq![needle].lemma_flatten_one_element();
    lemma_replace_same(hay, needle);
    assert(hay.skip(0) =~= hay);
}

/// The filter loses no byte and moves none: if the replacement renders as
/// the needle itself, the stream comes out as it went in, however it is cut
/// into chunks.
pub proof fn law_filter_keeps_every_byte(
    needle: Seq<u8>,
    replacement: Seq<Seq<u8>>,
    chunks: Seq<Seq<u8>>,
)
    requires
        needle.len() > 0,
        replacement.flatten() == needle,
    ensures
        filtered(needle, replacement, chunks).flatten() == chunks.flatten(),
{
    let (out, held) = react_all(needle, replacement, Seq::empty(), chunks);
    assert(Seq::<u8>::empty() =~= needle.take(0));
    lemma_react_all_same(needle, replacement, Seq::empty(), chunks);
    lemma_flatten_concat(out, flush(held));
    lemma_flush_flatten(held);
}

/// A view of a string in which the needle does not occur renders as the
/// string, whatever the replacement.
pub proof fn law_absent_needle_changes_nothing<'a, P: Pattern, R: Render>(
    view: &ReplacedString<'a, P, R>,
)
    requires
        view@.needle.len() > 0,
        absent(view@.haystack, view@.needle),
    ensures
        rendered(view) == view@.haystack,
{
    law_view_replaces_all(view);
    lemma_replace_absent(view@.haystack, view@.needle, view@.replacement.flatten());
}

/// A stream in which the needle does not occur comes out of the filter as it
/// went in, however it is cut into chunks and whatever the replacement.
pub proof fn law_filter_passes_text_without_needle(
    needle: Seq<u8>,
    replacement: Seq<Seq<u8>>,
    chunks: Seq<Seq<u8>>,
)
    requires
        needle.len() > 0,
        absent(chunks.flatten(), needle),
    ensures
        filtered(needle, replacement, chunks).flatten() == chunks.flatten(),
{
    let (out, held) = react_all(needle, replacement, Seq::empty(), chunks);
    assert(Seq::<u8>::empty() =~= needle.take(0));
    lemma_react_all_absent(needle, replacement, Seq::empty(), chunks);
    lemma_flatten_concat(out, flush(held));
    lemma_flush_flatten(held);
}

/// An occurrence that begins at a cut at which the filter is idle, and is
/// the only one in the stream, is replaced.
proof fn lemma_found_occurrence_is_replaced(
    needle: Seq<u8>,
    replacement: Seq<Seq<u8>>,
    chunks: Seq<Seq<u8>>,
    at: int,
)
    requires
        needle.len() > 0,
        sole_occurrence(chunks.flatten(), needle, at),
        idle_at(needle, chunks, at),
    ensures
        filtered(needle, replacement, chunks).flatten() == replace_all(
            chunks.flatten(),
            needle,
            replacement.flatten(),
        ),
{
    let hay = chunks.flatten();
    let with = replacement.flatten();
    let cut = choose|cut: int| lands_idle(needle, Seq::empty(), chunks, cut, at);
    let front = chunks.take(cut);
    let back = chunks.skip(cut);
    let idle = Seq::<u8>::empty();
    assert(front + back =~= chunks);
    lemma_flatten_concat(front, back);
    assert(front.flatten() =~= hay.take(at));
    assert(back.flatten() =~= hay.skip(at));
    assert(idle =~= needle.take(0));

    // Up to the occurrence nothing is replaced.
    let (out, held) = react_all(needle, replacement, idle, front);
    assert forall|other: int| !occurs_at(hay.take(at), needle, other) by {
        if occurs_at(hay.take(at), needle, other) {
            assert(hay.subrange(other, other + needle.len()) =~= hay.take(at).subrange(
                other,
                other + needle.len(),
            ));
            assert(occurs_at(hay, needle, other));
        }
    }
    lemma_react_all_absent(needle, replacement, idle, front);
    lemma_react_all_holds_same(needle, replacement, Seq::empty(), idle, front);
    assert(held =~= idle);

    // From the occurrence on, it is replaced and nothing after it.
    let (later, last) = react_all(needle, replacement, idle, back);
    lemma_occurs_skip(hay, needle, at, 0);
    let after = hay.skip(at + needle.len());
    assert(hay.skip(at).skip(needle.len() as int) =~= after);
    assert forall|other: int| !occurs_at(after, needle, other) by {
        if 0 <= other {
            lemma_occurs_skip(hay, needle, at + needle.len(), other);
        }
    }
    lemma_react_all_match(needle, replacement, idle, back);

    lemma_react_all_concat(needle, replacement, idle, front, back);
    lemma_flatten_concat(out, later);
    lemma_flatten_concat(out + later, flush(last));
    lemma_flush_flatten(last);
    lemma_replace_sole(hay, needle, with, at);
    assert((out.flatten() + later.flatten()) + last =~= out.flatten() + (later.flatten() + last));
}

/// Where the one occurrence of the needle in the stream does not begin at a
/// cut at which the filter is idle, the stream comes out of the filter as it
/// went in.
pub proof fn law_missed_occurrence_is_passed(
    needle: Seq<u8>,
    replacement: Seq<Seq<u8>>,
    chunks: Seq<Seq<u8>>,
    at: int,
)
    requires
        needle.len() > 0,
        sole_occurrence(chunks.flatten(), needle, at),
        !idle_at(needle, chunks, at),
    ensures
        filtered(needle, replacement, chunks).flatten() == chunks.flatten(),
{
    let idle = Seq::<u8>::empty();
    let (out, held) = react_all(needle, replacement, idle, chunks);
    assert(idle =~= needle.take(0));
    if at == 0 {
        assert(lands_idle(needle, idle, chunks, 0, at));
    }
    lemma_react_all_misses(needle, replacement, idle, chunks, at);
    lemma_flatten_concat(out, flush(held));
    lemma_flush_flatten(held);
}

/// Cut a haystack that holds the needle once into chunks in any way. If the
/// occurrence begins at a cut at which the filter is idle, the chunks come
/// out of the filter as the whole haystack comes out of a walk over it: with
/// the occurrence replaced. So they do if the replacement renders as the
/// needle itself.
pub proof fn law_chunked_haystack_is_replaced(
    needle: Seq<u8>,
    replacement: Seq<Seq<u8>>,
    chunks: Seq<Seq<u8>>,
    at: int,
)
    requires
        needle.len() > 0,
        sole_occurrence(chunks.flatten(), needle, at),
        idle_at(needle, chunks, at) || replacement.flatten() == needle,
    ensures
        filtered(needle, replacement, chunks).flatten() == replace_all(
            chunks.flatten(),
            needle,
            replacement.flatten(),
        ),
        filtered(needle, replacement, chunks).flatten() == walk(
            chunks.flatten(),
            needle,
            replacement,
            0,
        ).flatten(),
{
    let hay = chunks.flatten();
    if idle_at(needle, chunks, at) {
        lemma_found_occurrence_is_replaced(needle, replacement, chunks, at);
    } else {
        law_filter_keeps_every_byte(needle, replacement, chunks);
        lemma_replace_same(hay, needle);
    }
    lemma_walk_replaces(hay, needle, replacement, 0);
    assert(hay.skip(0) =~= hay);
}

/// In no other case does a stream that holds the needle once come out of
/// the filter with the occurrence replaced.
pub proof fn law_chunked_haystack_is_replaced_only_then(
    needle: Seq<u8>,
    replacement: Seq<Seq<u8>>,
    chunks: Seq<Seq<u8>>,
    at: int,
)
    requires
        needle.len() > 0,
        sole_occurrence(chunks.flatten(), needle, at),
        filtered(needle, replacement, chunks).flatten() == replace_all(
            chunks.flatten(),
            needle,
            replacement.flatten(),
        ),
    ensures
        idle_at(needle, chunks, at) || replacement.flatten() == needle,
{
    let hay = chunks.flatten();
    let with = replacement.flatten();
    let after = hay.skip(at + needle.len());
    let replaced = hay.take(at) + with + after;
    if !idle_at(needle, chunks, at) {
        // The stream came out as it went in, and with the replacement in
        // place of the needle: both hold the same bytes from `at` on.
        lemma_replace_sole(hay, needle, with, at);
        law_missed_occurrence_is_passed(needle, replacement, chunks, at);
        assert(hay =~= hay.take(at) + needle + after);
        assert forall|i: int| 0 <= i < with.len() implies with[i] == needle[i] by {
            assert(replaced[at + i] == with[i]);
            assert(hay[at + i] == hay.subrange(at, at + needle.len())[i]);
        }
        assert(with =~= needle);
    }
}

/// A view whose replacement is itself a view renders as the outer haystack
/// with the outer needle replaced by the text that the inner view stands
/// for: the inner replacement done first, on plain text, and the outer one
/// with its result.
pub proof fn law_nested_views_compose<'a, 'b, P: Pattern, Q: Pattern, R: Render>(
    outer: &ReplacedString<'a, P, ReplacedString<'b, Q, R>>,
    inner: &ReplacedString<'b, Q, R>,
)
    requires
        outer@.needle.len() > 0,
        inner@.needle.len() > 0,
        outer@.replacement == inner.chunks(),
    ensures
        rendered(outer) == replace_all(
            outer@.haystack,
            outer@.needle,
            replace_all(inner@.haystack, inner@.needle, inner@.replacement.flatten()),
        ),
{
    law_view_replaces_all(outer);
    law_view_replaces_all(inner);
}

/// What comes out of the filter depends on the replacement only by what it
/// renders as, end to end, and not by how that is cut into chunks.
pub proof fn law_filter_takes_replacement_as_text(
    needle: Seq<u8>,
    replacement: Seq<Seq<u8>>,
    other: Seq<Seq<u8>>,
    chunks: Seq<Seq<u8>>,
)
    requires
        replacement.flatten() == other.flatten(),
    ensures
        filtered(needle, replacement, chunks).flatten() == filtered(
            needle,
            other,
            chunks,
        ).flatten(),
{
    let idle = Seq::<u8>::empty();
    lemma_react_all_takes_text(needle, replacement, other, idle, chunks);
    lemma_react_all_holds_same(needle, replacement, other, idle, chunks);
    lemma_flatten_concat(
        react_all(needle, replacement, idle, chunks).0,
        flush(react_all(needle, replacement, idle, chunks).1),
    );
    lemma_flatten_concat(
        react_all(needle, other, idle, chunks).0,
        flush(react_all(needle, other, idle, chunks).1),
    );
}

/// A streamed view whose replacement is a view of a string renders as it
/// would with the inner replacement done first, on plain text, and its
/// result as the replacement.
pub proof fn law_nested_streamed_views_compose<'a, 'b, H: Render, Q: Pattern, R: Render>(
    outer: &ReplaceDisplay<'a, H, ReplacedString<'b, Q, R>>,
    inner: &ReplacedString<'b, Q, R>,
)
    requires
        inner@.needle.len() > 0,
        outer@.replacement == inner.chunks(),
    ensures
        rendered(outer) == filtered(
            outer@.needle,
            seq![replace_all(inner@.haystack, inner@.needle, inner@.replacement.flatten())],
            outer@.haystack,
        ).flatten(),
{
    let text = replace_all(inner@.haystack, inner@.needle, inner@.replacement.flatten());
    law_view_replaces_all(inner);
    seq![text].lemma_flatten_one_element();
    law_filter_takes_replacement_as_text(
        outer@.needle,
        outer@.replacement,
        seq![text],
        outer@.haystack,
    );
}

/// Rendering a value into a buffer, and then once more, appends the same
/// bytes both times.
pub proof fn law_render_twice_same<T: Render>(value: &T, held: Seq<u8>)
    ensures
        feed::<Vec<u8>>(held, value.chunks()) == (held + rendered(value), true),
        feed::<Vec<u8>>(held + rendered(value), value.chunks()) == (
            held + rendered(value) + rendered(value),
            true,
        ),
{
    lemma_feed_buffer(held, value.chunks());
    lemma_feed_buffer(held + rendered(value), value.chunks());
}

/// What the filter still holds back when the stream ends, a start of the
/// needle that was never completed, stands at the end of the output, as it
/// is.
pub proof fn law_unfinished_match_is_kept(
    needle: Seq<u8>,
    replacement: Seq<Seq<u8>>,
    chunks: Seq<Seq<u8>>,
)
    requires
        needle.len() > 0,
    ensures
        is_start_of(held_after(needle, Seq::empty(), chunks), needle),
        filtered(needle, replacement, chunks).flatten() == react_all(
            needle,
            replacement,
            Seq::empty(),
            chunks,
        ).0.flatten() + held_after(needle, Seq::empty(), chunks),
{
    let idle = Seq::<u8>::empty();
    let (out, held) = react_all(needle, replacement, idle, chunks);
    assert(idle =~= needle.take(0));
    lemma_react_all_holds_start(needle, replacement, idle, chunks);
    lemma_react_all_holds_same(needle, replacement, Seq::empty(), idle, chunks);
    lemma_flatten_concat(out, flush(held));
    lemma_flush_flatten(held);
}

} // verus!
