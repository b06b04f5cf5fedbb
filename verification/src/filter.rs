//! What the streaming filter does, as functions of the chunks that reach it.

use crate::text::{absent, lemma_occurs_skip, lemma_text_around, occurs_at};
use vstd::prelude::*;
use vstd::seq_lib::lemma_flatten_concat;
use vstd::utf8::{valid_utf8, valid_utf8_concat};

verus! {

/// What a held-back carry is handed on as: one chunk, or nothing if it is
/// empty.
pub open spec fn flush(carry: Seq<u8>) -> Seq<Seq<u8>> {
    if carry.len() == 0 {
        Seq::empty()
    } else {
        seq![carry]
    }
}

/// What the filter does with one chunk: the chunks that it hands on, and the
/// carry that it holds back afterwards.
///
/// `carry` is the start of the needle that earlier chunks have matched. A
/// chunk that goes on matching, and does not reach the end of the needle, is
/// held back too. A chunk that reaches the end of the needle is answered
/// with the replacement, and what is left of the chunk is taken as a chunk of
/// its own. A chunk that does not go on matching is handed on as it is, after
/// the carry, which is handed on even if it is empty. With an empty needle
/// nothing is replaced.
pub open spec fn react(
    needle: Seq<u8>,
    replacement: Seq<Seq<u8>>,
    carry: Seq<u8>,
    chunk: Seq<u8>,
) -> (Seq<Seq<u8>>, Seq<u8>)
    decreases chunk.len(),
{
    let rest = needle.skip(carry.len() as int);
    if carry.len() >= needle.len() {
        (seq![carry, chunk], Seq::empty())
    } else if chunk.len() < rest.len() {
        if chunk == rest.take(chunk.len() as int) {
            (Seq::empty(), carry + chunk)
        } else {
            (seq![carry, chunk], Seq::empty())
        }
    } else if chunk.take(rest.len() as int) == rest {
        let left = chunk.skip(rest.len() as int);
        if left.len() == 0 {
            (replacement, Seq::empty())
        } else {
            let (later, held) = react(needle, replacement, Seq::empty(), left);
            (replacement + later, held)
        }
    } else {
        (seq![carry, chunk], Seq::empty())
    }
}

/// What the filter does with a run of chunks: all that it hands on, and the
/// carry that it holds back at the end.
pub open spec fn react_all(
    needle: Seq<u8>,
    replacement: Seq<Seq<u8>>,
    carry: Seq<u8>,
    chunks: Seq<Seq<u8>>,
) -> (Seq<Seq<u8>>, Seq<u8>)
    decreases chunks.len(),
{
    if chunks.len() == 0 {
        (Seq::empty(), carry)
    } else {
        let (first, held) = react(needle, replacement, carry, chunks[0]);
        let (later, last) = react_all(needle, replacement, held, chunks.drop_first());
        (first + later, last)
    }
}

/// What comes out of a filter that starts idle, takes `chunks` and is then
/// finished: what it handed on, and at the end the carry that was never
/// completed.
pub open spec fn filtered(
    needle: Seq<u8>,
    replacement: Seq<Seq<u8>>,
    chunks: Seq<Seq<u8>>,
) -> Seq<Seq<u8>> {
    let (out, held) = react_all(needle, replacement, Seq::empty(), chunks);
    out + flush(held)
}

/// What a filter that holds back `carry` holds back after `chunks`. It does
/// not depend on the replacement.
pub open spec fn held_after(needle: Seq<u8>, carry: Seq<u8>, chunks: Seq<Seq<u8>>) -> Seq<u8> {
    react_all(needle, Seq::empty(), carry, chunks).1
}

/// A filter that holds back `carry` and takes the first `cut` of `chunks`
/// has then come `at` bytes from where the carry began, and is idle.
pub open spec fn lands_idle(
    needle: Seq<u8>,
    carry: Seq<u8>,
    chunks: Seq<Seq<u8>>,
    cut: int,
    at: int,
) -> bool {
    &&& 0 <= cut <= chunks.len()
    &&& carry.len() + chunks.take(cut).flatten().len() == at
    &&& held_after(needle, carry, chunks.take(cut)).len() == 0
}

/// `carry` is a start of `needle`, and shorter than it: what a filter may
/// hold back.
pub open spec fn is_start_of(carry: Seq<u8>, needle: Seq<u8>) -> bool {
    &&& carry.len() < needle.len()
    &&& carry == needle.take(carry.len() as int)
}

/// A flushed carry is the carry, end to end.
pub proof fn lemma_flush_flatten(carry: Seq<u8>)
    ensures
        flush(carry).flatten() == carry,
{
    if carry.len() > 0 {
        seq![carry].lemma_flatten_one_element();
    }
}

/// A carry and a chunk that are handed on as they are come out end to end.
pub proof fn lemma_passed_flatten(carry: Seq<u8>, chunk: Seq<u8>)
    ensures
        seq![carry, chunk].flatten() == carry + chunk,
{
    seq![carry].lemma_flatten_one_element();
    seq![carry].lemma_flatten_push(chunk);
    assert(seq![carry].push(chunk) =~= seq![carry, chunk]);
}

/// What the filter holds back is always a start of the needle.
pub proof fn lemma_react_holds_start(
    needle: Seq<u8>,
    replacement: Seq<Seq<u8>>,
    carry: Seq<u8>,
    chunk: Seq<u8>,
)
    requires
        is_start_of(carry, needle),
    ensures
        is_start_of(react(needle, replacement, carry, chunk).1, needle),
    decreases chunk.len(),
{
    let rest = needle.skip(carry.len() as int);
    assert(Seq::<u8>::empty() =~= needle.take(0));
    if chunk.len() < rest.len() {
        if chunk == rest.take(chunk.len() as int) {
            assert(carry + chunk =~= needle.take((carry.len() + chunk.len()) as int));
        }
    } else if chunk.take(rest.len() as int) == rest {
        let left = chunk.skip(rest.len() as int);
        if left.len() > 0 {
            lemma_react_holds_start(needle, replacement, Seq::empty(), left);
        }
    }
}

/// What the filter holds back after a run of chunks is a start of the
/// needle.
pub proof fn lemma_react_all_holds_start(
    needle: Seq<u8>,
    replacement: Seq<Seq<u8>>,
    carry: Seq<u8>,
    chunks: Seq<Seq<u8>>,
)
    requires
        is_start_of(carry, needle),
    ensures
        is_start_of(react_all(needle, replacement, carry, chunks).1, needle),
    decreases chunks.len(),
{
    if chunks.len() > 0 {
        lemma_react_holds_start(needle, replacement, carry, chunks[0]);
        lemma_react_all_holds_start(
            needle,
            replacement,
            react(needle, replacement, carry, chunks[0]).1,
            chunks.drop_first(),
        );
    }
}

/// What the filter holds back does not depend on the replacement.
pub proof fn lemma_react_holds_same(
    needle: Seq<u8>,
    replacement: Seq<Seq<u8>>,
    other: Seq<Seq<u8>>,
    carry: Seq<u8>,
    chunk: Seq<u8>,
)
    ensures
        react(needle, replacement, carry, chunk).1 == react(needle, other, carry, chunk).1,
    decreases chunk.len(),
{
    let rest = needle.skip(carry.len() as int);
    if carry.len() < needle.len() && chunk.len() >= rest.len() && chunk.take(rest.len() as int)
        == rest {
        let left = chunk.skip(rest.len() as int);
        if left.len() > 0 {
            lemma_react_holds_same(needle, replacement, other, Seq::empty(), left);
        }
    }
}

/// What the filter holds back after a run of chunks does not depend on the
/// replacement.
pub proof fn lemma_react_all_holds_same(
    needle: Seq<u8>,
    replacement: Seq<Seq<u8>>,
    other: Seq<Seq<u8>>,
    carry: Seq<u8>,
    chunks: Seq<Seq<u8>>,
)
    ensures
        react_all(needle, replacement, carry, chunks).1 == react_all(
            needle,
            other,
            carry,
            chunks,
        ).1,
    decreases chunks.len(),
{
    if chunks.len() > 0 {
        lemma_react_holds_same(needle, replacement, other, carry, chunks[0]);
        lemma_react_all_holds_same(
            needle,
            replacement,
            other,
            react(needle, replacement, carry, chunks[0]).1,
            chunks.drop_first(),
        );
    }
}

/// The filter takes a run of chunks in two parts as it takes it as a whole.
pub proof fn lemma_react_all_concat(
    needle: Seq<u8>,
    replacement: Seq<Seq<u8>>,
    carry: Seq<u8>,
    first: Seq<Seq<u8>>,
    second: Seq<Seq<u8>>,
)
    ensures
        react_all(needle, replacement, carry, first + second) == ({
            let (out, held) = react_all(needle, replacement, carry, first);
            let (later, last) = react_all(needle, replacement, held, second);
            (out + later, last)
        }),
    decreases first.len(),
{
    if first.len() == 0 {
        assert(first + second =~= second);
        assert(Seq::<Seq<u8>>::empty() + react_all(needle, replacement, carry, second).0
            =~= react_all(needle, replacement, carry, second).0);
    } else {
        let (head, held) = react(needle, replacement, carry, first[0]);
        let (out, mid) = react_all(needle, replacement, held, first.drop_first());
        let (later, last) = react_all(needle, replacement, mid, second);
        assert((first + second).drop_first() =~= first.drop_first() + second);
        lemma_react_all_concat(needle, replacement, held, first.drop_first(), second);
        assert(head + (out + later) =~= (head + out) + later);
    }
}

/// Taking one chunk first moves every later cut by one.
proof fn lemma_lands_idle_later(
    needle: Seq<u8>,
    carry: Seq<u8>,
    chunks: Seq<Seq<u8>>,
    cut: int,
    at: int,
)
    requires
        chunks.len() > 0,
        0 <= cut,
        lands_idle(
            needle,
            react(needle, Seq::empty(), carry, chunks[0]).1,
            chunks.drop_first(),
            cut,
            at,
        ),
    ensures
        lands_idle(
            needle,
            carry,
            chunks,
            cut + 1,
            at - react(needle, Seq::empty(), carry, chunks[0]).1.len() + carry.len()
                + chunks[0].len(),
        ),
{
    assert(chunks.take(cut + 1).drop_first() =~= chunks.drop_first().take(cut));
}

/// Where the needle occurs at no offset but `at`, and `at` is neither where
/// the carry began nor a cut at which the filter is idle, the filter hands
/// on or holds back every byte as it is.
pub proof fn lemma_react_all_misses(
    needle: Seq<u8>,
    replacement: Seq<Seq<u8>>,
    carry: Seq<u8>,
    chunks: Seq<Seq<u8>>,
    at: int,
)
    requires
        is_start_of(carry, needle),
        forall|other: int| occurs_at(carry + chunks.flatten(), needle, other) ==> other == at,
        at != 0,
        forall|cut: int| 1 <= cut ==> !lands_idle(needle, carry, chunks, cut, at),
    ensures
        ({
            let (out, held) = react_all(needle, replacement, carry, chunks);
            out.flatten() + held == carry + chunks.flatten()
        }),
    decreases chunks.len(),
{
    if chunks.len() > 0 {
        let whole = carry + chunks.flatten();
        let chunk = chunks[0];
        let later = chunks.drop_first();
        let rest = needle.skip(carry.len() as int);
        let (head, held) = react(needle, replacement, carry, chunk);
        let (out, last) = react_all(needle, replacement, held, later);
        lemma_flatten_concat(head, out);
        lemma_react_holds_start(needle, replacement, carry, chunk);
        lemma_passed_flatten(carry, chunk);
        if chunk.len() >= rest.len() && chunk.take(rest.len() as int) == rest {
            // The chunk would complete the needle: an occurrence where the carry began.
            assert(whole.subrange(0, needle.len() as int) =~= needle.take(carry.len() as int)
                + rest);
            assert(needle.take(carry.len() as int) + rest =~= needle);
            assert(occurs_at(whole, needle, 0));
        } else {
            // The chunk is held back with the carry, or handed on after it.
            let gone = carry.len() + chunk.len() - held.len();
            let moved = at - gone;
            assert(held + later.flatten() =~= whole.skip(gone));
            assert forall|other: int|
                occurs_at(held + later.flatten(), needle, other) implies other == moved by {
                lemma_occurs_skip(whole, needle, gone, other);
            }
            assert forall|cut: int| 1 <= cut implies !lands_idle(
                needle,
                held,
                later,
                cut,
                moved,
            ) by {
                if lands_idle(needle, held, later, cut, moved) {
                    lemma_lands_idle_later(needle, carry, chunks, cut, moved);
                }
            }
            if moved == 0 {
                let one = chunks.take(1);
                assert(one =~= seq![chunk]);
                seq![chunk].lemma_flatten_one_element();
                assert(react_all(needle, Seq::empty(), held, one.drop_first()).1 == held);
                assert(lands_idle(needle, carry, chunks, 1, at));
            }
            lemma_react_all_misses(needle, replacement, held, later, moved);
        }
    }
}

/// Where the needle is absent from the carry and the chunks together, the
/// filter hands on or holds back every byte as it is.
pub proof fn lemma_react_all_absent(
    needle: Seq<u8>,
    replacement: Seq<Seq<u8>>,
    carry: Seq<u8>,
    chunks: Seq<Seq<u8>>,
)
    requires
        is_start_of(carry, needle),
        absent(carry + chunks.flatten(), needle),
    ensures
        ({
            let (out, held) = react_all(needle, replacement, carry, chunks);
            out.flatten() + held == carry + chunks.flatten()
        }),
{
    lemma_react_all_misses(needle, replacement, carry, chunks, -1);
}

/// Where the carry and the chunks together begin with the needle, and the
/// needle is absent from what follows it, the filter answers the needle with
/// the replacement and hands on or holds back every byte after it as it is.
pub proof fn lemma_react_all_match(
    needle: Seq<u8>,
    replacement: Seq<Seq<u8>>,
    carry: Seq<u8>,
    chunks: Seq<Seq<u8>>,
)
    requires
        is_start_of(carry, needle),
        occurs_at(carry + chunks.flatten(), needle, 0),
        absent((carry + chunks.flatten()).skip(needle.len() as int), needle),
    ensures
        ({
            let (out, held) = react_all(needle, replacement, carry, chunks);
            out.flatten() + held == replacement.flatten() + (carry + chunks.flatten()).skip(
                needle.len() as int,
            )
        }),
    decreases chunks.len(),
{
    if chunks.len() > 0 {
        let whole = carry + chunks.flatten();
        let after = whole.skip(needle.len() as int);
        let chunk = chunks[0];
        let later = chunks.drop_first();
        let rest = needle.skip(carry.len() as int);
        let (head, held) = react(needle, replacement, carry, chunk);
        let (out, last) = react_all(needle, replacement, held, later);
        assert(whole =~= (carry + chunk) + later.flatten());
        assert(whole.subrange(0, needle.len() as int) == needle);
        lemma_flatten_concat(head, out);
        if chunk.len() < rest.len() {
            // The needle goes on beyond the chunk.
            assert(chunk =~= rest.take(chunk.len() as int));
            lemma_react_holds_start(needle, replacement, carry, chunk);
            lemma_react_all_match(needle, replacement, carry + chunk, later);
        } else {
            // The needle ends in the chunk; nothing after it is replaced.
            let left = chunk.skip(rest.len() as int);
            assert(chunk.take(rest.len() as int) =~= rest);
            assert(after =~= left + later.flatten());
            assert(Seq::<u8>::empty() =~= needle.take(0));
            if left.len() == 0 {
                lemma_react_all_absent(needle, replacement, Seq::empty(), later);
            } else {
                let mid = react(needle, replacement, Seq::empty(), left).0;
                let joined = seq![left] + later;
                assert(joined.drop_first() =~= later);
                lemma_flatten_concat(seq![left], later);
                seq![left].lemma_flatten_one_element();
                lemma_react_all_absent(needle, replacement, Seq::empty(), joined);
                lemma_flatten_concat(mid, out);
                lemma_flatten_concat(replacement, mid);
            }
        }
    }
}

/// A filter whose replacement renders as the needle hands on or holds back
/// every byte as it is.
pub proof fn lemma_react_same(
    needle: Seq<u8>,
    replacement: Seq<Seq<u8>>,
    carry: Seq<u8>,
    chunk: Seq<u8>,
)
    requires
        is_start_of(carry, needle),
        replacement.flatten() == needle,
    ensures
        ({
            let (out, held) = react(needle, replacement, carry, chunk);
            out.flatten() + held == carry + chunk
        }),
    decreases chunk.len(),
{
    let rest = needle.skip(carry.len() as int);
    lemma_passed_flatten(carry, chunk);
    if chunk.len() >= rest.len() && chunk.take(rest.len() as int) == rest {
        let left = chunk.skip(rest.len() as int);
        assert(needle =~= carry + chunk.take(rest.len() as int));
        assert(carry + chunk =~= needle + left);
        if left.len() > 0 {
            let later = react(needle, replacement, Seq::empty(), left).0;
            assert(Seq::<u8>::empty() =~= needle.take(0));
            lemma_react_same(needle, replacement, Seq::empty(), left);
            lemma_flatten_concat(replacement, later);
        }
    }
}

/// A filter whose replacement renders as the needle hands on or holds back
/// every byte of a run of chunks as it is.
pub proof fn lemma_react_all_same(
    needle: Seq<u8>,
    replacement: Seq<Seq<u8>>,
    carry: Seq<u8>,
    chunks: Seq<Seq<u8>>,
)
    requires
        is_start_of(carry, needle),
        replacement.flatten() == needle,
    ensures
        ({
            let (out, held) = react_all(needle, replacement, carry, chunks);
            out.flatten() + held == carry + chunks.flatten()
        }),
    decreases chunks.len(),
{
    if chunks.len() > 0 {
        let later = chunks.drop_first();
        let (head, held) = react(needle, replacement, carry, chunks[0]);
        let (out, last) = react_all(needle, replacement, held, later);
        lemma_react_same(needle, replacement, carry, chunks[0]);
        lemma_react_holds_start(needle, replacement, carry, chunks[0]);
        lemma_react_all_same(needle, replacement, held, later);
        lemma_flatten_concat(head, out);
        assert((head + out).flatten() + last =~= head.flatten() + (out.flatten() + last));
        assert(head.flatten() + (held + later.flatten()) =~= (carry + chunks[0])
            + later.flatten());
    }
}

/// What the filter hands on depends on the replacement only by what the
/// replacement renders as, end to end.
pub proof fn lemma_react_takes_text(
    needle: Seq<u8>,
    replacement: Seq<Seq<u8>>,
    other: Seq<Seq<u8>>,
    carry: Seq<u8>,
    chunk: Seq<u8>,
)
    requires
        replacement.flatten() == other.flatten(),
    ensures
        react(needle, replacement, carry, chunk).0.flatten() == react(
            needle,
            other,
            carry,
            chunk,
        ).0.flatten(),
    decreases chunk.len(),
{
    let rest = needle.skip(carry.len() as int);
    if carry.len() < needle.len() && chunk.len() >= rest.len() && chunk.take(rest.len() as int)
        == rest {
        let left = chunk.skip(rest.len() as int);
        if left.len() > 0 {
            lemma_react_takes_text(needle, replacement, other, Seq::empty(), left);
            lemma_flatten_concat(
                replacement,
                react(needle, replacement, Seq::empty(), left).0,
            );
            lemma_flatten_concat(other, react(needle, other, Seq::empty(), left).0);
        }
    }
}

/// What the filter hands on for a run of chunks depends on the replacement
/// only by what the replacement renders as, end to end.
pub proof fn lemma_react_all_takes_text(
    needle: Seq<u8>,
    replacement: Seq<Seq<u8>>,
    other: Seq<Seq<u8>>,
    carry: Seq<u8>,
    chunks: Seq<Seq<u8>>,
)
    requires
        replacement.flatten() == other.flatten(),
    ensures
        react_all(needle, replacement, carry, chunks).0.flatten() == react_all(
            needle,
            other,
            carry,
            chunks,
        ).0.flatten(),
    decreases chunks.len(),
{
    if chunks.len() > 0 {
        let held = react(needle, replacement, carry, chunks[0]).1;
        lemma_react_takes_text(needle, replacement, other, carry, chunks[0]);
        lemma_react_holds_same(needle, replacement, other, carry, chunks[0]);
        lemma_react_all_takes_text(needle, replacement, other, held, chunks.drop_first());
        lemma_flatten_concat(
            react(needle, replacement, carry, chunks[0]).0,
            react_all(needle, replacement, held, chunks.drop_first()).0,
        );
        lemma_flatten_concat(
            react(needle, other, carry, chunks[0]).0,
            react_all(needle, other, held, chunks.drop_first()).0,
        );
    }
}

/// With an empty needle the filter hands on every chunk as it is.
pub proof fn lemma_react_all_without_needle(replacement: Seq<Seq<u8>>, chunks: Seq<Seq<u8>>)
    ensures
        ({
            let (out, held) = react_all(Seq::empty(), replacement, Seq::empty(), chunks);
            out.flatten() == chunks.flatten() && held.len() == 0
        }),
    decreases chunks.len(),
{
    let idle = Seq::<u8>::empty();
    if chunks.len() > 0 {
        let head = react(idle, replacement, idle, chunks[0]).0;
        let out = react_all(idle, replacement, idle, chunks.drop_first()).0;
        lemma_passed_flatten(idle, chunks[0]);
        lemma_react_all_without_needle(replacement, chunks.drop_first());
        lemma_flatten_concat(head, out);
    }
}

/// Where the stream is well-formed UTF-8 as a whole, and so are the needle
/// and the replacement, it is still well-formed after the filter has taken
/// one more chunk of it.
pub proof fn lemma_react_keeps_text(
    needle: Seq<u8>,
    replacement: Seq<Seq<u8>>,
    front: Seq<u8>,
    carry: Seq<u8>,
    chunk: Seq<u8>,
    back: Seq<u8>,
)
    requires
        is_start_of(carry, needle),
        valid_utf8(needle),
        valid_utf8(replacement.flatten()),
        valid_utf8(front + carry + chunk + back),
    ensures
        ({
            let (out, held) = react(needle, replacement, carry, chunk);
            valid_utf8(front + out.flatten() + held + back)
        }),
    decreases chunk.len(),
{
    let rest = needle.skip(carry.len() as int);
    let (out, held) = react(needle, replacement, carry, chunk);
    let whole = front + carry + chunk + back;
    lemma_passed_flatten(carry, chunk);
    if chunk.len() >= rest.len() && chunk.take(rest.len() as int) == rest {
        // The needle ends in the chunk: it stands between well-formed parts.
        let left = chunk.skip(rest.len() as int);
        let with = replacement.flatten();
        assert(needle =~= carry + chunk.take(rest.len() as int));
        assert(whole.subrange(front.len() as int, (front.len() + needle.len()) as int) =~= needle);
        lemma_text_around(whole, needle, front.len() as int);
        assert(whole.take(front.len() as int) =~= front);
        assert(whole.skip((front.len() + needle.len()) as int) =~= left + back);
        valid_utf8_concat(front, with);
        valid_utf8_concat(front + with, left + back);
        if left.len() == 0 {
            assert(front + out.flatten() + held + back =~= (front + with) + (left + back));
        } else {
            let (later, kept) = react(needle, replacement, Seq::empty(), left);
            assert(Seq::<u8>::empty() =~= needle.take(0));
            assert((front + with) + Seq::<u8>::empty() + left + back =~= (front + with) + (left
                + back));
            lemma_react_keeps_text(needle, replacement, front + with, Seq::empty(), left, back);
            lemma_flatten_concat(replacement, later);
            assert(front + out.flatten() + held + back =~= (front + with) + later.flatten() + kept
                + back);
        }
    } else {
        // Every byte is handed on or held back as it is.
        assert(front + out.flatten() + held + back =~= whole);
    }
}

/// Where the stream is well-formed UTF-8 as a whole, and so are the needle
/// and the replacement, it is still well-formed after the filter has taken
/// a run of chunks of it.
pub proof fn lemma_react_all_keeps_text(
    needle: Seq<u8>,
    replacement: Seq<Seq<u8>>,
    front: Seq<u8>,
    carry: Seq<u8>,
    chunks: Seq<Seq<u8>>,
)
    requires
        is_start_of(carry, needle),
        valid_utf8(needle),
        valid_utf8(replacement.flatten()),
        valid_utf8(front + carry + chunks.flatten()),
    ensures
        ({
            let (out, held) = react_all(needle, replacement, carry, chunks);
            valid_utf8(front + out.flatten() + held)
        }),
    decreases chunks.len(),
{
    if chunks.len() > 0 {
        let later = chunks.drop_first();
        let (head, held) = react(needle, replacement, carry, chunks[0]);
        let (out, last) = react_all(needle, replacement, held, later);
        assert(front + carry + chunks[0] + later.flatten() =~= front + carry + chunks.flatten());
        lemma_react_keeps_text(needle, replacement, front, carry, chunks[0], later.flatten());
        lemma_react_holds_start(needle, replacement, carry, chunks[0]);
        lemma_react_all_keeps_text(needle, replacement, front + head.flatten(), held, later);
        lemma_flatten_concat(head, out);
        assert(front + (head + out).flatten() + last =~= (front + head.flatten()) + out.flatten()
            + last);
    }
}

/// What comes out of the filter is well-formed UTF-8 where what went in is,
/// and the needle and the replacement are.
pub proof fn lemma_filtered_keeps_text(
    needle: Seq<u8>,
    replacement: Seq<Seq<u8>>,
    chunks: Seq<Seq<u8>>,
)
    requires
        valid_utf8(needle),
        valid_utf8(replacement.flatten()),
        valid_utf8(chunks.flatten()),
    ensures
        valid_utf8(filtered(needle, replacement, chunks).flatten()),
{
    let idle = Seq::<u8>::empty();
    let (out, held) = react_all(needle, replacement, idle, chunks);
    lemma_flatten_concat(out, flush(held));
    lemma_flush_flatten(held);
    if needle.len() == 0 {
        assert(needle =~= idle);
        lemma_react_all_without_needle(replacement, chunks);
    } else {
        assert(idle =~= needle.take(0));
        lemma_react_all_keeps_text(needle, replacement, idle, idle, chunks);
    }
}

} // verus!
