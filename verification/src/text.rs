//! Byte strings: where a needle occurs, and what replacing it means.

use vstd::prelude::*;
use vstd::seq_lib::lemma_flatten_concat;
use vstd::utf8::{
    is_char_boundary, is_char_boundary_iff_not_is_continuation_byte,
    partial_valid_partial_invalid_utf8, valid_utf8, valid_utf8_concat, valid_utf8_split,
};

verus! {

/// `needle` stands in `hay` at offset `at`.
pub open spec fn occurs_at(hay: Seq<u8>, needle: Seq<u8>, at: int) -> bool {
    &&& 0 <= at
    &&& at + needle.len() <= hay.len()
    &&& hay.subrange(at, at + needle.len()) == needle
}

/// `needle` occurs nowhere in `hay`.
pub open spec fn absent(hay: Seq<u8>, needle: Seq<u8>) -> bool {
    forall|at: int| !occurs_at(hay, needle, at)
}

/// `hay` with every occurrence of `needle` replaced by `with`, found from the
/// left and without overlap. An empty needle replaces nothing.
pub open spec fn replace_all(hay: Seq<u8>, needle: Seq<u8>, with: Seq<u8>) -> Seq<u8>
    decreases hay.len(),
{
    if needle.len() == 0 || hay.len() == 0 {
        hay
    } else if occurs_at(hay, needle, 0) {
        with + replace_all(hay.skip(needle.len() as int), needle, with)
    } else {
        seq![hay[0]] + replace_all(hay.skip(1), needle, with)
    }
}

/// The offset of the first occurrence of `needle` in `hay` at or after
/// `from`, or the length of `hay` when there is none.
pub open spec fn next_match(hay: Seq<u8>, needle: Seq<u8>, from: int) -> int
    decreases hay.len() - from,
{
    if from >= hay.len() {
        hay.len() as int
    } else if occurs_at(hay, needle, from) {
        from
    } else {
        next_match(hay, needle, from + 1)
    }
}

/// From `from` up to `next_match`, no occurrence starts; at `next_match`, if
/// it lies inside the haystack, one does.
pub proof fn lemma_next_match(hay: Seq<u8>, needle: Seq<u8>, from: int)
    requires
        0 <= from <= hay.len(),
    ensures
        from <= next_match(hay, needle, from) <= hay.len(),
        next_match(hay, needle, from) < hay.len() ==> occurs_at(
            hay,
            needle,
            next_match(hay, needle, from),
        ),
        forall|at: int| from <= at < next_match(hay, needle, from) ==> !occurs_at(hay, needle, at),
    decreases hay.len() - from,
{
    if from < hay.len() && !occurs_at(hay, needle, from) {
        lemma_next_match(hay, needle, from + 1);
    }
}

/// An offset at or after `from` that has an occurrence, and none before it
/// since `from`, is `next_match`.
pub proof fn lemma_next_match_is(hay: Seq<u8>, needle: Seq<u8>, from: int, at: int)
    requires
        0 <= from <= at,
        needle.len() > 0,
        occurs_at(hay, needle, at),
        forall|before: int| from <= before < at ==> !occurs_at(hay, needle, before),
    ensures
        next_match(hay, needle, from) == at,
    decreases at - from,
{
    if from < at {
        lemma_next_match_is(hay, needle, from + 1, at);
    }
}

/// Where no occurrence starts at or after `from`, `next_match` is the end of
/// the haystack.
pub proof fn lemma_next_match_none(hay: Seq<u8>, needle: Seq<u8>, from: int)
    requires
        0 <= from <= hay.len(),
        forall|at: int| from <= at ==> !occurs_at(hay, needle, at),
    ensures
        next_match(hay, needle, from) == hay.len(),
    decreases hay.len() - from,
{
    if from < hay.len() {
        lemma_next_match_none(hay, needle, from + 1);
    }
}

/// The chunks that a walk over `hay` from offset `from` hands on: each span
/// up to the next occurrence of `needle` as one chunk, and the chunks of
/// `replacement` in place of each occurrence.
pub open spec fn walk(
    hay: Seq<u8>,
    needle: Seq<u8>,
    replacement: Seq<Seq<u8>>,
    from: int,
) -> Seq<Seq<u8>>
    decreases hay.len() - from,
{
    if needle.len() == 0 || from < 0 || from >= hay.len() {
        Seq::empty()
    } else {
        proof {
            lemma_next_match(hay, needle, from);
        }
        let to = next_match(hay, needle, from);
        if to == from {
            replacement + walk(hay, needle, replacement, from + needle.len())
        } else {
            seq![hay.subrange(from, to)] + walk(hay, needle, replacement, to)
        }
    }
}

/// Shifting a haystack shifts its occurrences.
pub proof fn lemma_occurs_skip(hay: Seq<u8>, needle: Seq<u8>, cut: int, at: int)
    requires
        0 <= cut <= hay.len(),
        0 <= at,
    ensures
        occurs_at(hay.skip(cut), needle, at) == occurs_at(hay, needle, cut + at),
{
    if at + needle.len() <= hay.len() - cut {
        assert(hay.skip(cut).subrange(at, at + needle.len()) =~= hay.subrange(
            cut + at,
            cut + at + needle.len(),
        ));
    }
}

/// Where the needle is absent, replacing it changes nothing.
pub proof fn lemma_replace_absent(hay: Seq<u8>, needle: Seq<u8>, with: Seq<u8>)
    requires
        absent(hay, needle),
    ensures
        replace_all(hay, needle, with) == hay,
    decreases hay.len(),
{
    if needle.len() > 0 && hay.len() > 0 {
        assert forall|at: int| !occurs_at(hay.skip(1), needle, at) by {
            if 0 <= at {
                lemma_occurs_skip(hay, needle, 1, at);
            }
        }
        lemma_replace_absent(hay.skip(1), needle, with);
    }
}

/// Replacing the needle by itself changes nothing.
pub proof fn lemma_replace_same(hay: Seq<u8>, needle: Seq<u8>)
    ensures
        replace_all(hay, needle, needle) == hay,
    decreases hay.len(),
{
    if needle.len() > 0 && hay.len() > 0 {
        if occurs_at(hay, needle, 0) {
            lemma_replace_same(hay.skip(needle.len() as int), needle);
        } else {
            lemma_replace_same(hay.skip(1), needle);
        }
    }
}

/// Where no occurrence starts before `upto`, the replaced text begins with
/// the first `upto` bytes as they are.
pub proof fn lemma_replace_skips(hay: Seq<u8>, needle: Seq<u8>, with: Seq<u8>, upto: int)
    requires
        needle.len() > 0,
        0 <= upto <= hay.len(),
        forall|at: int| 0 <= at < upto ==> !occurs_at(hay, needle, at),
    ensures
        replace_all(hay, needle, with) == hay.take(upto) + replace_all(
            hay.skip(upto),
            needle,
            with,
        ),
    decreases upto,
{
    if upto == 0 {
        assert(hay.skip(0) =~= hay);
    } else {
        assert forall|at: int| 0 <= at < upto - 1 implies !occurs_at(hay.skip(1), needle, at) by {
            lemma_occurs_skip(hay, needle, 1, at);
        }
        lemma_replace_skips(hay.skip(1), needle, with, upto - 1);
        assert(hay.skip(1).skip(upto - 1) =~= hay.skip(upto));
    }
}

/// A haystack with one occurrence of the needle and no other is replaced by
/// what stands before the occurrence, the replacement, and what stands after.
pub proof fn lemma_replace_sole(hay: Seq<u8>, needle: Seq<u8>, with: Seq<u8>, at: int)
    requires
        needle.len() > 0,
        occurs_at(hay, needle, at),
        forall|other: int| occurs_at(hay, needle, other) ==> other == at,
    ensures
        replace_all(hay, needle, with) == hay.take(at) + with + hay.skip(at + needle.len()),
{
    let after = hay.skip(at + needle.len());
    lemma_replace_skips(hay, needle, with, at);
    lemma_occurs_skip(hay, needle, at, 0);
    assert(hay.skip(at).skip(needle.len() as int) =~= after);
    assert forall|other: int| !occurs_at(after, needle, other) by {
        if 0 <= other {
            lemma_occurs_skip(hay, needle, at + needle.len(), other);
        }
    }
    lemma_replace_absent(after, needle, with);
}

/// A walk hands on, end to end, the rest of the haystack with the needle
/// replaced by what the replacement renders as.
pub proof fn lemma_walk_replaces(
    hay: Seq<u8>,
    needle: Seq<u8>,
    replacement: Seq<Seq<u8>>,
    from: int,
)
    requires
        needle.len() > 0,
        0 <= from <= hay.len(),
    ensures
        walk(hay, needle, replacement, from).flatten() == replace_all(
            hay.skip(from),
            needle,
            replacement.flatten(),
        ),
    decreases hay.len() - from,
{
    let rest = hay.skip(from);
    let with = replacement.flatten();
    if from < hay.len() {
        lemma_next_match(hay, needle, from);
        let to = next_match(hay, needle, from);
        if to == from {
            let after = walk(hay, needle, replacement, from + needle.len());
            lemma_occurs_skip(hay, needle, from, 0);
            lemma_walk_replaces(hay, needle, replacement, from + needle.len());
            assert(rest.skip(needle.len() as int) =~= hay.skip(from + needle.len()));
            lemma_flatten_concat(replacement, after);
        } else {
            let after = walk(hay, needle, replacement, to);
            assert forall|at: int| 0 <= at < to - from implies !occurs_at(rest, needle, at) by {
                lemma_occurs_skip(hay, needle, from, at);
            }
            lemma_replace_skips(rest, needle, with, to - from);
            lemma_walk_replaces(hay, needle, replacement, to);
            assert(rest.skip(to - from) =~= hay.skip(to));
            lemma_flatten_concat(seq![hay.subrange(from, to)], after);
            seq![hay.subrange(from, to)].lemma_flatten_one_element();
        }
    }
}

/// What follows well-formed UTF-8 in well-formed UTF-8 is well-formed too.
pub proof fn lemma_text_after(front: Seq<u8>, back: Seq<u8>)
    requires
        valid_utf8(front + back),
        valid_utf8(front),
    ensures
        valid_utf8(back),
{
    let whole = front + back;
    assert(whole.subrange(0, front.len() as int) =~= front);
    assert(whole.subrange(front.len() as int, whole.len() as int) =~= back);
    if !valid_utf8(back) {
        partial_valid_partial_invalid_utf8(whole, front.len() as int);
    }
}

/// An occurrence of a well-formed needle in well-formed UTF-8 stands between
/// two well-formed parts.
pub proof fn lemma_text_around(hay: Seq<u8>, needle: Seq<u8>, at: int)
    requires
        valid_utf8(hay),
        valid_utf8(needle),
        needle.len() > 0,
        occurs_at(hay, needle, at),
    ensures
        valid_utf8(hay.take(at)),
        valid_utf8(hay.skip(at + needle.len())),
{
    // The needle begins with the first byte of a character, so it begins
    // at the first byte of one in the haystack.
    assert(is_char_boundary(needle, 0));
    is_char_boundary_iff_not_is_continuation_byte(needle, 0);
    assert(hay[at] == hay.subrange(at, at + needle.len())[0]);
    is_char_boundary_iff_not_is_continuation_byte(hay, at);
    valid_utf8_split(hay, at);
    assert(hay.subrange(at, hay.len() as int) =~= needle + hay.skip(at + needle.len()));
    lemma_text_after(needle, hay.skip(at + needle.len()));
}

/// Replacing a well-formed needle by well-formed UTF-8 in well-formed UTF-8
/// leaves it well-formed.
pub proof fn lemma_replace_keeps_text(hay: Seq<u8>, needle: Seq<u8>, with: Seq<u8>)
    requires
        valid_utf8(hay),
        valid_utf8(needle),
        valid_utf8(with),
    ensures
        valid_utf8(replace_all(hay, needle, with)),
    decreases hay.len(),
{
    if needle.len() > 0 && hay.len() > 0 {
        lemma_next_match(hay, needle, 0);
        let to = next_match(hay, needle, 0);
        lemma_replace_skips(hay, needle, with, to);
        if to < hay.len() {
            let rest = hay.skip(to);
            let after = hay.skip(to + needle.len());
            lemma_text_around(hay, needle, to);
            lemma_occurs_skip(hay, needle, to, 0);
            assert(rest.skip(needle.len() as int) =~= after);
            lemma_replace_keeps_text(after, needle, with);
            valid_utf8_concat(with, replace_all(after, needle, with));
            valid_utf8_concat(hay.take(to), replace_all(rest, needle, with));
        } else {
            assert(hay.take(to) =~= hay);
        }
    }
}

} // verus!
