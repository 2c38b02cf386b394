//! What leaves, positions and cursors are, in terms of the leaves' texts alone.

use vstd::prelude::*;
use vstd::utf8::{
    decode_utf8, encode_utf8, encode_utf8_valid_utf8, is_char_boundary,
    is_char_boundary_start_end_of_seq, valid_utf8,
};

use crate::rope::{
    bytes_of, cut, evenly_cut, full, holds, kept_leaves, leaf_at, leaf_end, leaves_ok,
    lemma_cut_end, lemma_cut_order, lemma_leaf_at, text_of, CursorView,
};
use crate::text::{
    char_at, chars_from, lemma_chars_from_step, lemma_encode_concat, lemma_next_boundary, width_at,
};

verus! {

/// The text of a rope is that of its leaves, one behind the other.
pub proof fn text_is_the_leaves_in_order(leaves: Seq<Seq<char>>)
    ensures
        text_of(leaves) == leaves.flatten(),
        bytes_of(leaves) == encode_utf8(leaves.flatten()),
    decreases leaves.len(),
{
    if leaves.len() > 0 {
        text_is_the_leaves_in_order(leaves.drop_last());
        leaves.drop_last().lemma_flatten_push(leaves.last());
        assert(leaves.drop_last().push(leaves.last()) =~= leaves);
    }
}

/// A leaf starts behind the encodings of all leaves before it.
pub proof fn leaf_starts_behind_those_before(leaves: Seq<Seq<char>>, i: int)
    requires
        0 <= i <= leaves.len(),
    ensures
        cut(leaves, i) == encode_utf8(leaves.take(i).flatten()).len(),
    decreases i,
{
    if i > 0 {
        leaf_starts_behind_those_before(leaves, i - 1);
        leaves.take(i - 1).lemma_flatten_push(leaves[i - 1]);
        assert(leaves.take(i - 1).push(leaves[i - 1]) =~= leaves.take(i));
        lemma_encode_concat(leaves.take(i - 1).flatten(), leaves[i - 1]);
    } else {
        assert(leaves.take(i) =~= Seq::empty());
        assert(leaves.take(i).flatten() =~= Seq::empty());
    }
}

/// A position belongs to the leaf that starts at or before it and ends behind it. The end
/// of the text belongs to the last leaf.
pub proof fn leaf_holds_its_positions(leaves: Seq<Seq<char>>, i: int, pos: int)
    requires
        leaves_ok(leaves),
        0 <= i < leaves.len(),
        encode_utf8(leaves.take(i).flatten()).len() <= pos,
        pos < encode_utf8(leaves.take(i + 1).flatten()).len() || (i + 1 == leaves.len() && pos
            == encode_utf8(leaves.flatten()).len()),
    ensures
        leaf_at(leaves, pos) == i,
        cut(leaves, leaf_at(leaves, pos)) == encode_utf8(leaves.take(i).flatten()).len(),
        leaf_end(leaves, pos) == encode_utf8(leaves.take(i + 1).flatten()).len(),
{
    leaf_starts_behind_those_before(leaves, i);
    leaf_starts_behind_those_before(leaves, i + 1);
    text_is_the_leaves_in_order(leaves);
    lemma_cut_end(leaves);
    assert(holds(leaves, i, pos));
    lemma_leaf_at(leaves, i, pos);
}

/// What ropes are made of: at least one leaf, none of them empty where there are several,
/// and no more bytes than can be counted.
pub proof fn ropes_have_no_needless_leaves(leaves: Seq<Seq<char>>)
    ensures
        leaves_ok(leaves) <==> {
            &&& leaves.len() >= 1
            &&& leaves.len() > 1 ==> forall|i: int|
                0 <= i < leaves.len() ==> #[trigger] leaves[i].len() > 0
            &&& encode_utf8(leaves.flatten()).len() <= usize::MAX
        },
{
    text_is_the_leaves_in_order(leaves);
}

/// The leaves kept are those with text in them, in their order, and a single empty one if
/// there is no text at all.
pub proof fn kept_leaves_hold_text(leaves: Seq<Seq<char>>)
    ensures
        leaves.filter(|l: Seq<char>| l.len() > 0).len() > 0 ==> kept_leaves(leaves)
            == leaves.filter(|l: Seq<char>| l.len() > 0),
        leaves.filter(|l: Seq<char>| l.len() > 0).len() == 0 ==> kept_leaves(leaves)
            == seq![Seq::<char>::empty()],
{
}

/// A text is cut into leaves of at most 1024 bytes, of which only the last may be more than
/// one character short of that.
pub proof fn long_texts_fill_their_leaves(leaves: Seq<Seq<char>>, i: int)
    requires
        evenly_cut(leaves),
        0 <= i < leaves.len(),
    ensures
        encode_utf8(leaves[i]).len() <= 1024,
        i + 1 < leaves.len() ==> encode_utf8(leaves[i]).len() + encode_utf8(
            seq![leaves[i + 1][0]],
        ).len() > 1024,
{
    if i + 1 < leaves.len() {
        assert(full(leaves, i));
        lemma_encode_concat(leaves[i], seq![leaves[i + 1][0]]);
        assert(leaves[i] + seq![leaves[i + 1][0]] =~= leaves[i].push(leaves[i + 1][0]));
    }
}

/// A cursor's bytes are the encoding of the leaves, it is on a boundary where a character
/// starts or the text ends, and it lies in its rope, at the end once it is off the leaves.
pub proof fn cursor_lies_in_its_rope(v: CursorView)
    ensures
        v.bytes() == encode_utf8(v.leaves.flatten()),
        v.on_boundary() <==> is_char_boundary(encode_utf8(v.leaves.flatten()), v.pos),
        v.ok() <==> {
            &&& leaves_ok(v.leaves)
            &&& 0 <= v.pos <= encode_utf8(v.leaves.flatten()).len()
            &&& v.valid || v.pos == encode_utf8(v.leaves.flatten()).len()
        },
{
    text_is_the_leaves_in_order(v.leaves);
}

/// A cursor put somewhere is there, and one that has run off the end is at the end. Both
/// stay in their rope.
pub proof fn moves_change_only_the_position(v: CursorView, p: int)
    ensures
        v.moved_to(p) == (CursorView { leaves: v.leaves, pos: p, valid: true }),
        v.exhausted() == (CursorView {
            leaves: v.leaves,
            pos: encode_utf8(v.leaves.flatten()).len() as int,
            valid: false,
        }),
{
    text_is_the_leaves_in_order(v.leaves);
}

/// The next leaf is the one that starts where this one ends. Behind the last one a cursor
/// runs off the end.
pub proof fn next_leaf_starts_where_this_one_ends(v: CursorView, i: int)
    requires
        v.ok(),
        v.valid,
        0 <= i < v.leaves.len(),
        encode_utf8(v.leaves.take(i).flatten()).len() <= v.pos,
        v.pos < encode_utf8(v.leaves.take(i + 1).flatten()).len() || (i + 1 == v.leaves.len()
            && v.pos == encode_utf8(v.leaves.flatten()).len()),
    ensures
        v.past_leaf() == (CursorView {
            leaves: v.leaves,
            pos: encode_utf8(v.leaves.take(i + 1).flatten()).len() as int,
            valid: i + 1 < v.leaves.len(),
        }),
{
    let n = v.leaves.len() as int;
    leaf_holds_its_positions(v.leaves, i, v.pos);
    leaf_starts_behind_those_before(v.leaves, i + 1);
    text_is_the_leaves_in_order(v.leaves);
    lemma_cut_end(v.leaves);
    if i + 1 < n {
        lemma_cut_order(v.leaves, i + 1, n);
    } else {
        assert(v.leaves.take(n) =~= v.leaves);
    }
}

/// The next character starts at the first boundary behind the cursor. At the end of the
/// text a cursor runs off the end.
pub proof fn next_character_starts_at_the_next_boundary(v: CursorView)
    requires
        v.ok(),
        v.valid,
        is_char_boundary(encode_utf8(v.leaves.flatten()), v.pos),
    ensures
        v.past_char().leaves == v.leaves,
        v.past_char().valid <==> v.pos < encode_utf8(v.leaves.flatten()).len(),
        v.past_char().pos <= encode_utf8(v.leaves.flatten()).len(),
        is_char_boundary(encode_utf8(v.leaves.flatten()), v.past_char().pos),
        v.past_char().valid ==> v.pos < v.past_char().pos,
        !v.past_char().valid ==> v.past_char().pos == encode_utf8(v.leaves.flatten()).len(),
        forall|p: int|
            v.pos < p < v.past_char().pos ==> !#[trigger] is_char_boundary(
                encode_utf8(v.leaves.flatten()),
                p,
            ),
{
    text_is_the_leaves_in_order(v.leaves);
    encode_utf8_valid_utf8(text_of(v.leaves));
    is_char_boundary_start_end_of_seq(v.bytes());
    if v.pos < v.bytes().len() {
        lemma_next_boundary(v.bytes(), v.pos);
    }
}

/// The character that starts at a boundary is the first of those from there on, and takes
/// as many bytes as its encoding has.
pub proof fn character_at_a_boundary(bytes: Seq<u8>, p: int)
    requires
        valid_utf8(bytes),
        0 <= p < bytes.len(),
        is_char_boundary(bytes, p),
    ensures
        decode_utf8(bytes.subrange(p, bytes.len() as int)).len() > 0,
        char_at(bytes, p) == decode_utf8(bytes.subrange(p, bytes.len() as int))[0],
        width_at(bytes, p) == encode_utf8(
            seq![decode_utf8(bytes.subrange(p, bytes.len() as int))[0]],
        ).len(),
        chars_from(bytes, p) == decode_utf8(bytes.subrange(p, bytes.len() as int)),
{
    lemma_chars_from_step(bytes, p);
}

} // verus!
