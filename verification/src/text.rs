//! Byte positions in UTF-8 text.
//!
//! Positions count bytes. This module relates a position to the character that
//! starts there, on top of vstd's definition of the encoding.

use vstd::prelude::*;
use vstd::utf8::{
    decode_first_scalar, decode_utf8, decode_utf8_first_scalar, encode_scalar, encode_utf8,
    is_char_boundary, is_char_boundary_iff_not_is_continuation_byte,
    is_char_boundary_start_end_of_seq, is_continuation_byte, length_of_first_scalar,
    pop_first_scalar, take_first_scalar, valid_first_scalar, valid_utf8, valid_utf8_split,
};

verus! {

/// The bytes from position `p` to the end.
pub open spec fn tail(bytes: Seq<u8>, p: int) -> Seq<u8> {
    bytes.subrange(p, bytes.len() as int)
}

/// The characters from position `p` to the end.
pub open spec fn chars_from(bytes: Seq<u8>, p: int) -> Seq<char> {
    decode_utf8(tail(bytes, p))
}

/// The character that starts at position `p`.
pub open spec fn char_at(bytes: Seq<u8>, p: int) -> char {
    decode_first_scalar(tail(bytes, p)) as char
}

/// The number of bytes that the character at position `p` takes.
pub open spec fn width_at(bytes: Seq<u8>, p: int) -> int {
    length_of_first_scalar(tail(bytes, p))
}

/// Encoding goes character by character: the encoding of a concatenation is the
/// concatenation of the encodings.
pub proof fn lemma_encode_concat(a: Seq<char>, b: Seq<char>)
    ensures
        encode_utf8(a + b) == encode_utf8(a) + encode_utf8(b),
    decreases a.len(),
{
    if a.len() == 0 {
        assert(a + b =~= b);
    } else {
        assert((a + b).drop_first() =~= a.drop_first() + b);
        lemma_encode_concat(a.drop_first(), b);
    }
}

/// Nonempty text has nonempty encoding.
pub proof fn lemma_encode_len(a: Seq<char>)
    ensures
        encode_utf8(a).len() >= a.len(),
    decreases a.len(),
{
    if a.len() > 0 {
        lemma_encode_len(a.drop_first());
    }
}

/// A position behind the boundary `p` is a boundary of the whole exactly if it is
/// one of the tail at `p`.
pub proof fn lemma_boundary_in_tail(bytes: Seq<u8>, p: int, j: int)
    requires
        valid_utf8(bytes),
        is_char_boundary(bytes, p),
        0 <= p <= bytes.len(),
        0 <= j <= bytes.len() - p,
    ensures
        valid_utf8(tail(bytes, p)),
        is_char_boundary(bytes, p + j) <==> is_char_boundary(tail(bytes, p), j),
{
    valid_utf8_split(bytes, p);
    let t = tail(bytes, p);
    assert(valid_utf8(t));
    if p + j == bytes.len() {
        is_char_boundary_start_end_of_seq(bytes);
        is_char_boundary_start_end_of_seq(t);
    } else {
        is_char_boundary_iff_not_is_continuation_byte(bytes, p + j);
        is_char_boundary_iff_not_is_continuation_byte(t, j);
        assert(t[j] == bytes[p + j]);
    }
}

/// In a stretch between two boundaries the boundaries are those of the whole, and at
/// each of them stands the same character.
pub proof fn lemma_boundary_in_stretch(bytes: Seq<u8>, p: int, end: int, j: int)
    requires
        valid_utf8(bytes),
        0 <= p <= end <= bytes.len(),
        is_char_boundary(bytes, p),
        is_char_boundary(bytes, end),
        0 <= j <= end - p,
    ensures
        valid_utf8(bytes.subrange(p, end)),
        is_char_boundary(bytes, p + j) <==> is_char_boundary(bytes.subrange(p, end), j),
        is_char_boundary(bytes, p + j) && p + j < end ==> char_at(bytes, p + j) == char_at(
            bytes.subrange(p, end),
            j,
        ),
{
    let front = bytes.subrange(0, end);
    let s = bytes.subrange(p, end);
    valid_utf8_split(bytes, end);
    assert(valid_utf8(front));
    if p < end {
        is_char_boundary_iff_not_is_continuation_byte(bytes, p);
        is_char_boundary_iff_not_is_continuation_byte(front, p);
        assert(front[p] == bytes[p]);
    } else {
        is_char_boundary_start_end_of_seq(front);
    }
    assert(s =~= tail(front, p));
    lemma_boundary_in_tail(front, p, j);
    if p + j < end {
        is_char_boundary_iff_not_is_continuation_byte(bytes, p + j);
        is_char_boundary_iff_not_is_continuation_byte(front, p + j);
        assert(front[p + j] == bytes[p + j]);
        if is_char_boundary(bytes, p + j) {
            lemma_boundary_in_tail(s, j, 0);
            assert(tail(s, j) =~= tail(bytes, p + j).subrange(0, end - p - j));
            lemma_same_first_char(tail(s, j), tail(bytes, p + j));
        }
    } else {
        is_char_boundary_start_end_of_seq(front);
    }
}

/// The boundary behind the character at the boundary `p`: where it lies, and that
/// none lies before it.
pub proof fn lemma_next_boundary(bytes: Seq<u8>, p: int)
    requires
        valid_utf8(bytes),
        is_char_boundary(bytes, p),
        0 <= p < bytes.len(),
    ensures
        valid_utf8(tail(bytes, p)),
        valid_first_scalar(tail(bytes, p)),
        1 <= width_at(bytes, p) <= 4,
        p + width_at(bytes, p) <= bytes.len(),
        is_char_boundary(bytes, p + width_at(bytes, p)),
        forall|m: int|
            p < m < p + width_at(bytes, p) ==> !#[trigger] is_char_boundary(bytes, m),
{
    lemma_boundary_in_tail(bytes, p, 0);
    let t = tail(bytes, p);
    let w = width_at(bytes, p);
    reveal_with_fuel(is_char_boundary, 2);
    assert(is_char_boundary(t, w));
    lemma_boundary_in_tail(bytes, p, w);
    assert forall|m: int| p < m < p + w implies !#[trigger] is_char_boundary(bytes, m) by {
        is_char_boundary_iff_not_is_continuation_byte(bytes, m);
        assert(t[m - p] == bytes[m]);
        assert(is_continuation_byte(bytes[m]));
    }
}

/// The characters from a boundary on are the character there and those behind it.
pub proof fn lemma_chars_from_step(bytes: Seq<u8>, p: int)
    requires
        valid_utf8(bytes),
        is_char_boundary(bytes, p),
        0 <= p < bytes.len(),
    ensures
        chars_from(bytes, p) == seq![char_at(bytes, p)] + chars_from(
            bytes,
            p + width_at(bytes, p),
        ),
        encode_scalar(char_at(bytes, p) as u32).len() == width_at(bytes, p),
        encode_utf8(seq![char_at(bytes, p)]) == encode_scalar(char_at(bytes, p) as u32),
        encode_utf8(seq![char_at(bytes, p)]).len() == width_at(bytes, p),
{
    lemma_next_boundary(bytes, p);
    let t = tail(bytes, p);
    assert(pop_first_scalar(t) =~= tail(bytes, p + width_at(bytes, p)));
    decode_utf8_first_scalar(t);
    assert(take_first_scalar(t).len() == width_at(bytes, p));
    let one = seq![char_at(bytes, p)];
    assert(one.drop_first() =~= Seq::<char>::empty());
    assert(encode_utf8(one.drop_first()) =~= Seq::<u8>::empty());
    assert(encode_utf8(one) =~= encode_scalar(char_at(bytes, p) as u32));
}

/// What two texts share at the front, the first being nonempty, includes their first
/// character.
pub proof fn lemma_same_first_char(a: Seq<u8>, b: Seq<u8>)
    requires
        valid_utf8(a),
        a.len() > 0,
        a.is_prefix_of(b),
    ensures
        decode_first_scalar(a) == decode_first_scalar(b),
        length_of_first_scalar(a) == length_of_first_scalar(b),
        length_of_first_scalar(a) <= a.len(),
{
    assert forall|i: int| 0 <= i < a.len() implies a[i] == b[i] by {
        assert(a[i] == b.subrange(0, a.len() as int)[i]);
    }
}

/// The last boundary at or before position `k`.
pub proof fn lemma_boundary_below(bytes: Seq<u8>, p: int, k: int) -> (q: int)
    requires
        valid_utf8(bytes),
        0 <= p <= k < bytes.len(),
        is_char_boundary(bytes, p),
    ensures
        p <= q <= k < q + width_at(bytes, q) <= q + 4,
        is_char_boundary(bytes, q),
    decreases bytes.len() - p,
{
    lemma_next_boundary(bytes, p);
    if k < p + width_at(bytes, p) {
        p
    } else {
        lemma_boundary_below(bytes, p + width_at(bytes, p), k)
    }
}

/// The width of a character, from the first byte of its encoding.
pub fn lead_width(byte: u8) -> (n: usize)
    requires
        !is_continuation_byte(byte),
    ensures
        forall|s: Seq<u8>| s.len() > 0 && s[0] == byte ==> n == #[trigger] length_of_first_scalar(s),
{
    if byte < 0x80 {
        1
    } else if byte < 0xe0 {
        2
    } else if byte < 0xf0 {
        3
    } else {
        4
    }
}

} // verus!
