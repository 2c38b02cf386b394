//! Ropes as a list of leaves, and cursors into them.

use vstd::prelude::*;
use vstd::utf8::{
    decode_utf8_split, encode_utf8, encode_utf8_decode_utf8, encode_utf8_valid_utf8,
    is_char_boundary, is_char_boundary_iff_not_is_continuation_byte,
    is_char_boundary_start_end_of_seq, valid_utf8,
};

use crate::text::{
    char_at, lead_width, lemma_boundary_below, lemma_chars_from_step, lemma_encode_concat,
    lemma_encode_len, lemma_next_boundary, lemma_same_first_char, tail, width_at,
};

verus! {

/// The text that a list of leaves holds.
pub open spec fn text_of(leaves: Seq<Seq<char>>) -> Seq<char>
    decreases leaves.len(),
{
    if leaves.len() == 0 {
        Seq::empty()
    } else {
        text_of(leaves.drop_last()) + leaves.last()
    }
}

/// The UTF-8 encoding of the text that a list of leaves holds.
pub open spec fn bytes_of(leaves: Seq<Seq<char>>) -> Seq<u8> {
    encode_utf8(text_of(leaves))
}

/// The position at which leaf `i` starts, in bytes. That of the end is
/// `cut(leaves, leaves.len())`.
pub open spec fn cut(leaves: Seq<Seq<char>>, i: int) -> int
    decreases i,
{
    if i <= 0 {
        0
    } else {
        cut(leaves, i - 1) + encode_utf8(leaves[i - 1]).len()
    }
}

/// Whether position `pos` belongs to leaf `i`. A position between two leaves belongs
/// to the later one, and the end of the text to the last one.
pub open spec fn holds(leaves: Seq<Seq<char>>, i: int, pos: int) -> bool {
    &&& 0 <= i < leaves.len()
    &&& cut(leaves, i) <= pos
    &&& pos < cut(leaves, i + 1) || (i == leaves.len() - 1 && pos == cut(leaves, i + 1))
}

/// The leaf to which position `pos` belongs.
pub open spec fn leaf_at(leaves: Seq<Seq<char>>, pos: int) -> int {
    choose|i: int| holds(leaves, i, pos)
}

/// The position at which the leaf that holds `pos` ends.
pub open spec fn leaf_end(leaves: Seq<Seq<char>>, pos: int) -> int {
    cut(leaves, leaf_at(leaves, pos) + 1)
}

/// What every rope's leaves obey: there is at least one, none is empty unless it is
/// the only one, and a `usize` can count all bytes.
pub open spec fn leaves_ok(leaves: Seq<Seq<char>>) -> bool {
    &&& leaves.len() >= 1
    &&& leaves.len() == 1 || forall|i: int| 0 <= i < leaves.len() ==> #[trigger] leaves[i].len() > 0
    &&& bytes_of(leaves).len() <= usize::MAX
}

proof fn lemma_cut_prefix(a: Seq<Seq<char>>, b: Seq<Seq<char>>, i: int)
    requires
        i <= a.len(),
        i <= b.len(),
        forall|j: int| 0 <= j < i ==> a[j] == b[j],
    ensures
        cut(a, i) == cut(b, i),
    decreases i,
{
    if i > 0 {
        lemma_cut_prefix(a, b, i - 1);
    }
}

/// Leaf starts do not decrease, and increase across nonempty leaves.
pub proof fn lemma_cut_order(leaves: Seq<Seq<char>>, i: int, j: int)
    requires
        0 <= i <= j <= leaves.len(),
    ensures
        0 <= cut(leaves, i) <= cut(leaves, j),
        leaves_ok(leaves) && leaves.len() > 1 && i < j ==> cut(leaves, i) < cut(leaves, j),
    decreases j,
{
    if j > 0 {
        if i < j {
            lemma_cut_order(leaves, i, j - 1);
            lemma_encode_len(leaves[j - 1]);
        } else {
            lemma_cut_order(leaves, i - 1, j - 1);
        }
    }
}

/// The bytes of the whole text end where the last leaf ends.
pub proof fn lemma_cut_end(leaves: Seq<Seq<char>>)
    ensures
        cut(leaves, leaves.len() as int) == bytes_of(leaves).len(),
    decreases leaves.len(),
{
    if leaves.len() > 0 {
        let front = leaves.drop_last();
        lemma_cut_end(front);
        lemma_cut_prefix(front, leaves, front.len() as int);
        lemma_encode_concat(text_of(front), leaves.last());
    }
}

/// Each leaf's encoding is a stretch of the encoding of the whole text.
pub proof fn lemma_leaf_bytes(leaves: Seq<Seq<char>>, i: int)
    requires
        0 <= i < leaves.len(),
    ensures
        0 <= cut(leaves, i) <= cut(leaves, i + 1) <= bytes_of(leaves).len(),
        bytes_of(leaves).subrange(cut(leaves, i), cut(leaves, i + 1)) == encode_utf8(leaves[i]),
    decreases leaves.len(),
{
    let front = leaves.drop_last();
    lemma_cut_order(leaves, 0, i);
    lemma_cut_order(leaves, i + 1, leaves.len() as int);
    lemma_cut_end(leaves);
    lemma_cut_end(front);
    lemma_encode_concat(text_of(front), leaves.last());
    lemma_cut_prefix(front, leaves, front.len() as int);
    if i < front.len() {
        lemma_leaf_bytes(front, i);
        lemma_cut_prefix(front, leaves, i);
        lemma_cut_prefix(front, leaves, i + 1);
        assert(bytes_of(leaves).subrange(cut(leaves, i), cut(leaves, i + 1))
            =~= bytes_of(front).subrange(cut(leaves, i), cut(leaves, i + 1)));
    } else {
        assert(bytes_of(leaves).subrange(cut(leaves, i), cut(leaves, i + 1)) =~= encode_utf8(
            leaves[i],
        ));
    }
}

/// Every position belongs to one leaf only.
pub proof fn lemma_leaf_at(leaves: Seq<Seq<char>>, i: int, pos: int)
    requires
        leaves_ok(leaves),
        holds(leaves, i, pos),
    ensures
        leaf_at(leaves, pos) == i,
        leaf_end(leaves, pos) == cut(leaves, i + 1),
{
    let k = leaf_at(leaves, pos);
    assert(holds(leaves, k, pos));
    if k < i {
        lemma_cut_order(leaves, k + 1, i);
        lemma_cut_order(leaves, i, leaves.len() as int);
    } else if i < k {
        lemma_cut_order(leaves, i + 1, k);
        lemma_cut_order(leaves, k, leaves.len() as int);
    }
}

/// Every position of the text belongs to a leaf.
pub proof fn lemma_some_leaf(leaves: Seq<Seq<char>>, pos: int)
    requires
        leaves_ok(leaves),
        0 <= pos <= bytes_of(leaves).len(),
    ensures
        holds(leaves, leaf_at(leaves, pos), pos),
{
    lemma_cut_end(leaves);
    lemma_some_leaf_from(leaves, 0, pos);
}

proof fn lemma_some_leaf_from(leaves: Seq<Seq<char>>, i: int, pos: int)
    requires
        0 <= i < leaves.len(),
        cut(leaves, i) <= pos <= cut(leaves, leaves.len() as int),
    ensures
        exists|k: int| holds(leaves, k, pos),
    decreases leaves.len() - i,
{
    if pos < cut(leaves, i + 1) || i == leaves.len() - 1 {
        assert(holds(leaves, i, pos));
    } else {
        lemma_some_leaf_from(leaves, i + 1, pos);
    }
}

/// Where leaves meet there is a character boundary.
pub proof fn lemma_cut_boundary(leaves: Seq<Seq<char>>, i: int)
    requires
        leaves_ok(leaves),
        0 <= i <= leaves.len(),
    ensures
        valid_utf8(bytes_of(leaves)),
        0 <= cut(leaves, i) <= bytes_of(leaves).len(),
        is_char_boundary(bytes_of(leaves), cut(leaves, i)),
{
    let b = bytes_of(leaves);
    encode_utf8_valid_utf8(text_of(leaves));
    is_char_boundary_start_end_of_seq(b);
    lemma_cut_end(leaves);
    lemma_cut_order(leaves, 0, i);
    lemma_cut_order(leaves, i, leaves.len() as int);
    if 0 < i < leaves.len() {
        let l = encode_utf8(leaves[i]);
        lemma_leaf_bytes(leaves, i);
        lemma_encode_len(leaves[i]);
        encode_utf8_valid_utf8(leaves[i]);
        is_char_boundary_start_end_of_seq(l);
        is_char_boundary_iff_not_is_continuation_byte(l, 0);
        is_char_boundary_iff_not_is_continuation_byte(b, cut(leaves, i));
        assert(l[0] == b[cut(leaves, i)]);
    }
}

/// What a leaf shows of the text: its bytes are those around position `pos`, and it
/// has the same character boundaries.
pub proof fn lemma_leaf_view(leaves: Seq<Seq<char>>, pos: int)
    requires
        leaves_ok(leaves),
        0 <= pos <= bytes_of(leaves).len(),
    ensures
        ({
            let b = bytes_of(leaves);
            let i = leaf_at(leaves, pos);
            let start = cut(leaves, i);
            let end = leaf_end(leaves, pos);
            let l = encode_utf8(leaves[i]);
            &&& holds(leaves, i, pos)
            &&& valid_utf8(b)
            &&& valid_utf8(l)
            &&& 0 <= start <= pos <= end <= b.len()
            &&& pos == end ==> end == b.len()
            &&& l == b.subrange(start, end)
            &&& l.len() == end - start
            &&& is_char_boundary(b, start)
            &&& is_char_boundary(b, end)
            &&& is_char_boundary(l, pos - start) <==> is_char_boundary(b, pos)
        }),
{
    let b = bytes_of(leaves);
    lemma_some_leaf(leaves, pos);
    let i = leaf_at(leaves, pos);
    let start = cut(leaves, i);
    let end = leaf_end(leaves, pos);
    let l = encode_utf8(leaves[i]);
    lemma_leaf_bytes(leaves, i);
    lemma_cut_end(leaves);
    lemma_cut_boundary(leaves, i);
    lemma_cut_boundary(leaves, i + 1);
    encode_utf8_valid_utf8(leaves[i]);
    if pos == end {
        is_char_boundary_start_end_of_seq(l);
    } else {
        is_char_boundary_iff_not_is_continuation_byte(l, pos - start);
        is_char_boundary_iff_not_is_continuation_byte(b, pos);
        assert(l[pos - start] == b[pos]);
    }
}

/// The position at which a leaf ends is the start of the next one.
pub proof fn lemma_leaf_start(leaves: Seq<Seq<char>>, pos: int)
    requires
        leaves_ok(leaves),
        0 <= pos <= bytes_of(leaves).len(),
        leaf_end(leaves, pos) < bytes_of(leaves).len(),
    ensures
        cut(leaves, leaf_at(leaves, leaf_end(leaves, pos))) == leaf_end(leaves, pos),
{
    lemma_some_leaf(leaves, pos);
    lemma_cut_end(leaves);
    let i = leaf_at(leaves, pos);
    lemma_cut_order(leaves, i + 1, i + 2);
    lemma_leaf_at(leaves, i + 1, cut(leaves, i + 1));
}

/// The most bytes that `Rope::from` puts into a leaf.
pub const MAX_LEAF: usize = 1024;

/// The leaves of a rope made from the given ones: those that are not empty, or a
/// single empty one where all are.
pub open spec fn kept_leaves(leaves: Seq<Seq<char>>) -> Seq<Seq<char>> {
    let kept = leaves.filter(|l: Seq<char>| l.len() > 0);
    if kept.len() == 0 {
        seq![Seq::empty()]
    } else {
        kept
    }
}

/// Whether no leaf is longer than `MAX_LEAF` bytes, and none could take the first
/// character of the next one without becoming so.
pub open spec fn evenly_cut(leaves: Seq<Seq<char>>) -> bool {
    &&& forall|i: int| 0 <= i < leaves.len() ==> encode_utf8(#[trigger] leaves[i]).len() <= MAX_LEAF
    &&& forall|i: int| 0 <= i < leaves.len() - 1 ==> #[trigger] full(leaves, i)
}

/// Whether leaf `i` would be longer than `MAX_LEAF` bytes with the first character of
/// the next leaf.
pub open spec fn full(leaves: Seq<Seq<char>>, i: int) -> bool {
    encode_utf8(leaves[i].push(leaves[i + 1][0])).len() > MAX_LEAF
}

proof fn lemma_kept_all(leaves: Seq<Seq<char>>)
    requires
        leaves.len() > 0,
        leaves.len() == 1 || forall|i: int| 0 <= i < leaves.len() ==> #[trigger] leaves[i].len() > 0,
    ensures
        kept_leaves(leaves) == leaves,
{
    if leaves.len() == 1 && leaves[0].len() == 0 {
        reveal(Seq::filter);
        let front = leaves.drop_last();
        assert(front =~= Seq::empty());
        assert(front.filter(|l: Seq<char>| l.len() > 0) =~= Seq::empty());
        assert(leaves[0] =~= Seq::empty());
        assert(leaves =~= seq![Seq::empty()]);
    } else {
        lemma_filter_all(leaves);
    }
}

proof fn lemma_filter_all(leaves: Seq<Seq<char>>)
    requires
        forall|i: int| 0 <= i < leaves.len() ==> #[trigger] leaves[i].len() > 0,
    ensures
        leaves.filter(|l: Seq<char>| l.len() > 0) == leaves,
    decreases leaves.len(),
{
    reveal(Seq::filter);
    if leaves.len() > 0 {
        let front = leaves.drop_last();
        assert forall|i: int| 0 <= i < front.len() implies #[trigger] front[i].len() > 0 by {
            assert(front[i] == leaves[i]);
        }
        lemma_filter_all(front);
        assert(front.push(leaves.last()) =~= leaves);
    }
}

proof fn lemma_prefix_len(leaves: Seq<Seq<char>>, i: int)
    requires
        0 <= i <= leaves.len(),
    ensures
        bytes_of(leaves.take(i)).len() <= bytes_of(leaves).len(),
{
    lemma_cut_end(leaves);
    lemma_cut_end(leaves.take(i));
    lemma_cut_prefix(leaves, leaves.take(i), i);
    lemma_cut_order(leaves, i, leaves.len() as int);
}

/// A character does not reach over the end of its leaf.
pub proof fn lemma_step_in_leaf(leaves: Seq<Seq<char>>, pos: int)
    requires
        leaves_ok(leaves),
        0 <= pos < bytes_of(leaves).len(),
        is_char_boundary(bytes_of(leaves), pos),
    ensures
        pos + width_at(bytes_of(leaves), pos) <= leaf_end(leaves, pos),
{
    let b = bytes_of(leaves);
    lemma_leaf_view(leaves, pos);
    lemma_next_boundary(b, pos);
    let end = leaf_end(leaves, pos);
    if end < pos + width_at(b, pos) {
        assert(!is_char_boundary(b, end));
    }
}

/// A position in a rope, as contracts speak of it.
pub struct CursorView {
    /// The leaves of the rope.
    pub leaves: Seq<Seq<char>>,
    /// The position in bytes.
    pub pos: int,
    /// Whether the cursor is on a leaf. It is not once it has run off the end.
    pub valid: bool,
}

impl CursorView {
    /// The UTF-8 encoding of the whole rope.
    pub open spec fn bytes(self) -> Seq<u8> {
        bytes_of(self.leaves)
    }

    /// What holds of every cursor: the position lies in the rope, and a cursor that is
    /// not on a leaf is at the end.
    pub open spec fn ok(self) -> bool {
        &&& leaves_ok(self.leaves)
        &&& 0 <= self.pos <= self.bytes().len()
        &&& !self.valid ==> self.pos == self.bytes().len()
    }

    /// Whether a character starts at the cursor, or the text ends there.
    pub open spec fn on_boundary(self) -> bool {
        is_char_boundary(self.bytes(), self.pos)
    }

    /// The cursor put on position `pos`.
    pub open spec fn moved_to(self, pos: int) -> CursorView {
        CursorView { leaves: self.leaves, pos, valid: true }
    }

    /// The cursor run off the end.
    pub open spec fn exhausted(self) -> CursorView {
        CursorView { leaves: self.leaves, pos: self.bytes().len() as int, valid: false }
    }

    /// The cursor at the start of the leaf behind its own.
    pub open spec fn past_leaf(self) -> CursorView {
        let end = leaf_end(self.leaves, self.pos);
        if !self.valid || end == self.bytes().len() {
            self.exhausted()
        } else {
            self.moved_to(end)
        }
    }

    /// The cursor behind the character that it is on.
    pub open spec fn past_char(self) -> CursorView {
        if !self.valid || self.pos == self.bytes().len() {
            self.exhausted()
        } else {
            self.moved_to(self.pos + width_at(self.bytes(), self.pos))
        }
    }
}

/// A rope: text held in leaves.
pub struct Rope {
    leaves: Vec<String>,
    cuts: Vec<usize>,
}

impl View for Rope {
    type V = Seq<Seq<char>>;

    closed spec fn view(&self) -> Seq<Seq<char>> {
        self.leaves@.map_values(|s: String| s@)
    }
}

impl Rope {
    /// The leaves obey `leaves_ok` and the recorded leaf starts are right.
    pub open spec fn wf(&self) -> bool {
        &&& leaves_ok(self@)
        &&& self.indexed()
    }

    /// The recorded leaf starts are right.
    pub closed spec fn indexed(&self) -> bool {
        &&& self.cuts@.len() == self.leaves@.len() + 1
        &&& forall|i: int| 0 <= i < self.cuts@.len() ==> #[trigger] self.cuts@[i] == cut(self@, i)
    }

    /// The rope with the given leaves. Empty ones are left out.
    pub fn from_leaves(leaves: Vec<String>) -> (rope: Rope)
        requires
            bytes_of(leaves@.map_values(|s: String| s@)).len() <= usize::MAX,
        ensures
            rope.wf(),
            rope@ == kept_leaves(leaves@.map_values(|s: String| s@)),
            text_of(rope@) == text_of(leaves@.map_values(|s: String| s@)),
    {
        let ghost all = leaves@.map_values(|s: String| s@);
        let mut kept: Vec<String> = Vec::new();
        let mut cuts: Vec<usize> = Vec::new();
        cuts.push(0);
        let mut total: usize = 0;
        let mut i: usize = 0;
        let ghost mut seen: Seq<Seq<char>> = Seq::empty();
        assert(all.take(0) =~= Seq::empty());
        assert(kept@.map_values(|s: String| s@) =~= Seq::empty());
        while i < leaves.len()
            invariant
                i <= leaves.len(),
                all == leaves@.map_values(|s: String| s@),
                bytes_of(all).len() <= usize::MAX,
                seen == kept@.map_values(|s: String| s@),
                seen == all.take(i as int).filter(|l: Seq<char>| l.len() > 0),
                forall|j: int| 0 <= j < seen.len() ==> #[trigger] seen[j].len() > 0,
                text_of(seen) == text_of(all.take(i as int)),
                cuts@.len() == kept@.len() + 1,
                forall|j: int| 0 <= j < cuts@.len() ==> #[trigger] cuts@[j] == cut(seen, j),
                total == bytes_of(seen).len(),
            decreases leaves.len() - i,
        {
            let leaf = leaves[i].clone();
            proof {
                let next = all.take(i + 1);
                assert(next.drop_last() =~= all.take(i as int));
                assert(next.last() == leaf@);
                reveal(Seq::filter);
                lemma_encode_concat(text_of(all.take(i as int)), leaf@);
                lemma_prefix_len(all, i + 1);
            }
            if leaf.as_str().is_empty() {
                assert(text_of(seen) + leaf@ =~= text_of(seen));
            } else {
                let n: usize = leaf.as_str().as_bytes().len();
                let ghost grown = seen.push(leaf@);
                proof {
                    assert(grown.drop_last() =~= seen);
                    assert forall|j: int| 0 <= j <= seen.len() implies #[trigger] cut(seen, j)
                        == cut(grown, j) by {
                        lemma_cut_prefix(seen, grown, j);
                    }
                    lemma_cut_end(seen);
                    lemma_cut_end(grown);
                }
                total = total + n;
                cuts.push(total);
                kept.push(leaf);
                proof {
                    seen = grown;
                    assert(kept@.map_values(|s: String| s@) =~= seen);
                }
            }
            i = i + 1;
        }
        assert(all.take(i as int) =~= all);
        if kept.len() == 0 {
            kept.push(String::new());
            cuts.push(0);
            proof {
                let one = seq![Seq::<char>::empty()];
                assert(kept@.map_values(|s: String| s@) =~= one);
                assert(one.drop_last() =~= Seq::empty());
                reveal_with_fuel(text_of, 2);
                reveal_with_fuel(cut, 3);
                assert(text_of(one) =~= Seq::empty());
            }
        }
        Rope { leaves: kept, cuts }
    }

    /// The rope with the given text, cut into leaves of at most `MAX_LEAF` bytes, each as
    /// long as that and the character boundaries allow.
    pub fn from(text: &str) -> (rope: Rope)
        ensures
            rope.wf(),
            text_of(rope@) == text@,
            evenly_cut(rope@),
    {
        let mut leaves: Vec<String> = Vec::new();
        let mut rest: &str = text;
        let ghost mut done: Seq<Seq<char>> = Seq::empty();
        let _ = text.as_bytes().len();
        proof {
            assert(leaves@.map_values(|s: String| s@) =~= done);
            assert(Seq::<char>::empty() + rest@ =~= text@);
        }
        while rest.as_bytes().len() > MAX_LEAF
            invariant
                encode_utf8(text@).len() <= usize::MAX,
                done == leaves@.map_values(|s: String| s@),
                text_of(done) + rest@ == text@,
                done.len() > 0 ==> rest@.len() > 0,
                forall|i: int| 0 <= i < done.len() ==> #[trigger] done[i].len() > 0 && encode_utf8(
                    done[i],
                ).len() <= MAX_LEAF,
                forall|i: int| 0 <= i < done.len() ==> #[trigger] full(done.push(rest@), i),
            decreases encode_utf8(rest@).len(),
        {
            let ghost b = encode_utf8(rest@);
            let mut k: usize = MAX_LEAF;
            proof {
                encode_utf8_valid_utf8(rest@);
                is_char_boundary_start_end_of_seq(b);
            }
            let ghost q = lemma_boundary_below(b, 0, MAX_LEAF as int);
            while !rest.is_char_boundary(k)
                invariant
                    b == encode_utf8(rest@),
                    valid_utf8(b),
                    q <= k <= MAX_LEAF < b.len(),
                    is_char_boundary(b, q),
                    MAX_LEAF < q + width_at(b, q) <= q + 4,
                decreases k,
            {
                k = k - 1;
            }
            proof {
                lemma_next_boundary(b, q);
                assert(k == q);
            }
            let (head, tail_part) = rest.split_at(k);
            proof {
                encode_utf8_valid_utf8(head@);
                encode_utf8_decode_utf8(head@);
                encode_utf8_decode_utf8(tail_part@);
                encode_utf8_decode_utf8(rest@);
                decode_utf8_split(b, k as int);
                lemma_encode_concat(head@, seq![tail_part@[0]]);
                lemma_chars_from_step(b, k as int);
                assert(head@ + seq![tail_part@[0]] =~= head@.push(tail_part@[0]));
                assert(rest@ =~= head@ + tail_part@);
                assert(tail_part@[0] == char_at(b, k as int));
                let grown = done.push(head@);
                assert(grown.drop_last() =~= done);
                assert(text_of(grown) + tail_part@ =~= text_of(done) + rest@);
                assert forall|i: int| 0 <= i < grown.len() implies #[trigger] full(
                    grown.push(tail_part@),
                    i,
                ) by {
                    if i < done.len() {
                        assert(full(done.push(rest@), i));
                        assert(rest@[0] == head@[0]);
                    }
                }
            }
            leaves.push(head.to_owned());
            rest = tail_part;
            proof {
                done = done.push(head@);
                assert(leaves@.map_values(|s: String| s@) =~= done);
            }
        }
        leaves.push(rest.to_owned());
        proof {
            let grown = done.push(rest@);
            assert(grown.drop_last() =~= done);
            assert(leaves@.map_values(|s: String| s@) =~= grown);
            assert(text_of(grown) =~= text@);
            lemma_kept_all(grown);
        }
        Rope::from_leaves(leaves)
    }

    /// The length of the text in bytes.
    pub fn len(&self) -> (n: usize)
        requires
            self.wf(),
        ensures
            n == bytes_of(self@).len(),
    {
        proof {
            lemma_cut_end(self@);
        }
        self.cuts[self.leaves.len()]
    }
}

/// A position in a rope, together with the leaf that holds it.
///
/// A cursor is valid when created or after `set`, and becomes invalid when it runs
/// off the end of the rope.
pub struct Cursor<'a> {
    rope: &'a Rope,
    position: usize,
    leaf: Option<usize>,
}

impl<'a> View for Cursor<'a> {
    type V = CursorView;

    closed spec fn view(&self) -> CursorView {
        CursorView { leaves: self.rope@, pos: self.position as int, valid: self.leaf is Some }
    }
}

impl<'a> Cursor<'a> {
    /// The cursor lies in its rope and knows the leaf that it is on.
    pub open spec fn wf(&self) -> bool {
        &&& self@.ok()
        &&& self.linked()
    }

    /// The rope is well formed, and the recorded leaf is the one that holds the
    /// position.
    pub closed spec fn linked(&self) -> bool {
        &&& self.rope.wf()
        &&& self.leaf matches Some(i) ==> holds(self.rope@, i as int, self.position as int)
    }

    /// A cursor at the given position.
    pub fn new(rope: &'a Rope, position: usize) -> (c: Cursor<'a>)
        requires
            rope.wf(),
            position <= bytes_of(rope@).len(),
        ensures
            c.wf(),
            c@ == (CursorView { leaves: rope@, pos: position as int, valid: true }),
            position == 0 ==> c@.on_boundary(),
    {
        proof {
            encode_utf8_valid_utf8(text_of(rope@));
        }
        let i = Self::descend(rope, position);
        Cursor { rope, position, leaf: Some(i) }
    }

    /// The leaf that holds a position.
    fn descend(rope: &'a Rope, position: usize) -> (i: usize)
        requires
            rope.wf(),
            position <= bytes_of(rope@).len(),
        ensures
            holds(rope@, i as int, position as int),
    {
        let mut i: usize = 0;
        proof {
            lemma_cut_end(rope@);
        }
        while i + 1 < rope.leaves.len() && rope.cuts[i + 1] <= position
            invariant
                rope.wf(),
                i < rope.leaves.len(),
                cut(rope@, i as int) <= position,
            decreases rope.leaves.len() - i,
        {
            i = i + 1;
        }
        i
    }

    /// The position of the cursor.
    pub fn pos(&self) -> (p: usize)
        ensures
            p == self@.pos,
    {
        self.position
    }

    /// The length of the rope in bytes.
    pub fn total_len(&self) -> (n: usize)
        requires
            self.wf(),
        ensures
            n == self@.bytes().len(),
    {
        self.rope.len()
    }

    /// Puts the cursor on a position. The cursor is valid afterwards.
    pub fn set(&mut self, position: usize)
        requires
            old(self).wf(),
            position <= old(self)@.bytes().len(),
        ensures
            final(self).wf(),
            final(self)@ == old(self)@.moved_to(position as int),
            position == 0 ==> final(self)@.on_boundary(),
    {
        proof {
            encode_utf8_valid_utf8(text_of(self.rope@));
        }
        if let Some(i) = self.leaf {
            assert(i + 1 < self.rope.cuts.len());
            if self.rope.cuts[i] <= position && position < self.rope.cuts[i + 1] {
                self.position = position;
                return ;
            }
        }
        let i = Self::descend(self.rope, position);
        self.position = position;
        self.leaf = Some(i);
    }

    /// Whether a character starts at the cursor, or the text ends there.
    pub fn is_boundary(&self) -> (r: bool)
        requires
            self.wf(),
        ensures
            r == self@.on_boundary(),
    {
        proof {
            lemma_leaf_view(self.rope@, self.position as int);
            is_char_boundary_start_end_of_seq(self@.bytes());
        }
        match self.leaf {
            Some(i) => {
                proof {
                    lemma_leaf_at(self.rope@, i as int, self.position as int);
                }
                self.rope.leaves[i].as_str().is_char_boundary(self.position - self.rope.cuts[i])
            },
            None => true,
        }
    }

    /// The leaf that the cursor is on and the offset of the cursor in it, if the cursor
    /// is valid. The offset is the length of the leaf only at the end of the rope.
    pub fn get_leaf(&self) -> (r: Option<(&'a String, usize)>)
        requires
            self.wf(),
        ensures
            r is Some <==> self@.valid,
            r matches Some((leaf, offset)) ==> {
                let i = leaf_at(self@.leaves, self@.pos);
                &&& leaf@ == self@.leaves[i]
                &&& offset == self@.pos - cut(self@.leaves, i)
            },
    {
        match self.leaf {
            Some(i) => {
                proof {
                    lemma_leaf_at(self.rope@, i as int, self.position as int);
                }
                Some((&self.rope.leaves[i], self.position - self.rope.cuts[i]))
            },
            None => None,
        }
    }

    /// Moves to the start of the next leaf, and returns what `get_leaf` then returns.
    pub fn next_leaf(&mut self) -> (r: Option<(&'a String, usize)>)
        requires
            old(self).wf(),
        ensures
            final(self).wf(),
            final(self)@ == old(self)@.past_leaf(),
            r is Some <==> final(self)@.valid,
            r matches Some((leaf, offset)) ==> {
                let i = leaf_at(final(self)@.leaves, final(self)@.pos);
                &&& leaf@ == final(self)@.leaves[i]
                &&& offset == 0
            },
    {
        let n: usize = self.rope.leaves.len();
        match self.leaf {
            Some(i) => {
                proof {
                    lemma_leaf_at(self.rope@, i as int, self.position as int);
                    lemma_cut_end(self.rope@);
                    lemma_cut_order(self.rope@, i + 1, n as int);
                    if i + 1 < n {
                        lemma_cut_order(self.rope@, i + 1, i + 2);
                    }
                }
                self.position = self.rope.cuts[i + 1];
                if i + 1 < n {
                    self.leaf = Some(i + 1);
                } else {
                    self.leaf = None;
                }
            },
            None => {},
        }
        proof {
            if self.leaf is Some {
                lemma_leaf_at(self.rope@, self.leaf->0 as int, self.position as int);
            }
        }
        self.get_leaf()
    }

    /// Moves to the next character boundary and returns its position. At the end of the
    /// rope there is none, and the cursor becomes invalid.
    pub fn next(&mut self) -> (r: Option<usize>)
        requires
            old(self).wf(),
            old(self)@.on_boundary(),
        ensures
            final(self).wf(),
            final(self)@ == old(self)@.past_char(),
            final(self)@.on_boundary(),
            r == (if final(self)@.valid {
                Some(final(self)@.pos as usize)
            } else {
                None
            }),
    {
        let ghost leaves = self.rope@;
        let ghost b = bytes_of(leaves);
        let n: usize = self.rope.leaves.len();
        proof {
            lemma_leaf_view(leaves, self.position as int);
            is_char_boundary_start_end_of_seq(b);
        }
        if let Some(i) = self.leaf {
            let ghost pos = self.position as int;
            let leaf = self.rope.leaves[i].as_str().as_bytes();
            let offset = self.position - self.rope.cuts[i];
            proof {
                lemma_leaf_at(leaves, i as int, pos);
            }
            if offset < leaf.len() {
                proof {
                    lemma_next_boundary(b, pos);
                    assert(leaf@[offset as int] == tail(b, pos)[0]);
                    lemma_leaf_view(leaves, pos + width_at(b, pos));
                    lemma_step_in_leaf(leaves, pos);
                }
                let end = self.position + lead_width(leaf[offset]);
                self.position = end;
                if end == self.rope.cuts[i + 1] && i + 1 < n {
                    proof {
                        lemma_cut_order(leaves, i + 1, i + 2);
                    }
                    self.leaf = Some(i + 1);
                }
                return Some(end);
            }
        }
        self.leaf = None;
        None
    }

    /// The character that the cursor is on, if any. Moves the cursor behind it.
    pub fn next_codepoint(&mut self) -> (r: Option<char>)
        requires
            old(self).wf(),
            old(self)@.on_boundary(),
        ensures
            final(self).wf(),
            final(self)@ == old(self)@.past_char(),
            final(self)@.on_boundary(),
            r == (if final(self)@.valid {
                Some(char_at(old(self)@.bytes(), old(self)@.pos))
            } else {
                None
            }),
    {
        let ghost v = self@;
        match self.get_leaf() {
            Some((leaf, offset)) => {
                proof {
                    lemma_leaf_view(v.leaves, v.pos);
                }
                let _ = self.next();
                let rest = leaf.as_str().split_at(offset).1;
                proof {
                    let t = encode_utf8(rest@);
                    assert(t == v.bytes().subrange(v.pos, leaf_end(v.leaves, v.pos)));
                    encode_utf8_decode_utf8(rest@);
                    encode_utf8_valid_utf8(rest@);
                    if t.len() > 0 {
                        assert(t =~= tail(v.bytes(), v.pos).subrange(0, t.len() as int));
                        lemma_same_first_char(t, tail(v.bytes(), v.pos));
                    }
                }
                rest.chars().next()
            },
            None => None,
        }
    }
}

} // verus!
