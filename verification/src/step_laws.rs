//! How much a search does in how many steps.

use vstd::prelude::*;
use vstd::utf8::{
    decode_utf8, decode_utf8_encode_utf8, encode_utf8, is_char_boundary,
    is_char_boundary_iff_not_is_continuation_byte, valid_utf8,
};

use crate::leaf_laws::{
    leaf_holds_its_positions, leaf_starts_behind_those_before,
    next_character_starts_at_the_next_boundary, next_leaf_starts_where_this_one_ends,
    text_is_the_leaves_in_order,
};
use crate::lowercase::{is_lower_form, is_lower_mapping, unicode_lower, unicode_lowercase};
use crate::regex_search::is_multiline;
use crate::rope::{
    cut, leaf_at, leaf_end, lemma_cut_end, lemma_cut_order, lemma_leaf_at, lemma_leaf_view,
    lemma_step_in_leaf, CursorView,
};
use crate::scan::Scanner;
use crate::search::{
    lemma_candidate, lemma_finds_one, lemma_finds_some, lemma_first_byte, lemma_first_lead,
    lemma_match_bounds, lemma_step, lemma_stops_in_stretch, query, CaseMatching, FindResult, Query,
};
use crate::text::{lemma_boundary_in_stretch, lemma_chars_from_step, lemma_next_boundary};

verus! {

/// A scan finds the first place at which it stops, and nothing only if there is none. One
/// for any place finds the front.
pub proof fn scan_finds_the_first_place(scanner: Scanner, bytes: Seq<u8>, p: int)
    ensures
        scanner is Anywhere ==> (scanner.finds(bytes, p) <==> p == 0),
        !(scanner is Anywhere) ==> (scanner.finds(bytes, p) <==> {
            &&& 0 <= p < bytes.len()
            &&& scanner.stops_at(bytes, p)
            &&& forall|j: int| 0 <= j < p ==> !#[trigger] scanner.stops_at(bytes, j)
        }),
        0 <= p < bytes.len() && scanner.stops_at(bytes, p) ==> exists|i: int|
            i <= p && scanner.finds(bytes, i),
{
    if 0 <= p < bytes.len() && scanner.stops_at(bytes, p) {
        lemma_finds_some(scanner, bytes, p);
        let i = choose|i: int| scanner.finds(bytes, i);
        if p < i {
            assert(!scanner.stops_at(bytes, p));
        }
    }
}

/// A scan for bytes stops at those bytes.
pub proof fn byte_scan_stops_at_its_bytes(a: u8, b: u8, c: u8, bytes: Seq<u8>, p: int)
    ensures
        Scanner::Byte(a).stops_at(bytes, p) <==> bytes[p] == a,
        Scanner::Byte2(a, b).stops_at(bytes, p) <==> bytes[p] == a || bytes[p] == b,
        Scanner::Byte3(a, b, c).stops_at(bytes, p) <==> bytes[p] == a || bytes[p] == b || bytes[p]
            == c,
{
}

/// A scan for a lowercase character stops at the characters whose lowercase form, as
/// `char::to_lowercase` yields it, starts with that one.
pub proof fn lowercase_scan_stops_at_its_sources(probe: char, bytes: Seq<u8>, p: int)
    requires
        valid_utf8(bytes),
        0 <= p < bytes.len(),
        is_char_boundary(bytes, p) ==> is_lower_mapping(
            decode_utf8(bytes.subrange(p, bytes.len() as int))[0],
            unicode_lower(decode_utf8(bytes.subrange(p, bytes.len() as int))[0]),
        ),
    ensures
        Scanner::Lowercase(probe).stops_at(bytes, p) <==> {
            &&& is_char_boundary(bytes, p)
            &&& unicode_lower(decode_utf8(bytes.subrange(p, bytes.len() as int))[0])[0] == probe
        },
{
    if is_char_boundary(bytes, p) {
        lemma_chars_from_step(bytes, p);
    }
}

/// The scan for an exact pattern stops at the first byte of the pattern.
pub proof fn exact_scan_stops_at_the_first_byte(pat: Seq<char>, bytes: Seq<u8>, p: int)
    ensures
        query(CaseMatching::Exact, pat, false).scanner().stops_at(bytes, p) <==> bytes[p]
            == encode_utf8(pat)[0],
{
}

proof fn lemma_char_code(c: char)
    ensures
        0 <= c as int,
        c as u32 == c as int,
{
}

/// The scan for a lowercase pattern that starts with an ASCII character stops at that
/// character, at its capital, and for `i` and `k` at the bytes that start U+0130 and the
/// Kelvin sign.
pub proof fn ascii_scan_stops_at_either_case(pat: Seq<char>, bytes: Seq<u8>, p: int)
    requires
        pat.len() > 0,
        is_lower_form(pat, unicode_lowercase(pat)),
        unicode_lowercase(pat)[0] <= '\u{7f}',
    ensures
        query(CaseMatching::CaseInsensitive, pat, false).scanner().stops_at(bytes, p) <==> {
            let c = unicode_lowercase(pat)[0];
            ||| bytes[p] == c as u32
            ||| 'a' <= c <= 'z' && bytes[p] == (c as u32) - 32
            ||| c == 'i' && bytes[p] == 0xc4
            ||| c == 'k' && bytes[p] == 0xe2
        },
{
    lemma_first_byte(unicode_lowercase(pat));
    lemma_char_code(unicode_lowercase(pat)[0]);
}

/// The scan for a lowercase pattern that starts outside of ASCII stops at the characters
/// whose lowercase form starts with the same character.
pub proof fn other_scan_stops_at_lowercase_forms(pat: Seq<char>, bytes: Seq<u8>, p: int)
    requires
        pat.len() > 0,
        is_lower_form(pat, unicode_lowercase(pat)),
        unicode_lowercase(pat)[0] > '\u{7f}',
        valid_utf8(bytes),
        0 <= p < bytes.len(),
        is_char_boundary(bytes, p) ==> is_lower_mapping(
            decode_utf8(bytes.subrange(p, bytes.len() as int))[0],
            unicode_lower(decode_utf8(bytes.subrange(p, bytes.len() as int))[0]),
        ),
    ensures
        query(CaseMatching::CaseInsensitive, pat, false).scanner().stops_at(bytes, p) <==> {
            &&& is_char_boundary(bytes, p)
            &&& unicode_lower(decode_utf8(bytes.subrange(p, bytes.len() as int))[0])[0]
                == unicode_lowercase(pat)[0]
        },
{
    lemma_first_byte(unicode_lowercase(pat));
    if is_char_boundary(bytes, p) {
        lemma_chars_from_step(bytes, p);
    }
}

/// One step tests one candidate: the first place in the rest of the leaf at which the scan
/// stops. If the pattern is not there the search goes on with the next character.
pub proof fn step_tests_the_first_candidate(q: Query, v: CursorView, i: int, c: int)
    requires
        v.ok(),
        v.valid,
        is_char_boundary(encode_utf8(v.leaves.flatten()), v.pos),
        !q.is_regex,
        q.pat.len() > 0,
        0 <= i < v.leaves.len(),
        encode_utf8(v.leaves.take(i).flatten()).len() <= v.pos <= c < encode_utf8(
            v.leaves.take(i + 1).flatten(),
        ).len(),
        q.scanner().stops_at(encode_utf8(v.leaves.flatten()), c),
        forall|j: int|
            v.pos <= j < c ==> !#[trigger] q.scanner().stops_at(
                encode_utf8(v.leaves.flatten()),
                j,
            ),
    ensures
        is_char_boundary(encode_utf8(v.leaves.flatten()), c),
        q.match_at(v.leaves, c) matches Some((start, end)) ==> start == c && q.step(v) == (
            FindResult::Found(c as usize),
            CursorView { leaves: v.leaves, pos: end, valid: true },
        ),
        q.match_at(v.leaves, c) is None ==> {
            let (r, w) = q.step(v);
            &&& r is TryAgain
            &&& w.leaves == v.leaves
            &&& w.valid
            &&& c < w.pos <= encode_utf8(v.leaves.flatten()).len()
            &&& is_char_boundary(encode_utf8(v.leaves.flatten()), w.pos)
            &&& forall|p: int|
                c < p < w.pos ==> !#[trigger] is_char_boundary(
                    encode_utf8(v.leaves.flatten()),
                    p,
                )
        },
{
    let b = v.bytes();
    let end = leaf_end(v.leaves, v.pos);
    let rest = b.subrange(v.pos, end);
    let scanner = q.scanner();
    text_is_the_leaves_in_order(v.leaves);
    leaf_holds_its_positions(v.leaves, i, v.pos);
    lemma_leaf_view(v.leaves, v.pos);
    assert forall|j: int| 0 <= j < end - v.pos implies (#[trigger] scanner.stops_at(rest, j)
        <==> scanner.stops_at(b, v.pos + j)) by {
        lemma_stops_in_stretch(scanner, b, v.pos, end, j);
    }
    assert(scanner.finds(rest, c - v.pos)) by {
        assert(scanner.stops_at(rest, c - v.pos));
        assert forall|j: int| 0 <= j < c - v.pos implies !#[trigger] scanner.stops_at(rest, j) by {
            assert(!scanner.stops_at(b, v.pos + j));
        }
    }
    lemma_finds_one(scanner, rest, c - v.pos, choose|j: int| scanner.finds(rest, j));
    lemma_candidate(q, v, c - v.pos);
    lemma_match_bounds(q, v.leaves, c);
    if q.match_at(v.leaves, c) is None {
        next_character_starts_at_the_next_boundary(v.moved_to(c));
    }
}

/// One step scans one leaf: if the scan stops nowhere in the rest of it, the search goes on
/// with the next leaf.
pub proof fn step_goes_on_to_the_next_leaf(q: Query, v: CursorView, i: int)
    requires
        v.ok(),
        v.valid,
        is_char_boundary(encode_utf8(v.leaves.flatten()), v.pos),
        !q.is_regex,
        q.pat.len() > 0,
        0 <= i < v.leaves.len(),
        encode_utf8(v.leaves.take(i).flatten()).len() <= v.pos,
        v.pos < encode_utf8(v.leaves.take(i + 1).flatten()).len() || (i + 1 == v.leaves.len()
            && v.pos == encode_utf8(v.leaves.flatten()).len()),
        forall|j: int|
            v.pos <= j < encode_utf8(v.leaves.take(i + 1).flatten()).len()
                ==> !#[trigger] q.scanner().stops_at(encode_utf8(v.leaves.flatten()), j),
    ensures
        q.step(v) == (
            FindResult::TryAgain,
            CursorView {
                leaves: v.leaves,
                pos: encode_utf8(v.leaves.take(i + 1).flatten()).len() as int,
                valid: i + 1 < v.leaves.len(),
            },
        ),
{
    let b = v.bytes();
    let end = leaf_end(v.leaves, v.pos);
    let rest = b.subrange(v.pos, end);
    let scanner = q.scanner();
    text_is_the_leaves_in_order(v.leaves);
    leaf_holds_its_positions(v.leaves, i, v.pos);
    lemma_leaf_view(v.leaves, v.pos);
    next_leaf_starts_where_this_one_ends(v, i);
    assert forall|j: int| !scanner.finds(rest, j) by {
        if scanner.finds(rest, j) {
            lemma_stops_in_stretch(scanner, b, v.pos, end, j);
            assert(!scanner.stops_at(b, v.pos + j));
        }
    }
}

/// One step tests a regular expression once, at the cursor. If it does not match there the
/// search goes on with the next leaf, or ends if it has been matched against all leaves.
pub proof fn step_tests_a_regex_at_the_cursor(
    cm: CaseMatching,
    pat: Seq<char>,
    v: CursorView,
    i: int,
)
    requires
        v.ok(),
        v.valid,
        0 <= i < v.leaves.len(),
        encode_utf8(v.leaves.take(i).flatten()).len() <= v.pos,
        v.pos < encode_utf8(v.leaves.take(i + 1).flatten()).len() || (i + 1 == v.leaves.len()
            && v.pos == encode_utf8(v.leaves.flatten()).len()),
    ensures
        query(cm, pat, true).step(v) == (match query(cm, pat, true).match_at(v.leaves, v.pos) {
            Some((start, end)) => (
                FindResult::Found(start as usize),
                CursorView { leaves: v.leaves, pos: end, valid: true },
            ),
            None => (
                FindResult::TryAgain,
                if is_multiline(pat) {
                    CursorView {
                        leaves: v.leaves,
                        pos: encode_utf8(v.leaves.flatten()).len() as int,
                        valid: false,
                    }
                } else {
                    CursorView {
                        leaves: v.leaves,
                        pos: encode_utf8(v.leaves.take(i + 1).flatten()).len() as int,
                        valid: i + 1 < v.leaves.len(),
                    }
                },
            ),
        }),
{
    let q = query(cm, pat, true);
    let rest = v.bytes().subrange(v.pos, leaf_end(v.leaves, v.pos));
    text_is_the_leaves_in_order(v.leaves);
    next_leaf_starts_where_this_one_ends(v, i);
    assert(q.scanner().finds(rest, 0));
    assert(v.moved_to(v.pos) == v);
}

/// A step that has run off the end finds nothing, and nothing else reports that.
pub proof fn step_ends_off_the_end(q: Query, v: CursorView)
    ensures
        !v.valid ==> q.step(v) == (FindResult::NotFound, v),
        v.valid ==> !(q.step(v).0 is NotFound),
{
}

/// No steps do nothing, one is a step, and every further one is one more from where the
/// others have suspended the search.
pub proof fn steps_are_taken_one_by_one(q: Query, v: CursorView, n: nat)
    ensures
        q.progress(v, 0) == (FindResult::TryAgain, v),
        q.progress(v, 1) == q.step(v),
        q.progress(v, n + 1) == (match q.progress(v, n) {
            (FindResult::TryAgain, w) => q.step(w),
            done => done,
        }),
    decreases n,
{
    reveal_with_fuel(Query::progress, 3);
    if n > 0 {
        let (r, w) = q.step(v);
        if r is TryAgain {
            steps_are_taken_one_by_one(q, w, (n - 1) as nat);
        }
    }
}

/// Where one step leads: not beyond the leaf that the cursor is in.
proof fn lemma_step_in_its_leaf(q: Query, v: CursorView)
    requires
        v.ok(),
        v.valid,
        v.on_boundary(),
        q.ok(),
        q.is_regex ==> !is_multiline(q.pat),
    ensures
        ({
            let (r, w) = q.step(v);
            let end = leaf_end(v.leaves, v.pos);
            &&& r matches FindResult::Found(start) ==> start <= end && (!q.is_regex ==> start < end)
            &&& r is TryAgain ==> w.pos <= end
        }),
{
    let b = v.bytes();
    let end = leaf_end(v.leaves, v.pos);
    let rest = b.subrange(v.pos, end);
    lemma_leaf_view(v.leaves, v.pos);
    if exists|j: int| q.scanner().finds(rest, j) {
        let j = choose|j: int| q.scanner().finds(rest, j);
        let c = v.pos + j;
        lemma_candidate(q, v, j);
        lemma_match_bounds(q, v.leaves, c);
        if q.is_regex {
            lemma_boundary_in_stretch(b, v.pos, end, 0);
            decode_utf8_encode_utf8(rest);
        } else {
            lemma_leaf_at(v.leaves, leaf_at(v.leaves, v.pos), c);
            lemma_step_in_leaf(v.leaves, c);
        }
    }
}

proof fn lemma_progress_in_leaves(q: Query, v: CursorView, n: nat)
    requires
        v.ok(),
        v.valid,
        v.on_boundary(),
        q.ok(),
        q.is_regex ==> !is_multiline(q.pat),
    ensures
        ({
            let (r, w) = q.progress(v, n);
            let i = leaf_at(v.leaves, v.pos);
            let last = if i + n <= v.leaves.len() {
                i + n
            } else {
                v.leaves.len() as int
            };
            let end = cut(v.leaves, last);
            &&& r matches FindResult::Found(start) ==> start <= end && (!q.is_regex ==> start < end)
            &&& r is TryAgain && n > 0 ==> w.pos <= end
        }),
    decreases n,
{
    if n > 0 {
        let len = v.leaves.len() as int;
        let i = leaf_at(v.leaves, v.pos);
        let last = if i + n <= len {
            i + n
        } else {
            len
        };
        let (s, u) = q.step(v);
        let m = (n - 1) as nat;
        lemma_leaf_view(v.leaves, v.pos);
        lemma_step(q, v);
        lemma_step_in_its_leaf(q, v);
        lemma_cut_order(v.leaves, i + 1, last);
        if s is TryAgain {
            assert(q.progress(v, n) == q.progress(u, m));
            if u.valid {
                let k = leaf_at(u.leaves, u.pos);
                lemma_leaf_view(u.leaves, u.pos);
                if k > i + 1 {
                    lemma_cut_order(v.leaves, i + 1, k);
                }
                lemma_progress_in_leaves(q, u, m);
                let reach = if k + m <= len {
                    k + m
                } else {
                    len
                };
                lemma_cut_order(v.leaves, reach, last);
            } else if m > 0 {
                assert(q.progress(u, m) == (FindResult::NotFound, u));
            }
        }
    }
}

/// In a number of steps a search gets through as many leaves at most: what it reports
/// starts in one of them, and where it suspends is not beyond them. An expression that can
/// match several lines reads on.
pub proof fn progress_stays_in_its_leaves(q: Query, v: CursorView, i: int, n: nat)
    requires
        v.ok(),
        v.valid,
        is_char_boundary(encode_utf8(v.leaves.flatten()), v.pos),
        q.is_regex || q.pat.len() > 0,
        q.is_regex ==> !is_multiline(q.pat),
        0 <= i < v.leaves.len(),
        encode_utf8(v.leaves.take(i).flatten()).len() <= v.pos,
        v.pos < encode_utf8(v.leaves.take(i + 1).flatten()).len() || (i + 1 == v.leaves.len()
            && v.pos == encode_utf8(v.leaves.flatten()).len()),
        n > 0,
        i + n <= v.leaves.len(),
    ensures
        q.progress(v, n).0 matches FindResult::Found(start) ==> {
            &&& start <= encode_utf8(v.leaves.take(i + n).flatten()).len()
            &&& !q.is_regex ==> start < encode_utf8(v.leaves.take(i + n).flatten()).len()
        },
        q.progress(v, n).0 is TryAgain ==> q.progress(v, n).1.pos <= encode_utf8(
            v.leaves.take(i + n).flatten(),
        ).len(),
{
    text_is_the_leaves_in_order(v.leaves);
    leaf_holds_its_positions(v.leaves, i, v.pos);
    leaf_starts_behind_those_before(v.leaves, i + n);
    lemma_progress_in_leaves(q, v, n);
}

/// Through leaves in which the scan stops nowhere a search gets one by one, and suspends at
/// the start of the leaf behind them.
pub proof fn progress_suspends_behind_leaves_without_candidates(
    q: Query,
    v: CursorView,
    i: int,
    n: nat,
)
    requires
        v.ok(),
        v.valid,
        is_char_boundary(encode_utf8(v.leaves.flatten()), v.pos),
        !q.is_regex,
        q.pat.len() > 0,
        0 <= i,
        0 < n,
        i + n < v.leaves.len(),
        encode_utf8(v.leaves.take(i).flatten()).len() <= v.pos < encode_utf8(
            v.leaves.take(i + 1).flatten(),
        ).len(),
        forall|j: int|
            v.pos <= j < encode_utf8(v.leaves.take(i + n).flatten()).len()
                ==> !#[trigger] q.scanner().stops_at(encode_utf8(v.leaves.flatten()), j),
    ensures
        q.progress(v, n) == (
            FindResult::TryAgain,
            CursorView {
                leaves: v.leaves,
                pos: encode_utf8(v.leaves.take(i + n).flatten()).len() as int,
                valid: true,
            },
        ),
    decreases n,
{
    let m = (n - 1) as nat;
    text_is_the_leaves_in_order(v.leaves);
    leaf_starts_behind_those_before(v.leaves, i + 1);
    leaf_starts_behind_those_before(v.leaves, i + 2);
    leaf_starts_behind_those_before(v.leaves, i + n);
    lemma_cut_order(v.leaves, i + 1, i + n);
    lemma_cut_order(v.leaves, i + 1, i + 2);
    step_goes_on_to_the_next_leaf(q, v, i);
    lemma_step(q, v);
    let (s, u) = q.step(v);
    assert(q.progress(v, n) == q.progress(u, m));
    if m > 0 {
        progress_suspends_behind_leaves_without_candidates(q, u, i + 1, m);
    }
}

/// Through leaves in which a regular expression that stays in its leaf has no match a search
/// gets one by one as well.
pub proof fn progress_suspends_behind_leaves_without_a_regex_match(
    cm: CaseMatching,
    pat: Seq<char>,
    v: CursorView,
    i: int,
    n: nat,
)
    requires
        v.ok(),
        v.valid,
        !is_multiline(pat),
        0 <= i,
        0 < n,
        i + n < v.leaves.len(),
        encode_utf8(v.leaves.take(i).flatten()).len() <= v.pos < encode_utf8(
            v.leaves.take(i + 1).flatten(),
        ).len(),
        query(cm, pat, true).match_at(v.leaves, v.pos) is None,
        forall|k: int|
            i < k < i + n ==> query(cm, pat, true).match_at(
                v.leaves,
                encode_utf8(#[trigger] v.leaves.take(k).flatten()).len() as int,
            ) is None,
    ensures
        query(cm, pat, true).progress(v, n) == (
            FindResult::TryAgain,
            CursorView {
                leaves: v.leaves,
                pos: encode_utf8(v.leaves.take(i + n).flatten()).len() as int,
                valid: true,
            },
        ),
    decreases n,
{
    let q = query(cm, pat, true);
    let m = (n - 1) as nat;
    text_is_the_leaves_in_order(v.leaves);
    leaf_starts_behind_those_before(v.leaves, i + 1);
    leaf_starts_behind_those_before(v.leaves, i + 2);
    lemma_cut_end(v.leaves);
    lemma_cut_order(v.leaves, i + 1, i + 2);
    lemma_cut_order(v.leaves, i + 1, v.leaves.len() as int);
    lemma_cut_order(v.leaves, 0, i + 1);
    step_tests_a_regex_at_the_cursor(cm, pat, v, i);
    let (s, u) = q.step(v);
    assert(q.progress(v, n) == q.progress(u, m));
    if m > 0 {
        assert(q.match_at(u.leaves, u.pos) is None);
        progress_suspends_behind_leaves_without_a_regex_match(cm, pat, u, i + 1, m);
    }
}

proof fn lemma_stop_is_a_boundary(q: Query, bytes: Seq<u8>, p: int)
    requires
        valid_utf8(bytes),
        q.ok(),
        !q.is_regex,
        0 <= p < bytes.len(),
        q.scanner().stops_at(bytes, p),
    ensures
        is_char_boundary(bytes, p),
{
    is_char_boundary_iff_not_is_continuation_byte(bytes, p);
    match q.matching {
        CaseMatching::Exact => {
            lemma_first_lead(q.pat);
        },
        CaseMatching::CaseInsensitive => {},
    }
}

/// In a number of steps a search tests as many candidates at most: if at so many places the
/// scan stops and the pattern does not match, the search reports nothing from behind the
/// last of them and suspends right behind it at the latest.
pub proof fn progress_tests_one_candidate_per_step(q: Query, v: CursorView, places: Seq<int>)
    requires
        v.ok(),
        v.valid,
        is_char_boundary(encode_utf8(v.leaves.flatten()), v.pos),
        !q.is_regex,
        q.pat.len() > 0,
        places.len() > 0,
        v.pos <= places[0],
        places.last() < encode_utf8(v.leaves.flatten()).len(),
        forall|i: int, j: int| 0 <= i < j < places.len() ==> places[i] < places[j],
        forall|i: int|
            0 <= i < places.len() ==> q.scanner().stops_at(
                encode_utf8(v.leaves.flatten()),
                #[trigger] places[i],
            ),
        forall|i: int|
            0 <= i < places.len() ==> q.match_at(v.leaves, #[trigger] places[i]) is None,
    ensures
        !(q.progress(v, places.len()).0 is NotFound),
        q.progress(v, places.len()).0 matches FindResult::Found(start) ==> start < places.last(),
        q.progress(v, places.len()).0 is TryAgain ==> forall|p: int|
            places.last() < p < q.progress(v, places.len()).1.pos ==> !#[trigger] is_char_boundary(
                encode_utf8(v.leaves.flatten()),
                p,
            ),
    decreases places.len(),
{
    let b = v.bytes();
    let n = places.len();
    let m = (n - 1) as nat;
    let end = leaf_end(v.leaves, v.pos);
    let rest = b.subrange(v.pos, end);
    let scanner = q.scanner();
    let first = places[0];
    text_is_the_leaves_in_order(v.leaves);
    lemma_leaf_view(v.leaves, v.pos);
    lemma_step(q, v);
    lemma_step_in_its_leaf(q, v);
    let (s, u) = q.step(v);
    assert(first <= places.last());
    lemma_stop_is_a_boundary(q, b, first);
    if first < end {
        lemma_stops_in_stretch(scanner, b, v.pos, end, first - v.pos);
        lemma_finds_some(scanner, rest, first - v.pos);
    }
    if exists|j: int| scanner.finds(rest, j) {
        let j = choose|j: int| scanner.finds(rest, j);
        let c = v.pos + j;
        lemma_candidate(q, v, j);
        lemma_match_bounds(q, v.leaves, c);
        if first < end && first < c {
            assert(!scanner.stops_at(rest, first - v.pos));
        }
        assert(c <= first);
        if q.match_at(v.leaves, c) is None {
            lemma_next_boundary(b, c);
            if c < first && first < u.pos {
                assert(!is_char_boundary(b, first));
            }
        }
        assert(s is TryAgain ==> u.valid);
        assert(s is TryAgain ==> c == first || u.pos <= first);
        assert(s matches FindResult::Found(start) ==> start == c && c < first);
    } else {
        assert(end <= first);
        assert(u.pos <= first);
    }
    if s is TryAgain {
        assert(q.progress(v, n) == q.progress(u, m));
        if u.pos <= first {
            if m > 0 {
                let front = places.drop_last();
                assert forall|i: int| 0 <= i < front.len() implies q.match_at(
                    u.leaves,
                    #[trigger] front[i],
                ) is None by {
                    assert(front[i] == places[i]);
                }
                assert forall|i: int| 0 <= i < front.len() implies scanner.stops_at(
                    b,
                    #[trigger] front[i],
                ) by {
                    assert(front[i] == places[i]);
                }
                progress_tests_one_candidate_per_step(q, u, front);
                assert(front.last() < places.last());
                let w = q.progress(u, m).1;
                lemma_stop_is_a_boundary(q, b, places.last());
                if places.last() < w.pos && q.progress(u, m).0 is TryAgain {
                    assert(!is_char_boundary(b, places.last()));
                }
            }
        } else {
            let later = places.drop_first();
            if m > 0 {
                assert forall|i: int| 0 <= i < later.len() implies q.match_at(
                    u.leaves,
                    #[trigger] later[i],
                ) is None by {
                    assert(later[i] == places[i + 1]);
                }
                assert forall|i: int| 0 <= i < later.len() implies scanner.stops_at(
                    b,
                    #[trigger] later[i],
                ) by {
                    assert(later[i] == places[i + 1]);
                }
                assert(later[0] == places[1]);
                lemma_stop_is_a_boundary(q, b, later[0]);
                if later[0] < u.pos {
                    assert(!is_char_boundary(b, later[0]));
                }
                progress_tests_one_candidate_per_step(q, u, later);
            }
        }
    }
}

} // verus!
