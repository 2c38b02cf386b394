//! What holds of searches as a whole.

use vstd::prelude::*;
use vstd::utf8::{
    decode_utf8, encode_utf8, encode_utf8_decode_utf8, encode_utf8_valid_utf8, is_ascii_chars,
    is_ascii_chars_encode_utf8, is_char_boundary, is_char_boundary_iff_not_is_continuation_byte,
    valid_utf8,
};

use crate::lowercase::{
    ascii_lower, lemma_char_lower, lemma_lower_ascii, lemma_lower_concat, lemma_lower_one,
    lemma_str_lower, lower_each, str_lower,
};
use crate::regex_search::{is_multiline, regex_compiles, REGEX_SIZE_LIMIT};
use crate::rope::{bytes_of, cut, leaf_at, leaves_ok, text_of, CursorView};
use crate::search::{
    folded_end, folded_match, lemma_first_lead, lemma_folded_one, lemma_lower_take,
    lemma_match_bounds, lemma_step, lemma_take_at, lemma_text_at, occurs_at, query, remaining,
    CaseMatching, FindResult, Query,
};
use crate::text::chars_from;

verus! {

/// What a search reports is right. Found: the first match at or behind the cursor, and
/// the cursor stands behind it. Not found: there is no match. Suspended: every match
/// still lies ahead, and each step has brought the end closer.
pub proof fn progress_is_right(q: Query, v: CursorView, n: nat)
    requires
        v.ok(),
        v.on_boundary(),
        q.ok(),
    ensures
        ({
            let (r, w) = q.progress(v, n);
            &&& w.ok()
            &&& w.on_boundary()
            &&& w.leaves == v.leaves
            &&& v.pos <= w.pos
            &&& r matches FindResult::Found(p) ==> w.valid && exists|h: int| #[trigger]
                q.first_hit(v, h) && q.match_at(v.leaves, h) == Some((p as int, w.pos))
            &&& r is NotFound ==> !w.valid && forall|h: int| !#[trigger] q.hit(v, h)
            &&& r is TryAgain ==> remaining(w) + n <= remaining(v) && forall|h: int| #[trigger]
                q.hit(v, h) <==> q.hit(w, h)
        }),
    decreases n,
{
    if n > 0 {
        lemma_step(q, v);
        let (s, u) = q.step(v);
        if s is TryAgain {
            progress_is_right(q, u, (n - 1) as nat);
            let (r, w) = q.progress(u, (n - 1) as nat);
            assert(q.progress(v, n) == (r, w));
            assert forall|h: int| #[trigger] q.first_hit(u, h) implies q.first_hit(v, h) by {
                assert forall|g: int| g < h implies !#[trigger] q.hit(v, g) by {
                    assert(!q.hit(u, g));
                }
            }
        }
    }
}

/// A search that may take more steps than there are positions ahead does not suspend.
pub proof fn progress_decides(q: Query, v: CursorView, n: nat)
    requires
        v.ok(),
        v.on_boundary(),
        q.ok(),
        n > remaining(v),
    ensures
        !(q.progress(v, n).0 is TryAgain),
{
    progress_is_right(q, v, n);
}

/// Resuming a suspended search comes to the same as never having suspended it.
pub proof fn progress_resumes(q: Query, v: CursorView, a: nat, b: nat)
    ensures
        q.progress(v, a + b) == (match q.progress(v, a) {
            (FindResult::TryAgain, w) => q.progress(w, b),
            done => done,
        }),
    decreases a,
{
    if a > 0 {
        match q.step(v) {
            (FindResult::TryAgain, w) => progress_resumes(q, w, (a - 1) as nat, b),
            _ => {},
        }
    }
}

/// There is at most one first match.
pub proof fn first_hit_is_unique(q: Query, v: CursorView, g: int, h: int)
    requires
        q.first_hit(v, g),
        q.first_hit(v, h),
    ensures
        g == h,
{
    if g < h {
        assert(!q.hit(v, g));
    }
    if h < g {
        assert(!q.hit(v, h));
    }
}

/// An exact search matches at the positions where the bytes of the pattern occur, and
/// those all start a character.
pub proof fn exact_hits_are_occurrences(pat: Seq<char>, v: CursorView, h: int)
    requires
        v.ok(),
        v.valid,
        pat.len() > 0,
    ensures
        query(CaseMatching::Exact, pat, false).hit(v, h) <==> v.pos <= h
            && occurs_at(v.bytes(), encode_utf8(pat), h),
{
    let b = v.bytes();
    let enc = encode_utf8(pat);
    lemma_first_lead(pat);
    encode_utf8_valid_utf8(text_of(v.leaves));
    if v.pos <= h && occurs_at(b, enc, h) {
        assert(b.subrange(h, h + enc.len())[0] == b[h]);
        is_char_boundary_iff_not_is_continuation_byte(b, h);
    }
}

/// What an exact search finds is the pattern, character for character.
pub proof fn exact_match_is_the_pattern(pat: Seq<char>, leaves: Seq<Seq<char>>, h: int)
    ensures
        query(CaseMatching::Exact, pat, false).match_at(leaves, h) matches Some(
            (start, end),
        ) ==> decode_utf8(bytes_of(leaves).subrange(start, end)) == pat,
{
    encode_utf8_decode_utf8(pat);
}

/// How a text is cut into leaves has no influence on what a search finds in it. For a
/// regular expression this holds if it can match several lines.
pub proof fn leaves_do_not_matter(q: Query, v: CursorView, w: CursorView, h: int)
    requires
        text_of(v.leaves) == text_of(w.leaves),
        v.pos == w.pos,
        v.valid == w.valid,
        q.is_regex ==> is_multiline(q.pat),
    ensures
        q.hit(v, h) <==> q.hit(w, h),
        q.first_hit(v, h) <==> q.first_hit(w, h),
        q.match_at(v.leaves, h) == q.match_at(w.leaves, h),
{
    assert forall|g: int| q.match_at(v.leaves, g) == q.match_at(w.leaves, g) by {}
    assert forall|g: int| q.hit(v, g) == q.hit(w, g) by {}
}

/// A case insensitive search depends on the lowercase form of the pattern only.
pub proof fn case_of_pattern_does_not_matter(
    a: Seq<char>,
    b: Seq<char>,
    leaves: Seq<Seq<char>>,
    h: int,
)
    requires
        str_lower(a) == str_lower(b),
    ensures
        query(CaseMatching::CaseInsensitive, a, false).match_at(
            leaves,
            h,
        ) == query(CaseMatching::CaseInsensitive, b, false).match_at(
            leaves,
            h,
        ),
{
}

/// Where a pattern matches exactly it also matches case insensitively, with the same end,
/// if its lowercase form is that of its characters one by one. A capital sigma at the end
/// of a word is lowercased otherwise.
pub proof fn exact_match_is_case_insensitive_match(
    pat: Seq<char>,
    leaves: Seq<Seq<char>>,
    h: int,
)
    requires
        leaves_ok(leaves),
        pat.len() > 0,
        is_char_boundary(bytes_of(leaves), h),
        occurs_at(bytes_of(leaves), encode_utf8(pat), h),
        str_lower(pat) == lower_each(pat),
    ensures
        query(CaseMatching::CaseInsensitive, pat, false).match_at(
            leaves,
            h,
        ) == Some((h, h + encode_utf8(pat).len())),
{
    encode_utf8_valid_utf8(text_of(leaves));
    lemma_folded_at(pat, bytes_of(leaves), h);
}

/// Where a text occurs, its characters one by one in lowercase match as a whole.
proof fn lemma_folded_at(pat: Seq<char>, bytes: Seq<u8>, h: int)
    requires
        valid_utf8(bytes),
        pat.len() > 0,
        is_char_boundary(bytes, h),
        occurs_at(bytes, encode_utf8(pat), h),
    ensures
        folded_end(bytes, lower_each(pat), h) == Some(h + encode_utf8(pat).len()),
{
    let text = chars_from(bytes, h);
    let n = pat.len() as int;
    let folded = lower_each(pat);
    lemma_text_at(bytes, pat, h);
    assert(text.take(n) =~= pat);
    let front = text.take(n - 1);
    assert(front + seq![pat.last()] =~= pat);
    lemma_lower_concat(front, seq![pat.last()]);
    lemma_lower_one(pat.last());
    lemma_char_lower(pat.last());
    assert(folded =~= lower_each(text.take(n)).subrange(0, folded.len() as int));
    assert(folded_match(text, folded, n));
    lemma_folded_one(text, folded, n, choose|k: int| folded_match(text, folded, k));
}

/// Where a pattern that is its own lowercase form occurs, a case insensitive comparison
/// with it succeeds as well, with the same end.
pub proof fn exact_match_of_lowercase_pattern(pat: Seq<char>, bytes: Seq<u8>, h: int)
    requires
        valid_utf8(bytes),
        pat.len() > 0,
        lower_each(pat) == pat,
        is_char_boundary(bytes, h),
        occurs_at(bytes, encode_utf8(pat), h),
    ensures
        folded_end(bytes, pat, h) == Some(h + encode_utf8(pat).len()),
        str_lower(pat) == pat,
        folded_end(bytes, str_lower(pat), h) == Some(h + encode_utf8(pat).len()),
{
    lemma_str_lower(pat);
    lemma_folded_at(pat, bytes, h);
}

/// The lowercase form of an ASCII pattern is that of its characters one by one.
pub proof fn ascii_lowercase_is_one_by_one(pat: Seq<char>)
    requires
        is_ascii_chars(pat),
    ensures
        str_lower(pat) == lower_each(pat),
{
    lemma_str_lower(pat);
    lemma_lower_ascii(pat);
}

/// What a case insensitive search finds is, in lowercase, the lowercase form of the
/// pattern, perhaps with more behind it that stems from the last character found. Without
/// that character the pattern would not be complete.
pub proof fn case_insensitive_match_is_the_pattern(
    pat: Seq<char>,
    leaves: Seq<Seq<char>>,
    h: int,
)
    requires
        leaves_ok(leaves),
        pat.len() > 0,
        0 <= h <= bytes_of(leaves).len(),
        is_char_boundary(bytes_of(leaves), h),
    ensures
        query(CaseMatching::CaseInsensitive, pat, false).match_at(leaves, h) matches Some(
            (start, end),
        ) ==> {
            let text = decode_utf8(bytes_of(leaves).subrange(start, end));
            &&& start == h
            &&& text.len() > 0
            &&& str_lower(pat).is_prefix_of(lower_each(text))
            &&& lower_each(text.drop_last()).len() < str_lower(pat).len()
        },
{
    let b = bytes_of(leaves);
    let text = chars_from(b, h);
    let folded = str_lower(pat);
    encode_utf8_valid_utf8(text_of(leaves));
    if exists|k: int| folded_match(text, folded, k) {
        let k = choose|k: int| folded_match(text, folded, k);
        lemma_take_at(b, h, k);
        encode_utf8_decode_utf8(text.take(k));
        assert(text.take(k).drop_last() =~= text.take(k - 1));
    }
}

proof fn lemma_char_floor(c: char)
    ensures
        '\0' <= c,
{
}

proof fn lemma_ascii_front(text: Seq<char>, n: int)
    requires
        0 <= n <= text.len(),
        forall|i: int| 0 <= i < n ==> #[trigger] text[i] <= '\u{7f}',
    ensures
        is_ascii_chars(text.take(n)),
{
    let front = text.take(n);
    assert forall|i: int| 0 <= i < front.len() implies '\0' <= #[trigger] front[i] <= '\u{7f}' by {
        lemma_char_floor(front[i]);
        assert(front[i] == text[i]);
    }
}

/// Whether two texts start alike for `n` characters, ASCII letters in either case.
pub open spec fn ascii_alike(a: Seq<char>, b: Seq<char>, n: int) -> bool {
    &&& n <= a.len()
    &&& n <= b.len()
    &&& forall|i: int| 0 <= i < n ==> ascii_lower(#[trigger] a[i]) == ascii_lower(b[i])
}

/// In ASCII text a case insensitive search for an ASCII pattern finds it whatever the case
/// of the letters, and nothing else.
pub proof fn ascii_case_is_ignored(pat: Seq<char>, leaves: Seq<Seq<char>>, h: int)
    requires
        leaves_ok(leaves),
        pat.len() > 0,
        is_ascii_chars(pat),
        0 <= h <= bytes_of(leaves).len(),
        is_char_boundary(bytes_of(leaves), h),
        forall|i: int|
            0 <= i < pat.len() && i < chars_from(bytes_of(leaves), h).len() ==> #[trigger] chars_from(
                bytes_of(leaves),
                h,
            )[i] <= '\u{7f}',
    ensures
        query(CaseMatching::CaseInsensitive, pat, false).match_at(
            leaves,
            h,
        ) == (if ascii_alike(chars_from(bytes_of(leaves), h), pat, pat.len() as int) {
            Some((h, h + pat.len()))
        } else {
            None
        }),
{
    let b = bytes_of(leaves);
    let text = chars_from(b, h);
    let n = pat.len() as int;
    let folded = str_lower(pat);
    lemma_str_lower(pat);
    assert forall|k: int| folded_match(text, folded, k) implies k == n && ascii_alike(
        text,
        pat,
        n,
    ) by {
        let m = if k <= n {
            k
        } else {
            n
        };
        let part = text.take(m);
        lemma_ascii_front(text, m);
        lemma_lower_ascii(part);
        if k > n {
            lemma_lower_take(text, n, k - 1);
        }
        assert forall|i: int| 0 <= i < n implies ascii_lower(#[trigger] text[i]) == ascii_lower(
            pat[i],
        ) by {
            assert(folded[i] == lower_each(part).subrange(0, n)[i]);
            assert(part[i] == text[i]);
        }
    }
    if ascii_alike(text, pat, n) {
        let part = text.take(n);
        let front = text.take(n - 1);
        lemma_ascii_front(text, n);
        lemma_ascii_front(text, n - 1);
        lemma_lower_ascii(part);
        lemma_lower_ascii(front);
        assert(folded =~= lower_each(part)) by {
            assert forall|i: int| 0 <= i < n implies #[trigger] folded[i] == lower_each(part)[i] by {
                assert(part[i] == text[i]);
            }
        }
        assert(folded =~= lower_each(part).subrange(0, folded.len() as int));
        assert(folded_match(text, folded, n));
        is_ascii_chars_encode_utf8(part);
    }
}

/// A pattern that is not a regular expression matches at the place found, with at least
/// one character, between character boundaries. A search from behind a match finds none
/// that overlaps it.
pub proof fn matches_do_not_overlap(q: Query, v: CursorView, h: int)
    requires
        v.ok(),
        q.ok(),
        !q.is_regex,
        q.first_hit(v, h),
    ensures
        q.match_at(v.leaves, h) matches Some((start, end)) && {
            &&& v.pos <= start == h < end <= v.bytes().len()
            &&& is_char_boundary(v.bytes(), start)
            &&& is_char_boundary(v.bytes(), end)
            &&& forall|g: int| #[trigger] q.hit(v.moved_to(end), g) ==> end <= g
        },
{
    lemma_match_bounds(q, v.leaves, h);
}

/// A regular expression is tested on text that begins at the cursor or at the start of a
/// leaf. One that can match several lines is tested on all the text ahead at once.
pub proof fn regex_text_begins_at_cursor_or_leaf(
    pat: Seq<char>,
    cm: CaseMatching,
    v: CursorView,
    h: int,
)
    requires
        query(cm, pat, true).hit(v, h),
    ensures
        h == v.pos || cut(v.leaves, leaf_at(v.leaves, h)) == h,
        is_multiline(pat) ==> h == v.pos,
{
}

/// A regular expression that does not compile, within the size limit, is found nowhere.
pub proof fn bad_regex_is_not_found(
    pat: Seq<char>,
    cm: CaseMatching,
    v: CursorView,
    h: int,
)
    requires
        pat.len() > 0,
        !regex_compiles(
            pat,
            REGEX_SIZE_LIMIT as int,
            cm is CaseInsensitive,
            usize::BITS as int,
        ),
    ensures
        !query(cm, pat, true).hit(v, h),
{
}

/// An empty regular expression is found wherever the cursor is.
pub proof fn empty_regex_is_found_at_once(cm: CaseMatching, v: CursorView)
    requires
        v.ok(),
        v.valid,
        v.on_boundary(),
    ensures
        query(cm, Seq::empty(), true).first_hit(v, v.pos),
        query(cm, Seq::empty(), true).match_at(v.leaves, v.pos)
            == Some((v.pos, v.pos)),
{
}

} // verus!
