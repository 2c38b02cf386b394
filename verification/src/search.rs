//! What a search is: where a query matches, what one step of a search does, and what
//! many steps amount to.

use vstd::prelude::*;
use vstd::utf8::{
    char_is_scalar, char_u32_cast, decode_first_scalar, decode_utf8, decode_utf8_encode_utf8,
    encode_scalar, encode_utf8, encode_utf8_first_scalar, encode_utf8_valid_utf8,
    is_char_boundary, is_char_boundary_iff_not_is_continuation_byte,
    is_char_boundary_start_end_of_seq, is_continuation_byte, valid_utf8,
};

use crate::lowercase::{
    ascii_lower, char_lower, lemma_char_lower, lemma_lower_concat, lemma_lower_one,
    lemma_str_lower, lower_each, str_lower,
};
use crate::regex_search::{is_multiline, is_stretch, regex_compiles, regex_match, REGEX_SIZE_LIMIT};
use crate::rope::{
    bytes_of, cut, leaf_at, leaf_end, leaves_ok, lemma_cut_end, lemma_cut_order, lemma_leaf_at,
    lemma_leaf_start, lemma_leaf_view, CursorView,
};
use crate::scan::{folded_scanner, Scanner};
use crate::text::{
    char_at, chars_from, lemma_boundary_in_stretch, lemma_boundary_in_tail, lemma_chars_from_step,
    lemma_encode_concat, lemma_encode_len, lemma_next_boundary, lemma_same_first_char, tail,
    width_at,
};

verus! {

/// The result of a `find` operation.
pub enum FindResult {
    /// The pattern was found at this position.
    Found(usize),
    /// The pattern was not found.
    NotFound,
    /// The cursor has been advanced by some amount. The pattern is not found before the
    /// new cursor, but may be at or beyond it.
    TryAgain,
}

/// A policy for case matching.
#[derive(Clone, Copy, PartialEq, Eq, Structural)]
pub enum CaseMatching {
    /// Require an exact codepoint-for-codepoint match (implies case sensitivity).
    Exact,
    /// Case insensitive match, defined in terms of the `to_lowercase` methods of the
    /// standard library.
    CaseInsensitive,
}

/// Whether `part` occurs at position `p`.
pub open spec fn occurs_at(bytes: Seq<u8>, part: Seq<u8>, p: int) -> bool {
    &&& 0 <= p <= bytes.len() - part.len()
    &&& bytes.subrange(p, p + part.len()) == part
}

/// Whether the first `k` characters of `text`, in lowercase, start with `folded`, and
/// fewer would not do.
pub open spec fn folded_match(text: Seq<char>, folded: Seq<char>, k: int) -> bool {
    &&& 0 < k <= text.len()
    &&& lower_each(text.take(k - 1)).len() < folded.len()
    &&& folded.is_prefix_of(lower_each(text.take(k)))
}

/// Where a match of `folded` in the lowercased text from position `p` on ends.
pub open spec fn folded_end(bytes: Seq<u8>, folded: Seq<char>, p: int) -> Option<int> {
    let text = chars_from(bytes, p);
    if exists|k: int| folded_match(text, folded, k) {
        let k = choose|k: int| folded_match(text, folded, k);
        Some(p + encode_utf8(text.take(k)).len())
    } else {
        None
    }
}

/// The text that a regular expression is matched against at position `p`: to the end of the
/// rope if the expression can match several lines, else to the end of the leaf.
pub open spec fn regex_text(leaves: Seq<Seq<char>>, pat: Seq<char>, p: int) -> Seq<char> {
    let end = if is_multiline(pat) {
        bytes_of(leaves).len() as int
    } else {
        leaf_end(leaves, p)
    };
    decode_utf8(bytes_of(leaves).subrange(p, end))
}

/// The match of a regular expression in the text from position `p` on. The empty expression
/// matches where it stands. A match that the `regex` crate reports is always a stretch of
/// the text searched.
pub open spec fn regex_at(
    leaves: Seq<Seq<char>>,
    pat: Seq<char>,
    case_insensitive: bool,
    p: int,
) -> Option<(int, int)> {
    let text = regex_text(leaves, pat, p);
    if pat.len() == 0 {
        Some((p, p))
    } else if !regex_compiles(
        pat,
        REGEX_SIZE_LIMIT as int,
        case_insensitive,
        usize::BITS as int,
    ) {
        None
    } else {
        match regex_match(pat, case_insensitive, text) {
            Some(m) => if is_stretch(text, m) {
                Some((p + m.0, p + m.1))
            } else {
                None
            },
            None => None,
        }
    }
}

/// What to search for.
pub struct Query {
    pub matching: CaseMatching,
    pub pat: Seq<char>,
    pub is_regex: bool,
}

/// The query for a pattern.
pub open spec fn query(matching: CaseMatching, pat: Seq<char>, is_regex: bool) -> Query {
    Query { matching, pat, is_regex }
}

impl Query {
    /// Only a regular expression may be empty.
    pub open spec fn ok(self) -> bool {
        self.is_regex || self.pat.len() > 0
    }

    /// The scan that finds the places where the query may match.
    pub open spec fn scanner(self) -> Scanner {
        if self.is_regex {
            Scanner::Anywhere
        } else {
            match self.matching {
                CaseMatching::Exact => Scanner::Byte(encode_utf8(self.pat)[0]),
                CaseMatching::CaseInsensitive => folded_scanner(str_lower(self.pat)),
            }
        }
    }

    /// The start and the end of the match that the query has at position `p`. That of a
    /// regular expression may start later.
    pub open spec fn match_at(self, leaves: Seq<Seq<char>>, p: int) -> Option<(int, int)> {
        if self.is_regex {
            regex_at(leaves, self.pat, self.matching is CaseInsensitive, p)
        } else {
            match self.matching {
                CaseMatching::Exact => if occurs_at(bytes_of(leaves), encode_utf8(self.pat), p) {
                    Some((p, p + encode_utf8(self.pat).len()))
                } else {
                    None
                },
                CaseMatching::CaseInsensitive => match folded_end(
                    bytes_of(leaves),
                    str_lower(self.pat),
                    p,
                ) {
                    Some(end) => Some((p, end)),
                    None => None,
                },
            }
        }
    }

    /// Whether a search from `v` tests the query at position `h`. A regular expression is
    /// tested on whole stretches of text, which begin at the cursor and at each later leaf,
    /// or only at the cursor if it can match several lines.
    pub open spec fn tested_at(self, v: CursorView, h: int) -> bool {
        self.is_regex ==> {
            ||| h == v.pos
            ||| !is_multiline(self.pat) && cut(v.leaves, leaf_at(v.leaves, h)) == h
        }
    }

    /// Whether position `h`, at or behind the cursor, is one where the query matches.
    pub open spec fn hit(self, v: CursorView, h: int) -> bool {
        &&& v.valid
        &&& v.pos <= h <= v.bytes().len()
        &&& is_char_boundary(v.bytes(), h)
        &&& self.tested_at(v, h)
        &&& self.match_at(v.leaves, h) is Some
    }

    /// Whether `h` is the first position at or behind the cursor where the query matches.
    pub open spec fn first_hit(self, v: CursorView, h: int) -> bool {
        &&& self.hit(v, h)
        &&& forall|g: int| g < h ==> !#[trigger] self.hit(v, g)
    }

    /// The cursor behind the text that a test of the query at the cursor has ruled out: the
    /// character there, or for a regular expression all the text that it was tested on.
    pub open spec fn ruled_out(self, v: CursorView) -> CursorView {
        if !self.is_regex {
            v.past_char()
        } else if is_multiline(self.pat) {
            v.exhausted()
        } else {
            v.past_leaf()
        }
    }

    /// What one step of a search does: it scans the rest of the leaf for a place where
    /// the query may match and tests that place, or goes on to the next leaf if there is
    /// no such place.
    pub open spec fn step(self, v: CursorView) -> (FindResult, CursorView) {
        let rest = v.bytes().subrange(v.pos, leaf_end(v.leaves, v.pos));
        if !v.valid {
            (FindResult::NotFound, v)
        } else if exists|i: int| self.scanner().finds(rest, i) {
            let i = choose|i: int| self.scanner().finds(rest, i);
            match self.match_at(v.leaves, v.pos + i) {
                Some((start, end)) => (FindResult::Found(start as usize), v.moved_to(end)),
                None => (FindResult::TryAgain, self.ruled_out(v.moved_to(v.pos + i))),
            }
        } else {
            (FindResult::TryAgain, v.past_leaf())
        }
    }

    /// What at most `n` steps of a search do.
    pub open spec fn progress(self, v: CursorView, n: nat) -> (FindResult, CursorView)
        decreases n,
    {
        if n == 0 {
            (FindResult::TryAgain, v)
        } else {
            match self.step(v) {
                (FindResult::TryAgain, w) => self.progress(w, (n - 1) as nat),
                done => done,
            }
        }
    }
}

/// The number of steps after which a search cannot still be on its way.
pub open spec fn remaining(v: CursorView) -> nat {
    if v.valid {
        (v.bytes().len() - v.pos + 1) as nat
    } else {
        0
    }
}

/// A scan finds one place only.
pub proof fn lemma_finds_one(scanner: Scanner, bytes: Seq<u8>, i: int, j: int)
    requires
        scanner.finds(bytes, i),
        scanner.finds(bytes, j),
    ensures
        i == j,
{
    if i < j {
        assert(!scanner.stops_at(bytes, i));
    } else if j < i {
        assert(!scanner.stops_at(bytes, j));
    }
}

/// A scan finds something if there is anything to find.
pub proof fn lemma_finds_some(scanner: Scanner, bytes: Seq<u8>, p: int)
    requires
        0 <= p < bytes.len(),
        scanner.stops_at(bytes, p),
    ensures
        exists|i: int| scanner.finds(bytes, i),
    decreases p,
{
    if scanner is Anywhere {
        assert(scanner.finds(bytes, 0));
    } else if exists|j: int| 0 <= j < p && scanner.stops_at(bytes, j) {
        let j = choose|j: int| 0 <= j < p && scanner.stops_at(bytes, j);
        lemma_finds_some(scanner, bytes, j);
    } else {
        assert(scanner.finds(bytes, p));
    }
}

/// A scan of a stretch between two boundaries stops where a scan of the whole does.
pub proof fn lemma_stops_in_stretch(scanner: Scanner, bytes: Seq<u8>, p: int, end: int, j: int)
    requires
        valid_utf8(bytes),
        0 <= p <= end <= bytes.len(),
        is_char_boundary(bytes, p),
        is_char_boundary(bytes, end),
        0 <= j < end - p,
    ensures
        scanner.stops_at(bytes.subrange(p, end), j) <==> scanner.stops_at(bytes, p + j),
{
    lemma_boundary_in_stretch(bytes, p, end, j);
}

/// Lowercasing more characters only adds to the result.
pub proof fn lemma_lower_take(text: Seq<char>, i: int, j: int)
    requires
        0 <= i <= j <= text.len(),
    ensures
        lower_each(text.take(i)).is_prefix_of(lower_each(text.take(j))),
{
    let a = text.take(i);
    let b = text.subrange(i, j);
    assert(a + b =~= text.take(j));
    lemma_lower_concat(a, b);
    assert(lower_each(a) =~= lower_each(text.take(j)).subrange(0, lower_each(a).len() as int));
}

/// How many characters a match takes is determined.
pub proof fn lemma_folded_one(text: Seq<char>, folded: Seq<char>, i: int, j: int)
    requires
        folded_match(text, folded, i),
        folded_match(text, folded, j),
    ensures
        i == j,
{
    if i < j {
        lemma_lower_take(text, i, j - 1);
    } else if j < i {
        lemma_lower_take(text, j, i - 1);
    }
}

/// Where the encoding of some text occurs at a boundary, the characters there are that
/// text, and it ends on a boundary.
pub proof fn lemma_text_at(bytes: Seq<u8>, text: Seq<char>, p: int)
    requires
        valid_utf8(bytes),
        is_char_boundary(bytes, p),
        occurs_at(bytes, encode_utf8(text), p),
    ensures
        is_char_boundary(bytes, p + encode_utf8(text).len()),
        text.is_prefix_of(chars_from(bytes, p)),
        chars_from(bytes, p + encode_utf8(text).len()) == chars_from(bytes, p).skip(
            text.len() as int,
        ),
    decreases text.len(),
{
    let all = chars_from(bytes, p);
    if text.len() == 0 {
        assert(all.skip(0) =~= all);
        assert(text =~= all.subrange(0, 0));
    } else {
        let enc = encode_utf8(text);
        let rest = text.drop_first();
        let w = width_at(bytes, p);
        lemma_encode_len(text);
        encode_utf8_valid_utf8(text);
        assert(enc =~= tail(bytes, p).subrange(0, enc.len() as int));
        lemma_same_first_char(enc, tail(bytes, p));
        encode_utf8_first_scalar(text);
        lemma_next_boundary(bytes, p);
        lemma_chars_from_step(bytes, p);
        assert(seq![text[0]] + rest =~= text);
        lemma_encode_concat(seq![text[0]], rest);
        char_u32_cast(text[0], decode_first_scalar(tail(bytes, p)));
        assert(char_at(bytes, p) == text[0]);
        assert(bytes.subrange(p + w, p + enc.len()) =~= enc.subrange(w, enc.len() as int));
        assert(bytes.subrange(p + w, p + enc.len()) =~= encode_utf8(rest));
        assert(occurs_at(bytes, encode_utf8(rest), p + w));
        lemma_text_at(bytes, rest, p + w);
        let later = chars_from(bytes, p + w);
        assert(all.skip(text.len() as int) =~= later.skip(rest.len() as int));
        assert(text =~= all.subrange(0, text.len() as int)) by {
            assert forall|i: int| 0 <= i < text.len() implies text[i] == all[i] by {
                if i > 0 {
                    assert(rest[i - 1] == later.subrange(0, rest.len() as int)[i - 1]);
                }
            }
        }
    }
}

/// The first `k` characters from a boundary on stand there.
pub proof fn lemma_take_at(bytes: Seq<u8>, p: int, k: int)
    requires
        valid_utf8(bytes),
        0 <= p <= bytes.len(),
        is_char_boundary(bytes, p),
        0 <= k <= chars_from(bytes, p).len(),
    ensures
        occurs_at(bytes, encode_utf8(chars_from(bytes, p).take(k)), p),
        is_char_boundary(bytes, p + encode_utf8(chars_from(bytes, p).take(k)).len()),
        chars_from(bytes, p + encode_utf8(chars_from(bytes, p).take(k)).len()) == chars_from(
            bytes,
            p,
        ).skip(k),
{
    let all = chars_from(bytes, p);
    let front = all.take(k);
    lemma_boundary_in_tail(bytes, p, 0);
    decode_utf8_encode_utf8(tail(bytes, p));
    assert(front + all.skip(k) =~= all);
    lemma_encode_concat(front, all.skip(k));
    let n = encode_utf8(front).len();
    assert(bytes.subrange(p, p + n) =~= tail(bytes, p).subrange(0, n as int));
    assert(bytes.subrange(p, p + n) =~= encode_utf8(front));
    lemma_text_at(bytes, front, p);
}

/// Where a match lies: behind the place tested, in the rope, and on boundaries. Only a
/// regular expression's may start later or be empty.
pub proof fn lemma_match_bounds(q: Query, leaves: Seq<Seq<char>>, h: int)
    requires
        leaves_ok(leaves),
        q.ok(),
        0 <= h <= bytes_of(leaves).len(),
        is_char_boundary(bytes_of(leaves), h),
    ensures
        q.match_at(leaves, h) matches Some((start, end)) ==> {
            &&& h <= start <= end <= bytes_of(leaves).len()
            &&& is_char_boundary(bytes_of(leaves), start)
            &&& is_char_boundary(bytes_of(leaves), end)
            &&& !q.is_regex ==> h == start < end
        },
{
    let b = bytes_of(leaves);
    lemma_leaf_view(leaves, h);
    is_char_boundary_start_end_of_seq(b);
    if q.match_at(leaves, h) is Some {
        if q.is_regex {
            if q.pat.len() > 0 {
                let end = if is_multiline(q.pat) {
                    b.len() as int
                } else {
                    leaf_end(leaves, h)
                };
                let part = b.subrange(h, end);
                let m = regex_match(
                    q.pat,
                    q.matching is CaseInsensitive,
                    decode_utf8(part),
                )->0;
                lemma_boundary_in_stretch(b, h, end, 0);
                decode_utf8_encode_utf8(part);
                lemma_boundary_in_stretch(b, h, end, m.0);
                lemma_boundary_in_stretch(b, h, end, m.1);
            }
        } else {
            match q.matching {
                CaseMatching::Exact => {
                    lemma_encode_len(q.pat);
                    lemma_text_at(b, q.pat, h);
                },
                CaseMatching::CaseInsensitive => {
                    let folded = str_lower(q.pat);
                    let text = chars_from(b, h);
                    let k = choose|k: int| folded_match(text, folded, k);
                    lemma_take_at(b, h, k);
                    lemma_encode_len(text.take(k));
                },
            }
        }
    }
}

/// The first byte of a character's encoding is ASCII exactly if the character is, and
/// then is its code. The two other characters that the scans know start as they say.
proof fn lemma_lead_byte(c: char)
    ensures
        encode_scalar(c as u32).len() > 0,
        c <= '\u{7f}' <==> encode_scalar(c as u32)[0] < 0x80,
        c <= '\u{7f}' ==> encode_scalar(c as u32)[0] == c as u32,
        c == '\u{130}' ==> encode_scalar(c as u32)[0] == 0xc4,
        c == '\u{212a}' ==> encode_scalar(c as u32)[0] == 0xe2,
{
    let u = c as u32;
    char_is_scalar(c);
    if u < 0x80 {
        assert((u & 0x7f) as u8 == u) by (bit_vector)
            requires
                u < 0x80u32,
        ;
    } else {
        assert(0xC0u8 | ((u >> 6) & 0x1F) as u8 >= 0x80) by (bit_vector);
        assert(0xE0u8 | ((u >> 12) & 0x0F) as u8 >= 0x80) by (bit_vector);
        assert(0xF0u8 | ((u >> 18) & 0x7) as u8 >= 0x80) by (bit_vector);
    }
    assert(0xC0u8 | ((0x130u32 >> 6) & 0x1F) as u8 == 0xc4u8) by (bit_vector);
    assert(0xE0u8 | ((0x212au32 >> 12) & 0x0F) as u8 == 0xe2u8) by (bit_vector);
}

/// The first byte of a text's encoding, as far as the scans know it.
pub proof fn lemma_first_byte(text: Seq<char>)
    requires
        text.len() > 0,
    ensures
        encode_utf8(text).len() > 0,
        text[0] <= '\u{7f}' <==> encode_utf8(text)[0] < 0x80,
        text[0] <= '\u{7f}' ==> encode_utf8(text)[0] == text[0] as u32,
        text[0] == '\u{130}' ==> encode_utf8(text)[0] == 0xc4,
        text[0] == '\u{212a}' ==> encode_utf8(text)[0] == 0xe2,
{
    lemma_lead_byte(text[0]);
    assert(encode_utf8(text)[0] == encode_scalar(text[0] as u32)[0]);
}

/// The scan for a pattern that is not a regular expression stops wherever the pattern
/// matches.
pub proof fn lemma_hit_stops(q: Query, leaves: Seq<Seq<char>>, h: int)
    requires
        leaves_ok(leaves),
        q.ok(),
        !q.is_regex,
        0 <= h <= bytes_of(leaves).len(),
        is_char_boundary(bytes_of(leaves), h),
        q.match_at(leaves, h) is Some,
    ensures
        h < bytes_of(leaves).len(),
        q.scanner().stops_at(bytes_of(leaves), h),
{
    let b = bytes_of(leaves);
    lemma_match_bounds(q, leaves, h);
    lemma_leaf_view(leaves, h);
    match q.matching {
        CaseMatching::Exact => {
            let enc = encode_utf8(q.pat);
            lemma_encode_len(q.pat);
            assert(b.subrange(h, h + enc.len())[0] == enc[0]);
        },
        CaseMatching::CaseInsensitive => {
            let folded = str_lower(q.pat);
            let text = chars_from(b, h);
            let k = choose|k: int| folded_match(text, folded, k);
            let c = text[0];
            lemma_str_lower(q.pat);
            lemma_boundary_in_tail(b, h, 0);
            decode_utf8_encode_utf8(tail(b, h));
            lemma_chars_from_step(b, h);
            lemma_first_byte(text);
            lemma_first_byte(folded);
            assert(text.take(1) =~= seq![c]);
            lemma_lower_one(c);
            lemma_char_lower(c);
            lemma_lower_take(text, 1, k);
            let all = lower_each(text.take(k));
            assert(all.subrange(0, char_lower(c).len() as int)[0] == char_lower(c)[0]);
            assert(all.subrange(0, folded.len() as int)[0] == folded[0]);
            assert(tail(b, h)[0] == b[h]);
            if folded[0] <= '\u{7f}' && c <= '\u{7f}' {
                assert(folded[0] == ascii_lower(c));
            }
        },
    }
}

/// What one step achieves. A step that finds reports the first match. One that does not
/// leaves every match ahead of the cursor and comes closer to the end.
pub proof fn lemma_step(q: Query, v: CursorView)
    requires
        v.ok(),
        v.on_boundary(),
        q.ok(),
    ensures
        ({
            let (r, w) = q.step(v);
            &&& w.ok()
            &&& w.on_boundary()
            &&& w.leaves == v.leaves
            &&& v.pos <= w.pos
            &&& r is NotFound <==> !v.valid
            &&& r matches FindResult::Found(p) ==> w.valid && exists|h: int| #[trigger]
                q.first_hit(v, h) && q.match_at(v.leaves, h) == Some((p as int, w.pos))
            &&& r is TryAgain ==> remaining(w) < remaining(v) && forall|h: int| #[trigger]
                q.hit(v, h) <==> q.hit(w, h)
        }),
{
    let (r, w) = q.step(v);
    let b = v.bytes();
    let end = leaf_end(v.leaves, v.pos);
    let rest = b.subrange(v.pos, end);
    let scanner = q.scanner();
    lemma_leaf_view(v.leaves, v.pos);
    is_char_boundary_start_end_of_seq(b);
    if v.valid {
        if exists|i: int| scanner.finds(rest, i) {
            let i = choose|i: int| scanner.finds(rest, i);
            let c = v.pos + i;
            lemma_candidate(q, v, i);
            lemma_match_bounds(q, v.leaves, c);
            assert forall|h: int| h < c implies !#[trigger] q.hit(v, h) by {
                if q.hit(v, h) {
                    lemma_skipped(q, v, i, h);
                }
            }
            if q.match_at(v.leaves, c) is Some {
                assert(q.first_hit(v, c));
            } else if q.is_regex {
                assert(c == v.pos);
                lemma_regex_missed(q, v);
            } else if c < b.len() {
                lemma_next_boundary(b, c);
                assert forall|h: int| #[trigger] q.hit(v, h) <==> q.hit(w, h) by {
                    if q.hit(v, h) {
                        assert(h > c);
                        if h < c + width_at(b, c) {
                            assert(!is_char_boundary(b, h));
                        }
                    }
                }
            }
        } else {
            assert forall|h: int| #[trigger] q.hit(v, h) implies q.hit(w, h) by {
                if q.is_regex {
                    assert(scanner.finds(rest, 0));
                } else {
                    lemma_hit_stops(q, v.leaves, h);
                    if h < end {
                        lemma_stops_in_stretch(scanner, b, v.pos, end, h - v.pos);
                        lemma_finds_some(scanner, rest, h - v.pos);
                    }
                }
            }
        }
    }
}

/// A regular expression that does not match at the cursor is tested next where a step
/// goes on to.
proof fn lemma_regex_missed(q: Query, v: CursorView)
    requires
        v.ok(),
        v.valid,
        v.on_boundary(),
        q.is_regex,
        q.match_at(v.leaves, v.pos) is None,
    ensures
        q.ruled_out(v).ok(),
        q.ruled_out(v).on_boundary(),
        v.pos <= q.ruled_out(v).pos,
        remaining(q.ruled_out(v)) < remaining(v),
        forall|h: int| #[trigger] q.hit(v, h) <==> q.hit(q.ruled_out(v), h),
{
    let w = q.ruled_out(v);
    let b = v.bytes();
    let i = leaf_at(v.leaves, v.pos);
    let end = leaf_end(v.leaves, v.pos);
    lemma_leaf_view(v.leaves, v.pos);
    is_char_boundary_start_end_of_seq(b);
    if end < b.len() {
        lemma_leaf_start(v.leaves, v.pos);
    } else {
        lemma_cut_end(v.leaves);
        lemma_cut_order(v.leaves, i + 1, v.leaves.len() as int);
    }
    assert forall|h: int| #[trigger] q.hit(v, h) <==> q.hit(w, h) by {
        if !is_multiline(q.pat) && v.pos < h <= b.len() && (h < end || end == b.len()) {
            lemma_leaf_at(v.leaves, i, h);
        }
    }
}

/// A place that a scan finds is a boundary of the rope.
pub proof fn lemma_candidate(q: Query, v: CursorView, i: int)
    requires
        v.ok(),
        v.valid,
        v.on_boundary(),
        q.ok(),
        q.scanner().finds(v.bytes().subrange(v.pos, leaf_end(v.leaves, v.pos)), i),
    ensures
        0 <= i,
        v.pos + i <= v.bytes().len(),
        is_char_boundary(v.bytes(), v.pos + i),
{
    let b = v.bytes();
    let end = leaf_end(v.leaves, v.pos);
    lemma_leaf_view(v.leaves, v.pos);
    if !q.is_regex {
        lemma_stops_in_stretch(q.scanner(), b, v.pos, end, i);
        is_char_boundary_iff_not_is_continuation_byte(b, v.pos + i);
        match q.matching {
            CaseMatching::Exact => {
                lemma_encode_len(q.pat);
                lemma_first_lead(q.pat);
            },
            CaseMatching::CaseInsensitive => {},
        }
    }
}

/// The first byte of an encoding is no continuation byte.
pub proof fn lemma_first_lead(text: Seq<char>)
    requires
        text.len() > 0,
    ensures
        encode_utf8(text).len() > 0,
        !is_continuation_byte(encode_utf8(text)[0]),
{
    lemma_encode_len(text);
    encode_utf8_first_scalar(text);
}

/// A scan skips no match.
proof fn lemma_skipped(q: Query, v: CursorView, i: int, h: int)
    requires
        v.ok(),
        v.valid,
        v.on_boundary(),
        q.ok(),
        q.scanner().finds(v.bytes().subrange(v.pos, leaf_end(v.leaves, v.pos)), i),
        q.hit(v, h),
    ensures
        v.pos + i <= h,
{
    let b = v.bytes();
    let end = leaf_end(v.leaves, v.pos);
    lemma_leaf_view(v.leaves, v.pos);
    if !q.is_regex && h < v.pos + i {
        lemma_hit_stops(q, v.leaves, h);
        lemma_stops_in_stretch(q.scanner(), b, v.pos, end, h - v.pos);
        assert(!q.scanner().stops_at(b.subrange(v.pos, end), h - v.pos));
    }
}

} // verus!
