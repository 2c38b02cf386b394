//! What a match is, in terms of the bytes of the rope, the lowercase forms that the
//! standard library gives, and the matches that the `regex` crate reports.

use vstd::prelude::*;
use vstd::utf8::{decode_utf8, encode_utf8, is_ascii_chars, is_char_boundary};

use crate::find::{found, not_found};
use crate::laws::{exact_hits_are_occurrences, exact_match_is_case_insensitive_match};
use crate::leaf_laws::{
    leaf_holds_its_positions, leaf_starts_behind_those_before, text_is_the_leaves_in_order,
};
use crate::lowercase::{
    ascii_lower, char_lower, is_lower_form, is_lower_mapping, lower_each, str_lower, unicode_lower,
    unicode_lowercase,
};
use crate::regex_search::{is_multiline, is_stretch, regex_compiles, regex_match};
use crate::rope::{
    bytes_of, cut, leaf_at, leaves_ok, lemma_cut_end, lemma_cut_order, lemma_leaf_view, CursorView,
};
use crate::search::{
    folded_end, folded_match, lemma_folded_one, occurs_at, query, regex_text, CaseMatching, Query,
};
use crate::text::chars_from;

verus! {

/// Bytes occur somewhere if they stand there one by one.
pub proof fn occurrence_is_byte_for_byte(bytes: Seq<u8>, part: Seq<u8>, p: int)
    ensures
        occurs_at(bytes, part, p) <==> {
            &&& 0 <= p
            &&& p + part.len() <= bytes.len()
            &&& forall|i: int| 0 <= i < part.len() ==> bytes[p + i] == #[trigger] part[i]
        },
{
    if 0 <= p && p + part.len() <= bytes.len() {
        let there = bytes.subrange(p, p + part.len());
        if there == part {
            assert forall|i: int| 0 <= i < part.len() implies bytes[p + i] == #[trigger] part[i] by {
                assert(there[i] == bytes[p + i]);
            }
        }
        if forall|i: int| 0 <= i < part.len() ==> bytes[p + i] == #[trigger] part[i] {
            assert(there =~= part);
        }
    }
}

/// What lowercase mappings are known to be.
pub proof fn lower_mapping_is_plain_in_ascii(c: char, l: Seq<char>)
    ensures
        is_lower_mapping(c, l) <==> {
            &&& l.len() > 0
            &&& 'A' <= c <= 'Z' ==> l == seq![((c as u32) + 32) as char]
            &&& c <= '\u{7f}' && !('A' <= c <= 'Z') ==> l == seq![c]
            &&& c > '\u{7f}' && l[0] <= '\u{7f}' ==> (c == '\u{130}' && l[0] == 'i') || (c
                == '\u{212a}' && l[0] == 'k')
        },
{
}

/// What lowercase forms of strings are known to be.
pub proof fn lower_form_keeps_lowercase_text(s: Seq<char>, t: Seq<char>)
    ensures
        is_lower_form(s, t) <==> {
            &&& s.len() > 0 ==> t.len() > 0
            &&& is_ascii_chars(s) ==> t.len() == s.len() && forall|i: int|
                0 <= i < s.len() ==> #[trigger] t[i] == (if 'A' <= s[i] <= 'Z' {
                    ((s[i] as u32) + 32) as char
                } else {
                    s[i]
                })
            &&& lower_each(s) == s ==> t == s
        },
{
    let mapped = s.map_values(|c: char| ascii_lower(c));
    if is_ascii_chars(s) && t.len() == s.len() && (forall|i: int|
        0 <= i < s.len() ==> #[trigger] t[i] == mapped[i]) {
        assert(t =~= mapped);
    }
}

/// A character in lowercase is what `char::to_lowercase` yields for it, whatever the
/// character.
pub proof fn character_is_lowercased_by_the_standard_library(c: char)
    requires
        is_lower_mapping(c, unicode_lower(c)),
    ensures
        char_lower(c) == unicode_lower(c),
{
}

/// A text in lowercase is that of its characters, one behind the other.
pub proof fn text_is_lowercased_one_by_one(s: Seq<char>)
    requires
        forall|i: int|
            0 <= i < s.len() ==> is_lower_mapping(s[i], #[trigger] unicode_lower(s[i])),
    ensures
        lower_each(s) == s.flat_map(|c: char| unicode_lower(c)),
    decreases s.len(),
{
    let f = |c: char| unicode_lower(c);
    let mapped = s.map_values(f);
    if s.len() > 0 {
        let front = s.drop_last();
        assert forall|i: int| 0 <= i < front.len() implies is_lower_mapping(
            front[i],
            #[trigger] unicode_lower(front[i]),
        ) by {
            assert(front[i] == s[i]);
        }
        text_is_lowercased_one_by_one(front);
        assert(s.last() == s[s.len() - 1]);
        assert(unicode_lower(s[s.len() - 1]) == f(s.last()));
        front.map_values(f).lemma_flatten_push(f(s.last()));
        assert(front.map_values(f).push(f(s.last())) =~= mapped);
    } else {
        assert(mapped =~= Seq::empty());
        assert(mapped.flatten() =~= Seq::empty());
    }
}

/// A pattern in lowercase is what `str::to_lowercase` returns for it, whatever the pattern.
pub proof fn pattern_is_lowercased_by_the_standard_library(s: Seq<char>)
    requires
        is_lower_form(s, unicode_lowercase(s)),
    ensures
        str_lower(s) == unicode_lowercase(s),
{
}

/// Where a pattern that is lowercased character by character stands in the text, a case
/// insensitive search for it matches, and takes just the pattern.
pub proof fn text_of_the_pattern_matches_in_any_case(
    pat: Seq<char>,
    leaves: Seq<Seq<char>>,
    h: int,
)
    requires
        leaves_ok(leaves),
        pat.len() > 0,
        is_lower_form(pat, unicode_lowercase(pat)),
        unicode_lowercase(pat) == lower_each(pat),
        0 <= h,
        h + encode_utf8(pat).len() <= encode_utf8(leaves.flatten()).len(),
        is_char_boundary(encode_utf8(leaves.flatten()), h),
        encode_utf8(leaves.flatten()).subrange(h, h + encode_utf8(pat).len()) == encode_utf8(pat),
    ensures
        query(CaseMatching::CaseInsensitive, pat, false).match_at(leaves, h) == Some(
            (h, h + encode_utf8(pat).len()),
        ),
{
    text_is_the_leaves_in_order(leaves);
    exact_match_is_case_insensitive_match(pat, leaves, h);
}

/// A comparison in lowercase takes as many characters as it needs to cover the pattern:
/// their lowercase forms start with it, and those of one fewer are too short.
pub proof fn comparison_takes_what_covers_the_pattern(
    bytes: Seq<u8>,
    folded: Seq<char>,
    p: int,
    k: int,
)
    requires
        0 < k <= decode_utf8(bytes.subrange(p, bytes.len() as int)).len(),
        forall|i: int|
            0 <= i < k ==> is_lower_mapping(
                decode_utf8(bytes.subrange(p, bytes.len() as int))[i],
                #[trigger] unicode_lower(decode_utf8(bytes.subrange(p, bytes.len() as int))[i]),
            ),
        folded.is_prefix_of(
            decode_utf8(bytes.subrange(p, bytes.len() as int)).take(k).flat_map(
                |c: char| unicode_lower(c),
            ),
        ),
        decode_utf8(bytes.subrange(p, bytes.len() as int)).take(k - 1).flat_map(
            |c: char| unicode_lower(c),
        ).len() < folded.len(),
    ensures
        folded_end(bytes, folded, p) == Some(
            p + encode_utf8(decode_utf8(bytes.subrange(p, bytes.len() as int)).take(k)).len(),
        ),
{
    let text = chars_from(bytes, p);
    assert forall|i: int| 0 <= i < k implies is_lower_mapping(
        text.take(k)[i],
        #[trigger] unicode_lower(text.take(k)[i]),
    ) by {
        assert(unicode_lower(text[i]) == unicode_lower(text.take(k)[i]));
    }
    assert forall|i: int| 0 <= i < k - 1 implies is_lower_mapping(
        text.take(k - 1)[i],
        #[trigger] unicode_lower(text.take(k - 1)[i]),
    ) by {
        assert(unicode_lower(text[i]) == unicode_lower(text.take(k - 1)[i]));
    }
    text_is_lowercased_one_by_one(text.take(k));
    text_is_lowercased_one_by_one(text.take(k - 1));
    assert(folded_match(text, folded, k));
    lemma_folded_one(text, folded, k, choose|l: int| folded_match(text, folded, l));
}

/// A comparison in lowercase succeeds only where some characters cover the pattern.
pub proof fn comparison_fails_where_nothing_covers_the_pattern(
    bytes: Seq<u8>,
    folded: Seq<char>,
    p: int,
)
    requires
        forall|i: int|
            0 <= i < decode_utf8(bytes.subrange(p, bytes.len() as int)).len()
                ==> is_lower_mapping(
                decode_utf8(bytes.subrange(p, bytes.len() as int))[i],
                #[trigger] unicode_lower(decode_utf8(bytes.subrange(p, bytes.len() as int))[i]),
            ),
        folded.len() > 0,
        forall|k: int|
            0 < k <= decode_utf8(bytes.subrange(p, bytes.len() as int)).len()
                ==> !folded.is_prefix_of(
                (#[trigger] decode_utf8(bytes.subrange(p, bytes.len() as int)).take(k)).flat_map(
                    |c: char| unicode_lower(c),
                ),
            ),
    ensures
        folded_end(bytes, folded, p) is None,
{
    let text = chars_from(bytes, p);
    assert forall|k: int| !folded_match(text, folded, k) by {
        if folded_match(text, folded, k) {
            assert forall|i: int| 0 <= i < k implies is_lower_mapping(
                text.take(k)[i],
                #[trigger] unicode_lower(text.take(k)[i]),
            ) by {
                assert(unicode_lower(text[i]) == unicode_lower(text.take(k)[i]));
            }
            text_is_lowercased_one_by_one(text.take(k));
        }
    }
}

/// A case insensitive match is a comparison with what `str::to_lowercase` returns for the
/// pattern, whatever the pattern.
pub proof fn case_insensitive_match_compares_lowercase_forms(
    pat: Seq<char>,
    leaves: Seq<Seq<char>>,
    h: int,
)
    requires
        is_lower_form(pat, unicode_lowercase(pat)),
    ensures
        query(CaseMatching::CaseInsensitive, pat, false).match_at(leaves, h) == (match folded_end(
            encode_utf8(leaves.flatten()),
            unicode_lowercase(pat),
            h,
        ) {
            Some(end) => Some((h, end)),
            None => None,
        }),
{
    text_is_the_leaves_in_order(leaves);
}

/// An exact match is there where all the bytes of the pattern are, and takes them all.
pub proof fn exact_match_is_byte_for_byte(pat: Seq<char>, leaves: Seq<Seq<char>>, h: int)
    ensures
        query(CaseMatching::Exact, pat, false).match_at(leaves, h) == (if 0 <= h && h + encode_utf8(
            pat,
        ).len() <= encode_utf8(leaves.flatten()).len() && (forall|i: int|
            0 <= i < encode_utf8(pat).len() ==> encode_utf8(leaves.flatten())[h + i]
                == #[trigger] encode_utf8(pat)[i]) {
            Some((h, h + encode_utf8(pat).len()))
        } else {
            None
        }),
{
    text_is_the_leaves_in_order(leaves);
    occurrence_is_byte_for_byte(bytes_of(leaves), encode_utf8(pat), h);
}

/// A regular expression that can match several lines is matched against all the text that
/// follows.
pub proof fn regex_over_lines_reads_to_the_end(leaves: Seq<Seq<char>>, pat: Seq<char>, h: int)
    requires
        is_multiline(pat),
    ensures
        regex_text(leaves, pat, h) == decode_utf8(
            encode_utf8(leaves.flatten()).subrange(
                h,
                encode_utf8(leaves.flatten()).len() as int,
            ),
        ),
{
    text_is_the_leaves_in_order(leaves);
}

/// Any other regular expression is matched against the text that follows in the same leaf.
pub proof fn regex_on_a_line_reads_its_leaf(
    leaves: Seq<Seq<char>>,
    pat: Seq<char>,
    h: int,
    i: int,
)
    requires
        !is_multiline(pat),
        leaves_ok(leaves),
        0 <= i < leaves.len(),
        encode_utf8(leaves.take(i).flatten()).len() <= h,
        h < encode_utf8(leaves.take(i + 1).flatten()).len() || (i + 1 == leaves.len() && h
            == encode_utf8(leaves.flatten()).len()),
    ensures
        regex_text(leaves, pat, h) == decode_utf8(
            encode_utf8(leaves.flatten()).subrange(
                h,
                encode_utf8(leaves.take(i + 1).flatten()).len() as int,
            ),
        ),
{
    text_is_the_leaves_in_order(leaves);
    leaf_holds_its_positions(leaves, i, h);
}

/// What can be a match: a stretch of the text between two characters.
pub proof fn stretch_lies_between_characters(text: Seq<char>, s: int, e: int)
    ensures
        is_stretch(text, (s, e)) <==> {
            &&& 0 <= s <= e <= encode_utf8(text).len()
            &&& is_char_boundary(encode_utf8(text), s)
            &&& is_char_boundary(encode_utf8(text), e)
        },
{
}

/// A regular expression that can match several lines has at a place the match that the
/// `regex` crate reports, under the case setting of the query, for all the text from there
/// on, however far behind it starts and however long it is.
pub proof fn regex_over_lines_matches_as_reported(
    cm: CaseMatching,
    pat: Seq<char>,
    leaves: Seq<Seq<char>>,
    h: int,
    text: Seq<char>,
)
    requires
        pat.len() > 0,
        is_multiline(pat),
        regex_compiles(pat, 10000, cm is CaseInsensitive, usize::BITS as int),
        text == decode_utf8(
            encode_utf8(leaves.flatten()).subrange(
                h,
                encode_utf8(leaves.flatten()).len() as int,
            ),
        ),
    ensures
        query(cm, pat, true).match_at(leaves, h) == (match regex_match(
            pat,
            cm is CaseInsensitive,
            text,
        ) {
            Some((s, e)) => if 0 <= s <= e <= encode_utf8(text).len() && is_char_boundary(
                encode_utf8(text),
                s,
            ) && is_char_boundary(encode_utf8(text), e) {
                Some((h + s, h + e))
            } else {
                None
            },
            None => None,
        }),
{
    text_is_the_leaves_in_order(leaves);
}

/// Any other regular expression has at a place the match that the `regex` crate reports,
/// under the case setting of the query, for the text from there to the end of the leaf,
/// however long it is.
pub proof fn regex_on_a_line_matches_as_reported(
    cm: CaseMatching,
    pat: Seq<char>,
    leaves: Seq<Seq<char>>,
    h: int,
    i: int,
    text: Seq<char>,
)
    requires
        pat.len() > 0,
        !is_multiline(pat),
        regex_compiles(pat, 10000, cm is CaseInsensitive, usize::BITS as int),
        leaves_ok(leaves),
        0 <= i < leaves.len(),
        encode_utf8(leaves.take(i).flatten()).len() <= h,
        h < encode_utf8(leaves.take(i + 1).flatten()).len() || (i + 1 == leaves.len() && h
            == encode_utf8(leaves.flatten()).len()),
        text == decode_utf8(
            encode_utf8(leaves.flatten()).subrange(
                h,
                encode_utf8(leaves.take(i + 1).flatten()).len() as int,
            ),
        ),
    ensures
        query(cm, pat, true).match_at(leaves, h) == (match regex_match(
            pat,
            cm is CaseInsensitive,
            text,
        ) {
            Some((s, e)) => if 0 <= s <= e <= encode_utf8(text).len() && is_char_boundary(
                encode_utf8(text),
                s,
            ) && is_char_boundary(encode_utf8(text), e) {
                Some((h + s, h + e))
            } else {
                None
            },
            None => None,
        }),
{
    regex_on_a_line_reads_its_leaf(leaves, pat, h, i);
}

/// An expression that does not compile under the case setting of the query, within 10000
/// bytes, has no match. The empty one matches everywhere, and takes nothing.
pub proof fn regex_without_a_match_of_its_own(
    cm: CaseMatching,
    pat: Seq<char>,
    leaves: Seq<Seq<char>>,
    h: int,
)
    ensures
        pat.len() > 0 && !regex_compiles(pat, 10000, cm is CaseInsensitive, usize::BITS as int)
            ==> query(cm, pat, true).match_at(leaves, h) is None,
        pat.len() == 0 ==> query(cm, pat, true).match_at(leaves, h) == Some((h, h)),
{
}

/// Where the `regex` crate reports the same for the two case settings, so does a search.
/// The case setting of a search has no other influence on it.
pub proof fn case_setting_matters_only_to_the_regex(
    pat: Seq<char>,
    leaves: Seq<Seq<char>>,
    h: int,
)
    requires
        forall|text: Seq<char>| #[trigger]
            regex_match(pat, true, text) == regex_match(pat, false, text),
        regex_compiles(pat, 10000, true, usize::BITS as int) == regex_compiles(
            pat,
            10000,
            false,
            usize::BITS as int,
        ),
    ensures
        query(CaseMatching::Exact, pat, true).match_at(leaves, h) == query(
            CaseMatching::CaseInsensitive,
            pat,
            true,
        ).match_at(leaves, h),
{
}

/// A pattern that is not a regular expression is found at every place, at or behind the
/// cursor, where a character starts and it matches.
pub proof fn plain_patterns_are_sought_everywhere(
    cm: CaseMatching,
    pat: Seq<char>,
    v: CursorView,
    h: int,
)
    ensures
        query(cm, pat, false).hit(v, h) <==> {
            &&& v.valid
            &&& v.pos <= h <= encode_utf8(v.leaves.flatten()).len()
            &&& is_char_boundary(encode_utf8(v.leaves.flatten()), h)
            &&& query(cm, pat, false).match_at(v.leaves, h) is Some
        },
{
    text_is_the_leaves_in_order(v.leaves);
}

/// A regular expression that can match several lines is matched once, from the cursor on.
pub proof fn regex_over_lines_is_sought_from_the_cursor(
    cm: CaseMatching,
    pat: Seq<char>,
    v: CursorView,
    h: int,
)
    requires
        is_multiline(pat),
        v.ok(),
        is_char_boundary(encode_utf8(v.leaves.flatten()), v.pos),
    ensures
        query(cm, pat, true).hit(v, h) <==> v.valid && h == v.pos && query(cm, pat, true).match_at(
            v.leaves,
            v.pos,
        ) is Some,
{
    text_is_the_leaves_in_order(v.leaves);
}

/// Any other regular expression is matched from the cursor on, and anew from the start of
/// every later leaf.
pub proof fn regex_on_a_line_is_sought_in_every_leaf(
    cm: CaseMatching,
    pat: Seq<char>,
    v: CursorView,
    h: int,
)
    requires
        !is_multiline(pat),
        v.ok(),
        is_char_boundary(encode_utf8(v.leaves.flatten()), v.pos),
    ensures
        query(cm, pat, true).hit(v, h) <==> {
            &&& v.valid
            &&& h == v.pos || v.pos < h && exists|i: int|
                0 <= i < v.leaves.len() && h == encode_utf8(
                    #[trigger] v.leaves.take(i).flatten(),
                ).len()
            &&& query(cm, pat, true).match_at(v.leaves, h) is Some
        },
{
    let q = query(cm, pat, true);
    let n = v.leaves.len() as int;
    text_is_the_leaves_in_order(v.leaves);
    if v.pos <= h <= v.bytes().len() {
        lemma_leaf_view(v.leaves, h);
        let i = leaf_at(v.leaves, h);
        leaf_starts_behind_those_before(v.leaves, i);
        if cut(v.leaves, i) == h {
            assert(h == encode_utf8(v.leaves.take(i).flatten()).len());
        }
    }
    if exists|i: int|
        0 <= i < n && h == encode_utf8(#[trigger] v.leaves.take(i).flatten()).len() {
        let i = choose|i: int|
            0 <= i < n && h == encode_utf8(#[trigger] v.leaves.take(i).flatten()).len();
        leaf_starts_behind_those_before(v.leaves, i);
        leaf_starts_behind_those_before(v.leaves, i + 1);
        lemma_cut_order(v.leaves, i, i + 1);
        lemma_cut_order(v.leaves, i, n);
        lemma_cut_end(v.leaves);
        leaf_holds_its_positions(v.leaves, i, h);
        lemma_leaf_view(v.leaves, h);
    }
}

/// What is found is a match, none lies before it, and the cursor is put right behind it.
pub proof fn found_is_the_first_match(q: Query, v: CursorView, start: int, w: CursorView)
    ensures
        found(q, v, start, w) <==> {
            &&& w.leaves == v.leaves
            &&& w.valid
            &&& exists|h: int| #[trigger]
                q.hit(v, h) && q.match_at(v.leaves, h) == Some((start, w.pos)) && forall|g: int|
                    g < h ==> !#[trigger] q.hit(v, g)
        },
{
    if w.leaves == v.leaves && w.valid && exists|h: int| #[trigger]
        q.hit(v, h) && q.match_at(v.leaves, h) == Some((start, w.pos)) && forall|g: int|
            g < h ==> !#[trigger] q.hit(v, g) {
        let h = choose|h: int| #[trigger]
            q.hit(v, h) && q.match_at(v.leaves, h) == Some((start, w.pos)) && forall|g: int|
                g < h ==> !#[trigger] q.hit(v, g);
        assert(q.first_hit(v, h));
        assert(w == v.moved_to(w.pos));
    }
}

/// Nothing is found only if there is no match, and the cursor has then run off the end.
pub proof fn not_found_means_no_match(q: Query, v: CursorView, w: CursorView)
    ensures
        not_found(q, v, w) <==> {
            &&& w.leaves == v.leaves
            &&& w.pos == encode_utf8(v.leaves.flatten()).len()
            &&& !w.valid
            &&& forall|h: int| !#[trigger] q.hit(v, h)
        },
{
    text_is_the_leaves_in_order(v.leaves);
}

/// What an exact search finds: the bytes of the pattern, and no such bytes anywhere from
/// the cursor to there.
pub proof fn exact_search_finds_the_first_occurrence(
    pat: Seq<char>,
    v: CursorView,
    start: int,
    w: CursorView,
)
    requires
        v.ok(),
        v.valid,
        pat.len() > 0,
    ensures
        found(query(CaseMatching::Exact, pat, false), v, start, w) <==> {
            let b = encode_utf8(v.leaves.flatten());
            let n = encode_utf8(pat).len();
            &&& w == (CursorView { leaves: v.leaves, pos: start + n, valid: true })
            &&& v.pos <= start <= b.len() - n
            &&& b.subrange(start, start + n) == encode_utf8(pat)
            &&& forall|g: int|
                v.pos <= g < start ==> #[trigger] b.subrange(g, g + n) != encode_utf8(pat)
        },
        not_found(query(CaseMatching::Exact, pat, false), v, w) <==> {
            let b = encode_utf8(v.leaves.flatten());
            let n = encode_utf8(pat).len();
            &&& w == (CursorView { leaves: v.leaves, pos: b.len() as int, valid: false })
            &&& forall|g: int|
                v.pos <= g <= b.len() - n ==> #[trigger] b.subrange(g, g + n) != encode_utf8(pat)
        },
{
    let q = query(CaseMatching::Exact, pat, false);
    let b = encode_utf8(v.leaves.flatten());
    let enc = encode_utf8(pat);
    text_is_the_leaves_in_order(v.leaves);
    assert forall|g: int|
        #![trigger q.hit(v, g)]
        #![trigger b.subrange(g, g + enc.len())]
        q.hit(v, g) <==> v.pos <= g <= b.len() - enc.len() && b.subrange(g, g + enc.len())
            == enc by {
        exact_hits_are_occurrences(pat, v, g);
    }
    found_is_the_first_match(q, v, start, w);
    if found(q, v, start, w) {
        assert(q.hit(v, start));
    }
    if w == (CursorView { leaves: v.leaves, pos: start + enc.len(), valid: true }) && v.pos <= start
        <= b.len() - enc.len() && b.subrange(start, start + enc.len()) == enc && (forall|g: int|
        v.pos <= g < start ==> #[trigger] b.subrange(g, g + enc.len()) != enc) {
        assert(q.hit(v, start));
        assert forall|g: int| g < start implies !#[trigger] q.hit(v, g) by {
            if q.hit(v, g) {
                assert(b.subrange(g, g + enc.len()) == enc);
            }
        }
    }
    if not_found(q, v, w) {
        assert forall|g: int| v.pos <= g <= b.len() - enc.len() implies #[trigger] b.subrange(
            g,
            g + enc.len(),
        ) != enc by {
            assert(!q.hit(v, g));
        }
    }
}

/// What a search for a regular expression that can match several lines finds: the match
/// that the `regex` crate reports for all the text from the cursor on, under the case
/// setting of the search. Nothing is found only if it reports nothing.
pub proof fn regex_search_over_lines_finds_what_is_reported(
    cm: CaseMatching,
    pat: Seq<char>,
    v: CursorView,
    start: int,
    w: CursorView,
    text: Seq<char>,
)
    requires
        v.ok(),
        v.valid,
        is_char_boundary(encode_utf8(v.leaves.flatten()), v.pos),
        pat.len() > 0,
        is_multiline(pat),
        regex_compiles(pat, 10000, cm is CaseInsensitive, usize::BITS as int),
        text == decode_utf8(
            encode_utf8(v.leaves.flatten()).subrange(
                v.pos,
                encode_utf8(v.leaves.flatten()).len() as int,
            ),
        ),
        regex_match(pat, cm is CaseInsensitive, text) matches Some(m) ==> {
            &&& 0 <= m.0 <= m.1 <= encode_utf8(text).len()
            &&& is_char_boundary(encode_utf8(text), m.0)
            &&& is_char_boundary(encode_utf8(text), m.1)
        },
    ensures
        found(query(cm, pat, true), v, start, w) <==> regex_match(pat, cm is CaseInsensitive, text)
            == Some((start - v.pos, w.pos - v.pos)) && w.leaves == v.leaves && w.valid,
        not_found(query(cm, pat, true), v, w) <==> regex_match(pat, cm is CaseInsensitive, text)
            is None && w == v.exhausted(),
{
    let q = query(cm, pat, true);
    regex_over_lines_matches_as_reported(cm, pat, v.leaves, v.pos, text);
    assert forall|h: int| #[trigger] q.hit(v, h) <==> h == v.pos && q.match_at(v.leaves, v.pos)
        is Some by {
        regex_over_lines_is_sought_from_the_cursor(cm, pat, v, h);
    }
    found_is_the_first_match(q, v, start, w);
    if q.match_at(v.leaves, v.pos) is Some {
        assert(q.hit(v, v.pos));
    }
}

/// What a search for any other regular expression finds: the match that the `regex` crate
/// reports for the rest of the leaf that the cursor is in, if it reports one.
pub proof fn regex_search_on_a_line_finds_what_is_reported(
    cm: CaseMatching,
    pat: Seq<char>,
    v: CursorView,
    start: int,
    w: CursorView,
    i: int,
    text: Seq<char>,
)
    requires
        v.ok(),
        v.valid,
        is_char_boundary(encode_utf8(v.leaves.flatten()), v.pos),
        pat.len() > 0,
        !is_multiline(pat),
        regex_compiles(pat, 10000, cm is CaseInsensitive, usize::BITS as int),
        0 <= i < v.leaves.len(),
        encode_utf8(v.leaves.take(i).flatten()).len() <= v.pos,
        v.pos < encode_utf8(v.leaves.take(i + 1).flatten()).len() || (i + 1 == v.leaves.len()
            && v.pos == encode_utf8(v.leaves.flatten()).len()),
        text == decode_utf8(
            encode_utf8(v.leaves.flatten()).subrange(
                v.pos,
                encode_utf8(v.leaves.take(i + 1).flatten()).len() as int,
            ),
        ),
        regex_match(pat, cm is CaseInsensitive, text) matches Some(m) && {
            &&& 0 <= m.0 <= m.1 <= encode_utf8(text).len()
            &&& is_char_boundary(encode_utf8(text), m.0)
            &&& is_char_boundary(encode_utf8(text), m.1)
        },
    ensures
        found(query(cm, pat, true), v, start, w) <==> regex_match(pat, cm is CaseInsensitive, text)
            == Some((start - v.pos, w.pos - v.pos)) && w.leaves == v.leaves && w.valid,
        !not_found(query(cm, pat, true), v, w),
{
    let q = query(cm, pat, true);
    regex_on_a_line_matches_as_reported(cm, pat, v.leaves, v.pos, i, text);
    regex_on_a_line_is_sought_in_every_leaf(cm, pat, v, v.pos);
    found_is_the_first_match(q, v, start, w);
    assert(q.hit(v, v.pos));
    assert forall|h: int| h < v.pos implies !#[trigger] q.hit(v, h) by {}
}

/// What a case insensitive search finds is not behind the first place where characters
/// cover the lowercase pattern, and it finds something if there is such a place. They may
/// be any characters, inside and outside of ASCII, in any leaf.
pub proof fn case_insensitive_search_misses_nothing(
    pat: Seq<char>,
    v: CursorView,
    start: int,
    w: CursorView,
    h: int,
    text: Seq<char>,
    k: int,
)
    requires
        v.ok(),
        v.valid,
        pat.len() > 0,
        is_lower_form(pat, unicode_lowercase(pat)),
        v.pos <= h <= encode_utf8(v.leaves.flatten()).len(),
        is_char_boundary(encode_utf8(v.leaves.flatten()), h),
        text == decode_utf8(
            encode_utf8(v.leaves.flatten()).subrange(
                h,
                encode_utf8(v.leaves.flatten()).len() as int,
            ),
        ),
        0 < k <= text.len(),
        forall|i: int|
            0 <= i < k ==> is_lower_mapping(text[i], #[trigger] unicode_lower(text[i])),
        unicode_lowercase(pat).is_prefix_of(text.take(k).flat_map(|c: char| unicode_lower(c))),
        text.take(k - 1).flat_map(|c: char| unicode_lower(c)).len() < unicode_lowercase(pat).len(),
    ensures
        !not_found(query(CaseMatching::CaseInsensitive, pat, false), v, w),
        found(query(CaseMatching::CaseInsensitive, pat, false), v, start, w) ==> start <= h,
        found(query(CaseMatching::CaseInsensitive, pat, false), v, h, w) ==> w.pos == h
            + encode_utf8(text.take(k)).len(),
{
    let q = query(CaseMatching::CaseInsensitive, pat, false);
    let b = encode_utf8(v.leaves.flatten());
    comparison_takes_what_covers_the_pattern(b, unicode_lowercase(pat), h, k);
    case_insensitive_match_compares_lowercase_forms(pat, v.leaves, h);
    plain_patterns_are_sought_everywhere(CaseMatching::CaseInsensitive, pat, v, h);
    assert(q.hit(v, h));
    found_is_the_first_match(q, v, start, w);
    found_is_the_first_match(q, v, h, w);
}

} // verus!
