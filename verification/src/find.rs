//! Finding a pattern in a rope.

use vstd::prelude::*;
use vstd::string::StringExecFns;
use vstd::utf8::{
    encode_utf8, encode_utf8_decode_utf8, encode_utf8_valid_utf8,
    is_char_boundary_start_end_of_seq, valid_utf8,
};

use crate::laws::progress_is_right;
use crate::lowercase::{
    is_lower_form, lemma_lower_concat, lemma_lower_one, lemma_str_lower, lower_char, lower_each,
    str_lower, unicode_lowercase,
};
use crate::regex_search::{
    chars_of, is_multiline, is_multiline_regex, is_stretch, regex_compiles, regex_find, regex_match,
    REGEX_SIZE_LIMIT,
};
use crate::rope::{
    cut, leaf_at, leaf_end, lemma_leaf_at, lemma_leaf_start, lemma_leaf_view, text_of, Cursor,
    CursorView,
};
use crate::scan::{scanner_for_folded, Scanner};
use crate::search::{
    folded_end, folded_match, lemma_candidate, lemma_finds_one, lemma_folded_one,
    lemma_lower_take, lemma_match_bounds, lemma_step, lemma_text_at, occurs_at, query, regex_at, regex_text,
    remaining, CaseMatching, FindResult, Query,
};
use crate::text::{chars_from, lemma_chars_from_step, lemma_encode_concat, lemma_encode_len, tail};

verus! {

/// Whether `m` bytes of `part` agree with those from position `p` on, and no more.
pub open spec fn agrees_for(bytes: Seq<u8>, part: Seq<u8>, p: int, m: int) -> bool {
    &&& 0 <= m <= part.len()
    &&& p + m <= bytes.len()
    &&& bytes.subrange(p, p + m) == part.subrange(0, m)
    &&& m < part.len() && p + m < bytes.len() ==> bytes[p + m] != part[m]
}

/// Where a comparison from `v` on that agrees for `m` bytes leaves the cursor when it
/// fails: at the start of the leaf in which it failed, but not before `v`, or run off the
/// end if the text ended first.
pub open spec fn stalled(v: CursorView, m: int) -> CursorView {
    let start = cut(v.leaves, leaf_at(v.leaves, v.pos + m));
    if v.pos + m == v.bytes().len() {
        v.exhausted()
    } else if start < v.pos {
        v.moved_to(v.pos)
    } else {
        v.moved_to(start)
    }
}

/// How many bytes agree from two offsets on, up to a limit.
fn agreeing(a: &[u8], i: usize, b: &[u8], j: usize, limit: usize) -> (m: usize)
    requires
        i + limit <= a@.len(),
        j + limit <= b@.len(),
    ensures
        m <= limit,
        a@.subrange(i as int, i + m) == b@.subrange(j as int, j + m),
        m < limit ==> a@[i + m] != b@[j + m],
{
    let a_len: usize = a.len();
    let b_len: usize = b.len();
    let mut m: usize = 0;
    assert(a@.subrange(i as int, i + m) =~= b@.subrange(j as int, j + m));
    while m < limit && a[i + m] == b[j + m]
        invariant
            m <= limit,
            i + limit <= a_len == a@.len(),
            j + limit <= b_len == b@.len(),
            a@.subrange(i as int, i + m) == b@.subrange(j as int, j + m),
        decreases limit - m,
    {
        proof {
            assert(a@.subrange(i as int, i + m + 1) =~= a@.subrange(i as int, i + m).push(
                a@[i + m],
            ));
            assert(b@.subrange(j as int, j + m + 1) =~= b@.subrange(j as int, j + m).push(
                b@[j + m],
            ));
        }
        m = m + 1;
    }
    m
}

/// Compares whether the text at the cursor starts with the given string. Returns the
/// start position of the match, and leaves the cursor behind the match. A failed
/// comparison leaves the cursor at or behind where it was.
pub fn compare_cursor_str(cursor: &mut Cursor, pat: &str) -> (r: Option<usize>)
    requires
        old(cursor).wf(),
    ensures
        final(cursor).wf(),
        r is Some <==> occurs_at(old(cursor)@.bytes(), encode_utf8(pat@), old(cursor)@.pos),
        r matches Some(p) ==> p == old(cursor)@.pos,
        r is Some ==> final(cursor)@ == (if pat@.len() == 0 {
            old(cursor)@
        } else {
            old(cursor)@.moved_to(old(cursor)@.pos + encode_utf8(pat@).len())
        }),
        old(cursor)@.on_boundary() ==> final(cursor)@.on_boundary(),
        r is None ==> exists|m: int| #[trigger]
            agrees_for(old(cursor)@.bytes(), encode_utf8(pat@), old(cursor)@.pos, m)
                && final(cursor)@ == stalled(old(cursor)@, m),
{
    let ghost v = cursor@;
    let ghost b = v.bytes();
    let start_position = cursor.pos();
    let pat_bytes = pat.as_bytes();
    let total: usize = pat_bytes.len();
    let mut done: usize = 0;
    proof {
        lemma_encode_len(pat@);
        assert(b.subrange(v.pos, v.pos) =~= pat_bytes@.subrange(0, 0));
    }
    if pat.is_empty() {
        assert(pat_bytes@ =~= b.subrange(v.pos, v.pos));
        return Some(start_position);
    }
    loop
        invariant
            cursor.wf(),
            v == old(cursor)@,
            v.ok(),
            b == v.bytes(),
            v.pos == start_position,
            pat_bytes@ == encode_utf8(pat@),
            total == pat_bytes@.len(),
            pat@.len() > 0,
            done < total,
            v.pos + done <= b.len(),
            b.subrange(v.pos, v.pos + done) == pat_bytes@.subrange(0, done as int),
            cursor@.leaves == v.leaves,
            cursor@.pos == v.pos + done,
            done == 0 ==> cursor@ == v || cursor@ == v.exhausted(),
            done > 0 && cursor@.valid ==> cut(v.leaves, leaf_at(v.leaves, v.pos + done)) == v.pos
                + done,
            cursor@.ok(),
        decreases remaining(cursor@),
    {
        let ghost w = cursor@;
        let (leaf, pos_in_leaf) = match cursor.get_leaf() {
            Some(at) => at,
            None => {
                proof {
                    assert(agrees_for(b, pat_bytes@, v.pos, done as int));
                    encode_utf8_valid_utf8(text_of(v.leaves));
                    is_char_boundary_start_end_of_seq(b);
                }
                return None;
            },
        };
        let leaf_bytes = leaf.as_str().as_bytes();
        proof {
            lemma_leaf_view(v.leaves, w.pos);
        }
        let in_leaf: usize = leaf_bytes.len() - pos_in_leaf;
        let n: usize = if total - done < in_leaf {
            total - done
        } else {
            in_leaf
        };
        let m: usize = agreeing(leaf_bytes, pos_in_leaf, pat_bytes, done, n);
        let ghost k = done + m;
        proof {
            assert(leaf_bytes@.subrange(pos_in_leaf as int, pos_in_leaf + m) =~= b.subrange(
                w.pos,
                w.pos + m,
            ));
            assert(b.subrange(v.pos, v.pos + k) =~= b.subrange(v.pos, w.pos) + b.subrange(
                w.pos,
                w.pos + m,
            ));
            assert(pat_bytes@.subrange(0, k) =~= pat_bytes@.subrange(0, done as int)
                + pat_bytes@.subrange(done as int, k));
        }
        if m < n {
            proof {
                assert(b[v.pos + k] != pat_bytes@[k]);
                assert(agrees_for(b, pat_bytes@, v.pos, k));
                lemma_leaf_at(v.leaves, leaf_at(v.leaves, w.pos), v.pos + k);
                lemma_leaf_view(v.leaves, v.pos + k);
                if occurs_at(b, pat_bytes@, v.pos) {
                    assert(b.subrange(v.pos, v.pos + total)[k] == b[v.pos + k]);
                }
            }
            return None;
        }
        done = done + n;
        if done == total {
            proof {
                assert(pat_bytes@.subrange(0, total as int) =~= pat_bytes@);
                if v.on_boundary() {
                    lemma_text_at(b, pat@, v.pos);
                }
            }
            cursor.set(start_position + total);
            return Some(start_position);
        }
        let _ = cursor.next_leaf();
        proof {
            if cursor@.valid {
                lemma_leaf_start(v.leaves, w.pos);
            }
        }
    }
}

/// Whether `lower` agrees with `folded` from index `i` on, as far as both go.
pub open spec fn goes_along(folded: Seq<char>, i: int, lower: Seq<char>) -> bool {
    forall|t: int|
        0 <= t < lower.len() && i + t < folded.len() ==> #[trigger] lower[t] == folded[i + t]
}

/// Goes along a lowercased pattern by the lowercase form of one character. Returns the
/// index reached in the pattern, or nothing if they disagree.
pub fn advance(folded: &Vec<char>, i: usize, lower: &Vec<char>) -> (r: Option<usize>)
    requires
        i <= folded@.len(),
    ensures
        r is Some <==> goes_along(folded@, i as int, lower@),
        r matches Some(j) ==> j == (if i + lower@.len() < folded@.len() {
            i + lower@.len()
        } else {
            folded@.len() as int
        }),
{
    let n: usize = folded.len();
    let mut t: usize = 0;
    while t < lower.len() && t < n - i
        invariant
            i <= n == folded@.len(),
            t <= lower@.len(),
            i + t <= folded@.len(),
            forall|u: int| 0 <= u < t ==> #[trigger] lower@[u] == folded@[i + u],
        decreases lower@.len() - t,
    {
        if lower[t] != folded[i + t] {
            return None;
        }
        t = t + 1;
    }
    Some(i + t)
}

/// Whether `a` and `b` agree as far as both go.
pub open spec fn follows(a: Seq<char>, b: Seq<char>) -> bool {
    a.is_prefix_of(b) || b.is_prefix_of(a)
}

/// Whether `k` characters of `text`, in lowercase, go along `folded` without completing
/// it, and the next one, if there is one, does not.
pub open spec fn stalls_after(text: Seq<char>, folded: Seq<char>, k: int) -> bool {
    &&& 0 <= k <= text.len()
    &&& lower_each(text.take(k)).is_prefix_of(folded)
    &&& lower_each(text.take(k)).len() < folded.len()
    &&& k < text.len() ==> !follows(lower_each(text.take(k + 1)), folded)
}

/// Where a case insensitive comparison from `v` on that fails after `k` characters leaves
/// the cursor: behind the character that did not match, or run off the end.
pub open spec fn stalled_casei(v: CursorView, k: int) -> CursorView {
    let text = chars_from(v.bytes(), v.pos);
    if k == text.len() {
        v.exhausted()
    } else {
        v.moved_to(v.pos + encode_utf8(text.take(k + 1)).len())
    }
}

/// Like `compare_cursor_str` but case invariant (using `to_lowercase` to normalize both
/// strings before comparison). Returns the start position of the match. The last
/// character matched counts as matched whole.
pub fn compare_cursor_str_casei(cursor: &mut Cursor, pat: &str) -> (r: Option<usize>)
    requires
        old(cursor).wf(),
        old(cursor)@.on_boundary(),
        pat@.len() > 0,
    ensures
        final(cursor).wf(),
        final(cursor)@.on_boundary(),
        is_lower_form(pat@, unicode_lowercase(pat@)),
        str_lower(pat@) == unicode_lowercase(pat@),
        match folded_end(old(cursor)@.bytes(), str_lower(pat@), old(cursor)@.pos) {
            Some(end) => r == Some(old(cursor)@.pos as usize) && final(cursor)@
                == old(cursor)@.moved_to(end),
            None => r is None && exists|k: int| #[trigger]
                stalls_after(
                    chars_from(old(cursor)@.bytes(), old(cursor)@.pos),
                    str_lower(pat@),
                    k,
                ) && final(cursor)@ == stalled_casei(old(cursor)@, k),
        },
{
    let folded = pat.to_lowercase();
    proof {
        lemma_str_lower(pat@);
    }
    compare_cursor_folded(cursor, folded.as_str())
}

/// Compares the lowercased text at the cursor with a pattern that is already in lowercase.
fn compare_cursor_folded(cursor: &mut Cursor, pat: &str) -> (r: Option<usize>)
    requires
        old(cursor).wf(),
        old(cursor)@.on_boundary(),
        pat@.len() > 0,
    ensures
        final(cursor).wf(),
        final(cursor)@.on_boundary(),
        match folded_end(old(cursor)@.bytes(), pat@, old(cursor)@.pos) {
            Some(end) => r == Some(old(cursor)@.pos as usize) && final(cursor)@
                == old(cursor)@.moved_to(end),
            None => r is None && exists|k: int| #[trigger]
                stalls_after(chars_from(old(cursor)@.bytes(), old(cursor)@.pos), pat@, k)
                    && final(cursor)@ == stalled_casei(old(cursor)@, k),
        },
{
    let ghost v = cursor@;
    let ghost b = v.bytes();
    let ghost text = chars_from(b, v.pos);
    let ghost folded = pat@;
    proof {
        lemma_leaf_view(v.leaves, v.pos);
        assert(text.take(0) =~= Seq::empty());
        assert(text.skip(0) =~= text);
        assert(Seq::<char>::empty() =~= folded.subrange(0, 0));
    }
    let start_position = cursor.pos();
    let pat_chars = chars_of(pat);
    let mut i: usize = 0;
    let ghost mut k: int = 0;
    loop
        invariant
            cursor.wf(),
            v == old(cursor)@,
            v.ok(),
            b == v.bytes(),
            valid_utf8(b),
            v.on_boundary(),
            v.pos == start_position,
            text == chars_from(b, v.pos),
            folded == pat@,
            pat_chars@ == folded,
            cursor@.leaves == v.leaves,
            cursor@.ok(),
            cursor@.on_boundary(),
            0 <= k <= text.len(),
            cursor@.pos == v.pos + encode_utf8(text.take(k)).len(),
            chars_from(b, cursor@.pos) == text.skip(k),
            i < folded.len(),
            lower_each(text.take(k)) == folded.subrange(0, i as int),
        decreases remaining(cursor@),
    {
        let ghost w = cursor@;
        match cursor.next_codepoint() {
            Some(c) => {
                let lower = lower_char(c);
                let ghost both = folded.subrange(0, i as int) + lower@;
                proof {
                    lemma_chars_from_step(b, w.pos);
                    let ahead = chars_from(b, w.pos);
                    let behind = chars_from(b, cursor@.pos);
                    assert(ahead == seq![c] + behind);
                    assert(ahead.len() == 1 + behind.len());
                    assert(k < text.len());
                    assert(text[k] == ahead[0]);
                    assert(text.take(k + 1) =~= text.take(k) + seq![c]);
                    assert(text.skip(k + 1) =~= behind) by {
                        assert forall|l: int| 0 <= l < behind.len() implies #[trigger] behind[l]
                            == text.skip(k + 1)[l] by {
                            assert(behind[l] == ahead[l + 1]);
                        }
                    }
                    lemma_encode_concat(text.take(k), seq![c]);
                    lemma_lower_concat(text.take(k), seq![c]);
                    lemma_lower_one(c);
                    assert(lower_each(text.take(k + 1)) == both);
                }
                match advance(&pat_chars, i, &lower) {
                    Some(j) => {
                        if j == pat_chars.len() {
                            proof {
                                assert(folded =~= both.subrange(0, folded.len() as int));
                                assert(folded_match(text, folded, k + 1));
                                lemma_folded_one(
                                    text,
                                    folded,
                                    k + 1,
                                    choose|l: int| folded_match(text, folded, l),
                                );
                            }
                            return Some(start_position);
                        }
                        i = j;
                        proof {
                            k = k + 1;
                            assert(both =~= folded.subrange(0, j as int));
                        }
                    },
                    None => {
                        proof {
                            assert(lower_each(text.take(k)) =~= folded.subrange(
                                0,
                                lower_each(text.take(k)).len() as int,
                            ));
                            let t = choose|t: int|
                                0 <= t < lower@.len() && i + t < folded.len() && lower@[t]
                                    != folded[i + t];
                            assert(both[i + t] == lower@[t]);
                            if both.is_prefix_of(folded) {
                                assert(both[i + t] == folded.subrange(0, both.len() as int)[i + t]);
                            }
                            if folded.is_prefix_of(both) {
                                assert(folded[i + t] == both.subrange(
                                    0,
                                    folded.len() as int,
                                )[i + t]);
                            }
                            assert(stalls_after(text, folded, k));
                            assert forall|l: int| !folded_match(text, folded, l) by {
                                if folded_match(text, folded, l) {
                                    if l <= k {
                                        lemma_lower_take(text, l, k);
                                    } else {
                                        lemma_lower_take(text, k + 1, l);
                                        let all = lower_each(text.take(l));
                                        assert(both[i + t] == all.subrange(
                                            0,
                                            both.len() as int,
                                        )[i + t]);
                                        assert(folded[i + t] == all.subrange(
                                            0,
                                            folded.len() as int,
                                        )[i + t]);
                                    }
                                }
                            }
                        }
                        return None;
                    },
                }
            },
            None => {
                // End of the text before the pattern is complete.
                proof {
                    assert(w.pos == b.len());
                    assert(tail(b, w.pos) =~= Seq::empty());
                    assert(text.skip(k).len() == 0);
                    assert(lower_each(text.take(k)) =~= folded.subrange(
                        0,
                        lower_each(text.take(k)).len() as int,
                    ));
                    assert(stalls_after(text, folded, k));
                    assert forall|l: int| !folded_match(text, folded, l) by {
                        if folded_match(text, folded, l) {
                            lemma_lower_take(text, l, k);
                        }
                    }
                }
                return None;
            },
        }
    }
}

/// Puts the cursor behind a match that a regular expression has in the text from
/// `origin` on, and returns where the match starts.
pub fn place_regex_match(
    cursor: &mut Cursor,
    origin: usize,
    found: Option<(usize, usize)>,
) -> (r: Option<usize>)
    requires
        old(cursor).wf(),
        found matches Some(m) ==> m.0 <= m.1 && origin + m.1 <= old(cursor)@.bytes().len(),
    ensures
        final(cursor).wf(),
        match found {
            Some(m) => r == Some((origin + m.0) as usize) && final(cursor)@
                == old(cursor)@.moved_to(origin + m.1),
            None => r is None && final(cursor)@ == old(cursor)@,
        },
{
    match found {
        Some((start, end)) => {
            // Calculate start position based on where the match starts.
            let start_position: usize = origin + start;
            // Update cursor and set to end of match.
            cursor.set(origin + end);
            Some(start_position)
        },
        None => None,
    }
}

/// Compares whether the text at the cursor matches the regular expression. The text
/// begins at the cursor, which for a search is where it starts and then the beginning of
/// each leaf. If the expression can match several lines then all leaves are consumed and
/// matched against it. Otherwise only the current leaf is matched. Returns the start
/// position of the match.
pub fn compare_cursor_regex(cursor: &mut Cursor, pat: &str, cm: CaseMatching) -> (r: Option<usize>)
    requires
        old(cursor).wf(),
        pat@.len() > 0 && regex_compiles(
            pat@,
            REGEX_SIZE_LIMIT as int,
            cm is CaseInsensitive,
            usize::BITS as int,
        ) ==> old(cursor)@.on_boundary(),
    ensures
        final(cursor).wf(),
        pat@.len() == 0 ==> r == Some(old(cursor)@.pos as usize) && final(cursor)@ == old(cursor)@,
        pat@.len() > 0 && !old(cursor)@.valid ==> r is None && final(cursor)@ == old(cursor)@,
        pat@.len() > 0 && !regex_compiles(
            pat@,
            REGEX_SIZE_LIMIT as int,
            cm is CaseInsensitive,
            usize::BITS as int,
        ) ==> r is None && final(cursor)@ == old(cursor)@,
        old(cursor)@.valid ==> match regex_at(
            old(cursor)@.leaves,
            pat@,
            cm is CaseInsensitive,
            old(cursor)@.pos,
        ) {
            Some((start, end)) => r == Some(start as usize) && final(cursor)@
                == old(cursor)@.moved_to(end),
            None => r is None && (regex_compiles(
                pat@,
                REGEX_SIZE_LIMIT as int,
                cm is CaseInsensitive,
                usize::BITS as int,
            ) ==> final(cursor)@ == query(cm, pat@, true).ruled_out(old(cursor)@)),
        },
        pat@.len() > 0 && old(cursor)@.valid && regex_compiles(
            pat@,
            10000,
            cm is CaseInsensitive,
            usize::BITS as int,
        ) ==> match regex_match(
            pat@,
            cm is CaseInsensitive,
            regex_text(old(cursor)@.leaves, pat@, old(cursor)@.pos),
        ) {
            Some((start, end)) => {
                &&& r == Some((old(cursor)@.pos + start) as usize)
                &&& final(cursor)@ == old(cursor)@.moved_to(old(cursor)@.pos + end)
                &&& 0 <= start <= end <= old(cursor)@.bytes().len() - old(cursor)@.pos
            },
            None => r is None,
        },
        reports_a_stretch(query(cm, pat@, true), old(cursor)@),
{
    let ghost v = cursor@;
    let ghost b = v.bytes();
    let orig_position = cursor.pos();
    if pat.is_empty() {
        return Some(orig_position);
    }
    if !cursor.is_boundary() {
        // Only an expression that does not compile comes here inside a character.
        return None;
    }
    proof {
        lemma_leaf_view(v.leaves, v.pos);
    }
    let (leaf, pos_in_leaf) = match cursor.get_leaf() {
        Some(at) => at,
        None => {
            return None;
        },
    };
    // Get text of current leaf.
    let mut text: String = leaf.as_str().split_at(pos_in_leaf).1.to_owned();
    let ghost mut end: int = leaf_end(v.leaves, v.pos);
    let _ = cursor.next_leaf();
    proof {
        assert(encode_utf8(text@) =~= b.subrange(v.pos, end));
        if cursor@.valid {
            lemma_leaf_start(v.leaves, v.pos);
        }
    }
    if is_multiline_regex(pat) {
        // Consume all remaining leaves.
        loop
            invariant_except_break
                cursor.wf(),
                v.ok(),
                b == v.bytes(),
                cursor@.leaves == v.leaves,
                cursor@.ok(),
                v.pos <= end <= b.len(),
                encode_utf8(text@) == b.subrange(v.pos, end),
                cursor@.pos == end,
                cursor@.valid ==> cut(v.leaves, leaf_at(v.leaves, end)) == end,
            ensures
                cursor.wf(),
                cursor@ == v.exhausted(),
                end == b.len(),
                encode_utf8(text@) == b.subrange(v.pos, end),
            decreases remaining(cursor@),
        {
            let ghost w = cursor@;
            match cursor.get_leaf() {
                Some((leaf, _)) => {
                    proof {
                        lemma_leaf_view(v.leaves, end);
                        lemma_encode_concat(text@, leaf@);
                        let next = leaf_end(v.leaves, end);
                        assert(b.subrange(v.pos, end) + b.subrange(end, next) =~= b.subrange(
                            v.pos,
                            next,
                        ));
                    }
                    text.append(leaf.as_str());
                    let _ = cursor.next_leaf();
                    proof {
                        if cursor@.valid {
                            lemma_leaf_start(v.leaves, end);
                        }
                        end = leaf_end(v.leaves, end);
                    }
                },
                None => {
                    break;
                },
            }
        }
    }
    proof {
        encode_utf8_decode_utf8(text@);
    }
    // Match regex against text.
    match regex_find(
        pat,
        REGEX_SIZE_LIMIT,
        cm == CaseMatching::CaseInsensitive,
        text.as_str(),
    ) {
        Ok(found) => place_regex_match(cursor, orig_position, found),
        Err(_) => {
            cursor.set(orig_position);
            None
        },
    }
}

/// Whether what the `regex` crate reports for the text at the cursor, if it is asked, is a
/// stretch of that text.
pub open spec fn reports_a_stretch(q: Query, v: CursorView) -> bool {
    let text = regex_text(v.leaves, q.pat, v.pos);
    let case_insensitive = q.matching is CaseInsensitive;
    q.is_regex && q.pat.len() > 0 && v.valid && regex_compiles(
        q.pat,
        10000,
        case_insensitive,
        usize::BITS as int,
    ) ==> (regex_match(q.pat, case_insensitive, text) matches Some(m) ==> is_stretch(text, m))
}

/// Whether a search from `v` that ends at `w` has found the first match of `q`, starting
/// at `start`, and `w` immediately follows it.
pub open spec fn found(q: Query, v: CursorView, start: int, w: CursorView) -> bool {
    exists|h: int| #[trigger]
        q.first_hit(v, h) && q.match_at(v.leaves, h) == Some((start, w.pos)) && w == v.moved_to(
            w.pos,
        )
}

/// Whether a search from `v` that ends at `w` has run off the end, and `q` has no match at
/// or behind `v`.
pub open spec fn not_found(q: Query, v: CursorView, w: CursorView) -> bool {
    &&& w == v.exhausted()
    &&& forall|h: int| !#[trigger] q.hit(v, h)
}

/// Whether a search from `v` that stops at `w` after `n` steps has lost no match of `q`.
pub open spec fn suspended(q: Query, v: CursorView, n: nat, w: CursorView) -> bool {
    &&& w.leaves == v.leaves
    &&& v.pos <= w.pos
    &&& remaining(w) + n <= remaining(v)
    &&& forall|h: int| #[trigger] q.hit(v, h) <==> q.hit(w, h)
}

/// A query made ready for searching.
pub struct Prepared<'p> {
    matching: CaseMatching,
    pat: &'p str,
    is_regex: bool,
    /// The pattern in lowercase, where the search is case insensitive.
    folded: String,
    scanner: Scanner,
}

impl<'p> Prepared<'p> {
    /// What is searched for.
    pub closed spec fn query(&self) -> Query {
        query(self.matching, self.pat@, self.is_regex)
    }

    /// The scan and the lowercased pattern are those of the query.
    pub closed spec fn wf(&self) -> bool {
        &&& self.query().ok()
        &&& self.scanner == self.query().scanner()
        &&& !self.is_regex && self.matching is CaseInsensitive ==> self.folded@ == str_lower(
            self.pat@,
        )
    }

    /// Makes a query ready: chooses the scan, and converts the pattern to lowercase if
    /// need be.
    pub fn new(cm: CaseMatching, pat: &'p str, is_regex: bool) -> (prepared: Prepared<'p>)
        requires
            is_regex || pat@.len() > 0,
        ensures
            prepared.wf(),
            prepared.query() == query(cm, pat@, is_regex),
            !is_regex && cm is CaseInsensitive ==> is_lower_form(pat@, unicode_lowercase(pat@))
                && str_lower(pat@) == unicode_lowercase(pat@),
    {
        let mut folded = String::new();
        let scanner = if is_regex {
            // A regular expression gives no hint where it may match.
            Scanner::Anywhere
        } else {
            match cm {
                CaseMatching::Exact => {
                    proof {
                        lemma_encode_len(pat@);
                    }
                    Scanner::Byte(pat.as_bytes()[0])
                },
                CaseMatching::CaseInsensitive => {
                    folded = pat.to_lowercase();
                    proof {
                        lemma_str_lower(pat@);
                    }
                    scanner_for_folded(folded.as_str())
                },
            }
        };
        Prepared { matching: cm, pat, is_regex, folded, scanner }
    }

    /// Tests whether the query matches at the cursor. Returns the start of the match, and
    /// leaves the cursor behind it.
    fn compare(&self, cursor: &mut Cursor) -> (r: Option<usize>)
        requires
            self.wf(),
            old(cursor).wf(),
            old(cursor)@.valid,
            old(cursor)@.on_boundary(),
        ensures
            final(cursor).wf(),
            final(cursor)@.leaves == old(cursor)@.leaves,
            match self.query().match_at(old(cursor)@.leaves, old(cursor)@.pos) {
                Some((start, end)) => r == Some(start as usize) && final(cursor)@
                    == old(cursor)@.moved_to(end),
                None => r is None,
            },
            reports_a_stretch(self.query(), old(cursor)@),
    {
        if self.is_regex {
            compare_cursor_regex(cursor, self.pat, self.matching)
        } else {
            match self.matching {
                CaseMatching::Exact => compare_cursor_str(cursor, self.pat),
                CaseMatching::CaseInsensitive => {
                    proof {
                        lemma_str_lower(self.pat@);
                    }
                    compare_cursor_folded(cursor, self.folded.as_str())
                },
            }
        }
    }

    /// Moves the cursor over the text that a failed test of the query has ruled out.
    fn rule_out(&self, cursor: &mut Cursor)
        requires
            self.wf(),
            old(cursor).wf(),
            old(cursor)@.valid,
            old(cursor)@.on_boundary(),
        ensures
            final(cursor).wf(),
            final(cursor)@ == self.query().ruled_out(old(cursor)@),
    {
        if !self.is_regex {
            // Advance cursor to next codepoint.
            let _ = cursor.next();
        } else if is_multiline_regex(self.pat) {
            proof {
                encode_utf8_valid_utf8(text_of(cursor@.leaves));
                is_char_boundary_start_end_of_seq(cursor@.bytes());
            }
            let end: usize = cursor.total_len();
            cursor.set(end);
            let _ = cursor.next();
        } else {
            let _ = cursor.next_leaf();
        }
    }
}

/// The core of the find algorithm. It scans the rest of a single leaf for a place where
/// the pattern may start, then tests whether such a candidate actually matches in the
/// full rope.
pub fn find_core(cursor: &mut Cursor, prepared: &Prepared) -> (r: FindResult)
    requires
        prepared.wf(),
        old(cursor).wf(),
        old(cursor)@.on_boundary(),
    ensures
        final(cursor).wf(),
        final(cursor)@.on_boundary(),
        (r, final(cursor)@) == prepared.query().step(old(cursor)@),
        reports_a_stretch(prepared.query(), old(cursor)@),
{
    let ghost v = cursor@;
    let ghost q = prepared.query();
    let ghost rest_bytes = v.bytes().subrange(v.pos, leaf_end(v.leaves, v.pos));
    proof {
        lemma_leaf_view(v.leaves, v.pos);
        lemma_step(q, v);
    }
    let orig_pos = cursor.pos();
    match cursor.get_leaf() {
        Some((leaf, pos_in_leaf)) => {
            let rest = leaf.as_str().split_at(pos_in_leaf).1;
            assert(encode_utf8(rest@) =~= rest_bytes);
            match prepared.scanner.scan(rest) {
                Some(off) => {
                    proof {
                        lemma_finds_one(
                            q.scanner(),
                            rest_bytes,
                            off as int,
                            choose|i: int| q.scanner().finds(rest_bytes, i),
                        );
                        lemma_candidate(q, v, off as int);
                        if q.is_regex {
                            assert(v.moved_to(v.pos + off) == v);
                        }
                    }
                    let candidate_pos = orig_pos + off;
                    cursor.set(candidate_pos);
                    match prepared.compare(cursor) {
                        Some(actual_pos) => FindResult::Found(actual_pos),
                        None => {
                            cursor.set(candidate_pos);
                            prepared.rule_out(cursor);
                            FindResult::TryAgain
                        },
                    }
                },
                None => {
                    proof {
                        if q.is_regex {
                            assert(q.scanner().finds(rest_bytes, 0));
                        }
                    }
                    let _ = cursor.next_leaf();
                    FindResult::TryAgain
                },
            }
        },
        None => FindResult::NotFound,
    }
}

/// Runs the core repeatedly until there is a result, up to a certain number of steps.
pub fn find_progress_iter(cursor: &mut Cursor, prepared: &Prepared, num_steps: usize) -> (r:
    FindResult)
    requires
        prepared.wf(),
        old(cursor).wf(),
        num_steps > 0 ==> old(cursor)@.on_boundary(),
    ensures
        final(cursor).wf(),
        old(cursor)@.on_boundary() ==> final(cursor)@.on_boundary(),
        (r, final(cursor)@) == prepared.query().progress(old(cursor)@, num_steps as nat),
        num_steps > 0 ==> reports_a_stretch(prepared.query(), old(cursor)@),
{
    let ghost v = cursor@;
    let ghost q = prepared.query();
    let mut left: usize = num_steps;
    while left > 0
        invariant
            prepared.wf(),
            cursor.wf(),
            left > 0 || v.on_boundary() ==> cursor@.on_boundary(),
            q == prepared.query(),
            v == old(cursor)@,
            left <= num_steps,
            left == num_steps ==> cursor@ == v,
            left < num_steps ==> reports_a_stretch(q, v),
            q.progress(v, num_steps as nat) == q.progress(cursor@, left as nat),
        decreases left,
    {
        match find_core(cursor, prepared) {
            FindResult::TryAgain => {},
            result => {
                return result;
            },
        }
        left = left - 1;
    }
    FindResult::TryAgain
}

/// A regular expression that matches the text at the cursor is found in the first step.
proof fn lemma_regex_first_step(q: Query, v: CursorView, n: nat)
    requires
        v.ok(),
        v.valid,
        v.on_boundary(),
        q.is_regex,
        n > 0,
        reports_a_stretch(q, v),
    ensures
        q.pat.len() > 0 && regex_compiles(
            q.pat,
            10000,
            q.matching is CaseInsensitive,
            usize::BITS as int,
        ) ==> match regex_match(
            q.pat,
            q.matching is CaseInsensitive,
            regex_text(v.leaves, q.pat, v.pos),
        ) {
            Some((start, end)) => {
                &&& q.progress(v, n) == (
                    FindResult::Found((v.pos + start) as usize),
                    v.moved_to(v.pos + end),
                )
                &&& q.hit(v, v.pos)
                &&& 0 <= start <= end <= v.bytes().len() - v.pos
            },
            None => q.match_at(v.leaves, v.pos) is None,
        },
{
    let rest = v.bytes().subrange(v.pos, leaf_end(v.leaves, v.pos));
    lemma_match_bounds(q, v.leaves, v.pos);
    assert(q.scanner().finds(rest, 0));
}

/// A variant of `find` that makes a bounded amount of progress, then either returns or
/// suspends (returning `TryAgain`).
///
/// The `num_steps` parameter controls the number of steps processed per call. A step
/// scans one leaf, and tests one candidate if scanning produces one.
pub fn find_progress(
    cursor: &mut Cursor,
    cm: CaseMatching,
    pat: &str,
    num_steps: usize,
    is_regex: bool,
) -> (r: FindResult)
    requires
        old(cursor).wf(),
        num_steps > 0 ==> old(cursor)@.on_boundary(),
        is_regex || pat@.len() > 0,
    ensures
        final(cursor).wf(),
        old(cursor)@.on_boundary() ==> final(cursor)@.on_boundary(),
        (r, final(cursor)@) == query(cm, pat@, is_regex).progress(
            old(cursor)@,
            num_steps as nat,
        ),
        r matches FindResult::Found(start) ==> found(
            query(cm, pat@, is_regex),
            old(cursor)@,
            start as int,
            final(cursor)@,
        ),
        r is NotFound ==> not_found(
            query(cm, pat@, is_regex),
            old(cursor)@,
            final(cursor)@,
        ),
        r is TryAgain ==> suspended(
            query(cm, pat@, is_regex),
            old(cursor)@,
            num_steps as nat,
            final(cursor)@,
        ),
        !is_regex && cm is CaseInsensitive ==> is_lower_form(pat@, unicode_lowercase(pat@))
            && str_lower(pat@) == unicode_lowercase(pat@),
        num_steps > 0 && is_regex && pat@.len() > 0 && old(cursor)@.valid && regex_compiles(
            pat@,
            10000,
            cm is CaseInsensitive,
            usize::BITS as int,
        ) ==> match regex_match(
            pat@,
            cm is CaseInsensitive,
            regex_text(old(cursor)@.leaves, pat@, old(cursor)@.pos),
        ) {
            Some((start, end)) => {
                &&& r == FindResult::Found((old(cursor)@.pos + start) as usize)
                &&& final(cursor)@ == old(cursor)@.moved_to(old(cursor)@.pos + end)
                &&& 0 <= start <= end <= old(cursor)@.bytes().len() - old(cursor)@.pos
            },
            None => is_multiline(pat@) ==> !(r is Found),
        },
{
    let ghost v = cursor@;
    let ghost q = query(cm, pat@, is_regex);
    proof {
        if num_steps > 0 {
            progress_is_right(q, v, num_steps as nat);
        }
    }
    let prepared = Prepared::new(cm, pat, is_regex);
    let r = find_progress_iter(cursor, &prepared, num_steps);
    proof {
        if num_steps > 0 && is_regex && v.valid {
            lemma_regex_first_step(q, v, num_steps as nat);
        }
    }
    r
}

/// Finds a pattern string in the rope referenced by the cursor, starting at the current
/// location of the cursor (and finding the first match). Both case sensitive and case
/// insensitive matching is provided, controlled by the `cm` parameter. The `is_regex`
/// parameter controls whether the query should be considered as a regular expression. One
/// that cannot match several lines is searched for leaf by leaf.
///
/// On success, the cursor is updated to immediately follow the found string. On failure,
/// it has run off the end of the rope.
pub fn find(cursor: &mut Cursor, cm: CaseMatching, pat: &str, is_regex: bool) -> (r: Option<usize>)
    requires
        old(cursor).wf(),
        old(cursor)@.on_boundary(),
        is_regex || pat@.len() > 0,
    ensures
        final(cursor).wf(),
        final(cursor)@.on_boundary(),
        r matches Some(start) ==> found(
            query(cm, pat@, is_regex),
            old(cursor)@,
            start as int,
            final(cursor)@,
        ),
        r is None ==> not_found(
            query(cm, pat@, is_regex),
            old(cursor)@,
            final(cursor)@,
        ),
        !is_regex && cm is CaseInsensitive ==> is_lower_form(pat@, unicode_lowercase(pat@))
            && str_lower(pat@) == unicode_lowercase(pat@),
        is_regex && pat@.len() > 0 && old(cursor)@.valid && regex_compiles(
            pat@,
            10000,
            cm is CaseInsensitive,
            usize::BITS as int,
        ) ==> match regex_match(
            pat@,
            cm is CaseInsensitive,
            regex_text(old(cursor)@.leaves, pat@, old(cursor)@.pos),
        ) {
            Some((start, end)) => {
                &&& r == Some((old(cursor)@.pos + start) as usize)
                &&& final(cursor)@ == old(cursor)@.moved_to(old(cursor)@.pos + end)
                &&& 0 <= start <= end <= old(cursor)@.bytes().len() - old(cursor)@.pos
            },
            None => is_multiline(pat@) ==> r is None,
        },
{
    let ghost v = cursor@;
    let ghost q = query(cm, pat@, is_regex);
    let ghost asked = is_regex && pat@.len() > 0 && v.valid && regex_compiles(
        pat@,
        10000,
        cm is CaseInsensitive,
        usize::BITS as int,
    );
    let ghost reported = regex_match(
        pat@,
        cm is CaseInsensitive,
        regex_text(v.leaves, pat@, v.pos),
    );
    // A single round is enough for any rope that fits in memory.
    loop
        invariant
            cursor.wf(),
            cursor@.on_boundary(),
            cursor@.leaves == v.leaves,
            v == old(cursor)@,
            q == query(cm, pat@, is_regex),
            q.ok(),
            asked == (is_regex && pat@.len() > 0 && v.valid && regex_compiles(
                pat@,
                10000,
                cm is CaseInsensitive,
                usize::BITS as int,
            )),
            reported == regex_match(
                pat@,
                cm is CaseInsensitive,
                regex_text(v.leaves, pat@, v.pos),
            ),
            asked && reported is Some ==> cursor@ == v,
            forall|h: int| #[trigger] q.hit(v, h) <==> q.hit(cursor@, h),
        decreases remaining(cursor@),
    {
        let ghost w = cursor@;
        match find_progress(cursor, cm, pat, usize::MAX, is_regex) {
            FindResult::Found(start) => {
                proof {
                    let h = choose|h: int| #[trigger]
                        q.first_hit(w, h) && q.match_at(w.leaves, h) == Some(
                            (start as int, cursor@.pos),
                        );
                    assert(q.first_hit(v, h)) by {
                        assert forall|g: int| g < h implies !#[trigger] q.hit(v, g) by {
                            assert(!q.hit(w, g));
                        }
                    }
                    assert(q.hit(v, h));
                }
                return Some(start);
            },
            FindResult::NotFound => {
                return None;
            },
            FindResult::TryAgain => {},
        }
    }
}

} // verus!
