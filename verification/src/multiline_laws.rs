//! Which regular expressions can match several lines.

use vstd::prelude::*;

use crate::regex_search::{
    contains_part, escapes_a_break, escapes_break, is_multiline, scan_breaks, BreakScan,
};

verus! {

/// The number of backslashes directly before position `n`.
spec fn run(regex: Seq<char>, n: int) -> nat
    decreases n,
{
    if n <= 0 || regex[n - 1] != '\\' {
        0
    } else {
        1 + run(regex, n - 1)
    }
}

/// Whether the character at position `i` is escaped and then stands for a line break.
spec fn named(regex: Seq<char>, i: int) -> bool {
    escapes_break(regex[i]) && run(regex, i) % 2 == 1
}

proof fn lemma_run(regex: Seq<char>, n: int)
    requires
        0 <= n <= regex.len(),
    ensures
        run(regex, n) <= n,
        forall|k: int| n - run(regex, n) <= k < n ==> #[trigger] regex[k] == '\\',
        n - run(regex, n) == 0 || regex[n - run(regex, n) - 1] != '\\',
    decreases n,
{
    if n > 0 && regex[n - 1] == '\\' {
        lemma_run(regex, n - 1);
    }
}

/// A stretch of backslashes that no other comes before is all there are.
proof fn lemma_run_from(regex: Seq<char>, j: int, n: int)
    requires
        0 <= j <= n <= regex.len(),
        forall|k: int| j <= k < n ==> #[trigger] regex[k] == '\\',
        j == 0 || regex[j - 1] != '\\',
    ensures
        run(regex, n) == n - j,
    decreases n,
{
    if j < n {
        assert(regex[n - 1] == '\\');
        lemma_run_from(regex, j, n - 1);
    }
}

proof fn lemma_part_of_one(regex: Seq<char>, c: char)
    ensures
        contains_part(regex, seq![c]) <==> regex.contains(c),
{
    if regex.contains(c) {
        let i = choose|i: int| 0 <= i < regex.len() && regex[i] == c;
        assert(regex.subrange(i, i + 1) =~= seq![c]);
        assert(regex.subrange(i, i + seq![c].len()) == seq![c]);
    }
    if contains_part(regex, seq![c]) {
        let i = choose|i: int|
            0 <= i <= regex.len() - 1 && #[trigger] regex.subrange(i, i + seq![c].len()) == seq![c];
        assert(regex.subrange(i, i + seq![c].len())[0] == regex[i]);
    }
}

proof fn lemma_raw_parts(regex: Seq<char>)
    ensures
        contains_part(regex, "\n"@) <==> regex.contains('\n'),
        contains_part(regex, "\r"@) <==> regex.contains('\r'),
        "[[:space:]]"@ == seq!['[', '[', ':', 's', 'p', 'a', 'c', 'e', ':', ']', ']'],
{
    reveal_strlit("\n");
    reveal_strlit("\r");
    reveal_strlit("[[:space:]]");
    assert("\n"@ =~= seq!['\n']);
    assert("\r"@ =~= seq!['\r']);
    assert("[[:space:]]"@ =~= seq!['[', '[', ':', 's', 'p', 'a', 'c', 'e', ':', ']', ']']);
    lemma_part_of_one(regex, '\n');
    lemma_part_of_one(regex, '\r');
}

/// A regular expression with a line break in it, as such, or with the class of all
/// whitespace can match several lines, whatever else is in it.
pub proof fn line_breaks_match_several_lines(regex: Seq<char>, i: int)
    ensures
        regex.contains('\n') ==> is_multiline(regex),
        regex.contains('\r') ==> is_multiline(regex),
        0 <= i <= regex.len() - 11 && regex.subrange(i, i + 11) == seq![
            '[',
            '[',
            ':',
            's',
            'p',
            'a',
            'c',
            'e',
            ':',
            ']',
            ']',
        ] ==> is_multiline(regex),
{
    let space = seq!['[', '[', ':', 's', 'p', 'a', 'c', 'e', ':', ']', ']'];
    lemma_raw_parts(regex);
    assert(regex.subrange(i, i + 11) == regex.subrange(i, i + space.len()));
}

proof fn lemma_nothing_escaped(regex: Seq<char>, n: int)
    requires
        0 <= n <= regex.len(),
        !regex.contains('\\'),
    ensures
        !scan_breaks(regex, n).escaped,
        !scan_breaks(regex, n).pending,
        !scan_breaks(regex, n).found,
    decreases n,
{
    if n > 0 {
        lemma_nothing_escaped(regex, n - 1);
        assert(regex[n - 1] != '\\');
    }
}

/// A regular expression without escapes can match several lines only by a line break or the
/// class of all whitespace.
pub proof fn nothing_else_unescaped_matches_several_lines(regex: Seq<char>)
    requires
        !regex.contains('\\'),
    ensures
        is_multiline(regex) <==> regex.contains('\n') || regex.contains('\r') || exists|i: int|
            0 <= i <= regex.len() - 11 && #[trigger] regex.subrange(i, i + 11) == seq![
                '[',
                '[',
                ':',
                's',
                'p',
                'a',
                'c',
                'e',
                ':',
                ']',
                ']',
            ],
{
    let space = seq!['[', '[', ':', 's', 'p', 'a', 'c', 'e', ':', ']', ']'];
    lemma_raw_parts(regex);
    lemma_nothing_escaped(regex, regex.len() as int);
    if contains_part(regex, space) {
        let i = choose|i: int|
            0 <= i <= regex.len() - space.len() && #[trigger] regex.subrange(i, i + space.len())
                == space;
        assert(regex.subrange(i, i + 11) == space);
    }
    if exists|i: int| 0 <= i <= regex.len() - 11 && #[trigger] regex.subrange(i, i + 11) == space {
        let i = choose|i: int|
            0 <= i <= regex.len() - 11 && #[trigger] regex.subrange(i, i + 11) == space;
        assert(regex.subrange(i, i + space.len()) == space);
    }
}

proof fn lemma_scan_without_classes(regex: Seq<char>, n: int)
    requires
        0 <= n <= regex.len(),
        !regex.contains('['),
    ensures
        ({
            let s = scan_breaks(regex, n);
            &&& s.depth == 0
            &&& s.negated == 0
            &&& s.escaped <==> run(regex, n) % 2 == 1
            &&& s.found <==> exists|i: int| 0 <= i < n && #[trigger] named(regex, i)
        }),
    decreases n,
{
    if n > 0 {
        lemma_scan_without_classes(regex, n - 1);
        assert(regex[n - 1] != '[');
        let s = scan_breaks(regex, n);
        let before = scan_breaks(regex, n - 1);
        if s.found && !before.found {
            assert(named(regex, n - 1));
        }
        if exists|i: int| 0 <= i < n && #[trigger] named(regex, i) {
            let i = choose|i: int| 0 <= i < n && #[trigger] named(regex, i);
            if i < n - 1 {
                assert(before.found);
            }
        }
    }
}

/// An `n`, `r` or `s` behind an odd number of backslashes makes a regular expression without
/// classes match several lines.
pub proof fn escape_matches_several_lines(regex: Seq<char>, i: int, j: int)
    requires
        !regex.contains('['),
        0 <= j < i < regex.len(),
        regex[i] == 'n' || regex[i] == 'r' || regex[i] == 's',
        (i - j) % 2 == 1,
        forall|k: int| j <= k < i ==> #[trigger] regex[k] == '\\',
        j == 0 || regex[j - 1] != '\\',
    ensures
        is_multiline(regex),
{
    lemma_scan_without_classes(regex, regex.len() as int);
    lemma_run_from(regex, j, i);
    assert(named(regex, i));
}

/// A regular expression without classes and line breaks that can match several lines has
/// such an escape.
pub proof fn only_escapes_match_several_lines(regex: Seq<char>) -> (at: (int, int))
    requires
        is_multiline(regex),
        !regex.contains('['),
        !regex.contains('\n'),
        !regex.contains('\r'),
    ensures
        0 <= at.1 < at.0 < regex.len(),
        regex[at.0] == 'n' || regex[at.0] == 'r' || regex[at.0] == 's',
        (at.0 - at.1) % 2 == 1,
        forall|k: int| at.1 <= k < at.0 ==> #[trigger] regex[k] == '\\',
        at.1 == 0 || regex[at.1 - 1] != '\\',
{
    let space = seq!['[', '[', ':', 's', 'p', 'a', 'c', 'e', ':', ']', ']'];
    let n = regex.len() as int;
    lemma_raw_parts(regex);
    lemma_scan_without_classes(regex, n);
    if contains_part(regex, space) {
        let i = choose|i: int|
            0 <= i <= regex.len() - space.len() && #[trigger] regex.subrange(i, i + space.len())
                == space;
        assert(regex.subrange(i, i + space.len())[0] == regex[i]);
        assert(regex.contains('['));
    }
    let i = choose|i: int| 0 <= i < n && #[trigger] named(regex, i);
    lemma_run(regex, i);
    (i, i - run(regex, i))
}

proof fn lemma_scan_negated(regex: Seq<char>, body: Seq<char>, n: int)
    requires
        regex == seq!['[', '^'] + body + seq![']'],
        !body.contains('['),
        !body.contains(']'),
        0 <= n <= body.len(),
    ensures
        ({
            let s = scan_breaks(regex, n + 2);
            s.depth == 1 && s.negated == 1 && !s.pending && !s.found
        }),
    decreases n,
{
    reveal_with_fuel(scan_breaks, 3);
    assert(regex[0] == '[');
    assert(regex[1] == '^');
    if n > 0 {
        lemma_scan_negated(regex, body, n - 1);
        assert(regex[n + 1] == body[n - 1]);
        assert(body[n - 1] != '[' && body[n - 1] != ']');
        assert(scan_breaks(regex, n + 2) == scan_breaks(regex, n + 1).read(body[n - 1]));
    }
}

/// What a negated class leaves out does not count: escapes in it do not make an expression
/// match several lines.
pub proof fn negated_class_stays_on_its_line(regex: Seq<char>, body: Seq<char>)
    requires
        regex == seq!['[', '^'] + body + seq![']'],
        !body.contains('['),
        !body.contains(']'),
        !body.contains('\n'),
        !body.contains('\r'),
    ensures
        !is_multiline(regex),
{
    let n = body.len() as int;
    lemma_scan_negated(regex, body, n);
    assert forall|k: int| 0 <= k < regex.len() implies #[trigger] regex[k] != '\n' && regex[k]
        != '\r' && (k > 0 ==> regex[k] != '[') by {
        if 2 <= k < n + 2 {
            assert(regex[k] == body[k - 2]);
        }
    }
    lemma_no_raw_parts(regex);
}

/// Reading the body of a class that opens before position `m`.
proof fn lemma_scan_plain_class(regex: Seq<char>, m: int, body: Seq<char>, n: int)
    requires
        0 <= m,
        forall|k: int| 0 <= k < body.len() ==> regex[m + k] == #[trigger] body[k],
        forall|k: int|
            0 <= k < body.len() ==> #[trigger] body[k] != '[' && body[k] != ']' && body[k] != '&'
                && body[k] != '-' && body[k] != '~',
        body.len() > 0,
        body[0] != '^',
        scan_breaks(regex, m).depth > 0,
        scan_breaks(regex, m).negated == 0,
        !scan_breaks(regex, m).escaped,
        !scan_breaks(regex, m).pending,
        !scan_breaks(regex, m).operated,
        0 <= n <= body.len(),
    ensures
        ({
            let s = scan_breaks(regex, m + n);
            &&& s.depth == scan_breaks(regex, m).depth
            &&& s.negated == 0
            &&& !s.operated
            &&& s.fresh ==> n == 0 || s.escaped
            &&& s.escaped <==> run(body, n) % 2 == 1
            &&& s.pending <==> exists|i: int| 0 <= i < n && #[trigger] named(body, i)
        }),
    decreases n,
{
    if n > 0 {
        lemma_scan_plain_class(regex, m, body, n - 1);
        let s = scan_breaks(regex, m + n);
        let before = scan_breaks(regex, m + n - 1);
        assert(regex[m + (n - 1)] == body[n - 1]);
        assert(s == before.read(body[n - 1]));
        if s.pending && !before.pending {
            assert(named(body, n - 1));
        }
        if exists|i: int| 0 <= i < n && #[trigger] named(body, i) {
            let i = choose|i: int| 0 <= i < n && #[trigger] named(body, i);
            if i < n - 1 {
                assert(before.pending);
            }
        }
    }
}

/// A class matches several lines if an escape in it does, where nothing is taken away from
/// the class.
pub proof fn class_matches_several_lines(regex: Seq<char>, body: Seq<char>, i: int, j: int)
    requires
        regex == seq!['['] + body + seq![']'],
        forall|k: int|
            0 <= k < body.len() ==> #[trigger] body[k] != '[' && body[k] != ']' && body[k] != '&'
                && body[k] != '-' && body[k] != '~',
        0 <= j < i < body.len(),
        body[i] == 'n' || body[i] == 'r' || body[i] == 's',
        (i - j) % 2 == 1,
        forall|k: int| j <= k < i ==> #[trigger] body[k] == '\\',
        j == 0 || body[j - 1] != '\\',
        body[0] != '^',
        body.last() != '\\',
    ensures
        is_multiline(regex),
{
    let n = body.len() as int;
    assert(regex[0] == '[');
    assert(scan_breaks(regex, 0) == BreakScan::start());
    assert(scan_breaks(regex, 1) == BreakScan::start().read('['));
    assert forall|k: int| 0 <= k < body.len() implies regex[1 + k] == #[trigger] body[k] by {}
    lemma_scan_plain_class(regex, 1, body, n);
    lemma_run_from(body, j, i);
    assert(named(body, i));
    assert(regex[n + 1] == ']');
    assert(scan_breaks(regex, n + 2) == scan_breaks(regex, n + 1).read(']'));
}

proof fn lemma_scan_operated(regex: Seq<char>, body: Seq<char>, i: int, n: int)
    requires
        regex == seq!['['] + body + seq![']'],
        !body.contains('['),
        !body.contains(']'),
        0 <= i < body.len() - 1,
        body[i] == body[i + 1],
        body[i] == '&' || body[i] == '-' || body[i] == '~',
        i == 0 || body[i - 1] != '\\',
        0 <= n <= body.len(),
    ensures
        ({
            let s = scan_breaks(regex, n + 1);
            &&& s.depth == 1
            &&& !s.found
            &&& s.escaped ==> n > 0 && body[n - 1] == '\\'
            &&& n == i + 1 ==> s.prev == body[i]
            &&& n > i + 1 ==> s.operated
        }),
    decreases n,
{
    assert(regex[0] == '[');
    assert(scan_breaks(regex, 0) == BreakScan::start());
    assert(scan_breaks(regex, 1) == BreakScan::start().read('['));
    if n > 0 {
        lemma_scan_operated(regex, body, i, n - 1);
        assert(regex[n] == body[n - 1]);
        assert(body[n - 1] != '[' && body[n - 1] != ']');
        assert(scan_breaks(regex, n + 1) == scan_breaks(regex, n).read(body[n - 1]));
    }
}

/// A class made by intersection or difference does not count by the escapes in it.
pub proof fn class_with_operators_stays_on_its_line(regex: Seq<char>, body: Seq<char>, i: int)
    requires
        regex == seq!['['] + body + seq![']'],
        !body.contains('['),
        !body.contains(']'),
        !body.contains('\n'),
        !body.contains('\r'),
        0 <= i < body.len() - 1,
        body[i] == body[i + 1],
        body[i] == '&' || body[i] == '-' || body[i] == '~',
        i == 0 || body[i - 1] != '\\',
    ensures
        !is_multiline(regex),
{
    let n = body.len() as int;
    lemma_scan_operated(regex, body, i, n);
    assert(regex[n + 1] == ']');
    assert(scan_breaks(regex, n + 2) == scan_breaks(regex, n + 1).read(']'));
    assert forall|k: int| 0 <= k < regex.len() implies #[trigger] regex[k] != '\n' && regex[k]
        != '\r' && (k > 0 ==> regex[k] != '[') by {
        if 1 <= k < n + 1 {
            assert(regex[k] == body[k - 1]);
        }
    }
    lemma_no_raw_parts(regex);
}

proof fn lemma_no_raw_parts(regex: Seq<char>)
    requires
        !regex.contains('\n'),
        !regex.contains('\r'),
        forall|k: int| 0 < k < regex.len() && #[trigger] regex[k] == '[' ==> regex[k - 1] != '[',
    ensures
        is_multiline(regex) <==> escapes_a_break(regex),
{
    let space = seq!['[', '[', ':', 's', 'p', 'a', 'c', 'e', ':', ']', ']'];
    lemma_raw_parts(regex);
    if contains_part(regex, space) {
        let i = choose|i: int|
            0 <= i <= regex.len() - space.len() && #[trigger] regex.subrange(i, i + space.len())
                == space;
        assert(regex.subrange(i, i + space.len())[0] == regex[i]);
        assert(regex.subrange(i, i + space.len())[1] == regex[i + 1]);
    }
}

/// Reading plain characters in a class changes nothing of note.
proof fn lemma_scan_plain(regex: Seq<char>, m: int, part: Seq<char>, n: int)
    requires
        0 <= m,
        forall|k: int| 0 <= k < part.len() ==> regex[m + k] == #[trigger] part[k],
        forall|k: int|
            0 <= k < part.len() ==> #[trigger] part[k] != '[' && part[k] != ']' && part[k] != '&'
                && part[k] != '-' && part[k] != '~' && part[k] != '\\' && part[k] != '^',
        scan_breaks(regex, m).depth > 0,
        !scan_breaks(regex, m).escaped,
        0 <= n <= part.len(),
    ensures
        ({
            let s = scan_breaks(regex, m);
            let t = scan_breaks(regex, m + n);
            &&& t.depth == s.depth
            &&& t.negated == s.negated
            &&& t.pending == s.pending
            &&& t.operated == s.operated
            &&& t.found == s.found
            &&& !t.escaped
            &&& t.fresh == (n == 0 && s.fresh)
        }),
    decreases n,
{
    if n > 0 {
        lemma_scan_plain(regex, m, part, n - 1);
        assert(regex[m + (n - 1)] == part[n - 1]);
        assert(scan_breaks(regex, m + n) == scan_breaks(regex, m + n - 1).read(part[n - 1]));
    }
}

/// A class matches several lines if a class in it does.
pub proof fn class_in_a_class_matches_several_lines(
    regex: Seq<char>,
    a: Seq<char>,
    body: Seq<char>,
    c: Seq<char>,
    i: int,
    j: int,
)
    requires
        regex == seq!['['] + a + seq!['['] + body + seq![']'] + c + seq![']'],
        forall|k: int|
            0 <= k < a.len() ==> #[trigger] a[k] != '[' && a[k] != ']' && a[k] != '&' && a[k] != '-'
                && a[k] != '~' && a[k] != '\\' && a[k] != '^',
        forall|k: int|
            0 <= k < c.len() ==> #[trigger] c[k] != '[' && c[k] != ']' && c[k] != '&' && c[k] != '-'
                && c[k] != '~' && c[k] != '\\' && c[k] != '^',
        forall|k: int|
            0 <= k < body.len() ==> #[trigger] body[k] != '[' && body[k] != ']' && body[k] != '&'
                && body[k] != '-' && body[k] != '~',
        0 <= j < i < body.len(),
        body[i] == 'n' || body[i] == 'r' || body[i] == 's',
        (i - j) % 2 == 1,
        forall|k: int| j <= k < i ==> #[trigger] body[k] == '\\',
        j == 0 || body[j - 1] != '\\',
        body[0] != '^',
        body.last() != '\\',
    ensures
        is_multiline(regex),
{
    let m: int = 1 + a.len() as int;
    let n: int = m + 1 + body.len();
    let o: int = n + 1 + c.len();
    assert(regex[0] == '[');
    assert(scan_breaks(regex, 0) == BreakScan::start());
    assert(scan_breaks(regex, 1) == BreakScan::start().read('['));
    assert forall|k: int| 0 <= k < a.len() implies regex[1 + k] == #[trigger] a[k] by {}
    lemma_scan_plain(regex, 1, a, a.len() as int);
    assert(regex[m] == '[');
    assert(scan_breaks(regex, m + 1) == scan_breaks(regex, m).read('['));
    assert forall|k: int| 0 <= k < body.len() implies regex[m + 1 + k] == #[trigger] body[k] by {}
    lemma_scan_plain_class(regex, m + 1, body, body.len() as int);
    lemma_run_from(body, j, i);
    assert(named(body, i));
    assert(regex[n] == ']');
    assert(scan_breaks(regex, n + 1) == scan_breaks(regex, n).read(']'));
    assert forall|k: int| 0 <= k < c.len() implies regex[n + 1 + k] == #[trigger] c[k] by {}
    lemma_scan_plain(regex, n + 1, c, c.len() as int);
    assert(regex[o] == ']');
    assert(scan_breaks(regex, o + 1) == scan_breaks(regex, o).read(']'));
}

/// Reading the body of a class where escapes do not count, from position `m` on.
proof fn lemma_scan_negated_body(regex: Seq<char>, m: int, body: Seq<char>, n: int)
    requires
        0 <= m,
        forall|k: int| 0 <= k < body.len() ==> regex[m + k] == #[trigger] body[k],
        forall|k: int| 0 <= k < body.len() ==> #[trigger] body[k] != '[' && body[k] != ']',
        body.len() > 0,
        body[0] != '^',
        scan_breaks(regex, m).depth > 0,
        scan_breaks(regex, m).negated > 0,
        !scan_breaks(regex, m).escaped,
        !scan_breaks(regex, m).pending,
        !scan_breaks(regex, m).found,
        0 <= n <= body.len(),
    ensures
        ({
            let s = scan_breaks(regex, m);
            let t = scan_breaks(regex, m + n);
            &&& t.depth == s.depth
            &&& t.negated == s.negated
            &&& !t.pending
            &&& !t.found
            &&& t.escaped ==> n > 0 && body[n - 1] == '\\'
            &&& t.fresh ==> n == 0 || t.escaped
        }),
    decreases n,
{
    if n > 0 {
        lemma_scan_negated_body(regex, m, body, n - 1);
        assert(regex[m + (n - 1)] == body[n - 1]);
        assert(scan_breaks(regex, m + n) == scan_breaks(regex, m + n - 1).read(body[n - 1]));
    }
}

/// Escapes in a class that stands in a negated one do not count either.
pub proof fn class_in_a_negated_class_stays_on_its_line(
    regex: Seq<char>,
    a: Seq<char>,
    body: Seq<char>,
    c: Seq<char>,
)
    requires
        regex == seq!['[', '^'] + a + seq!['['] + body + seq![']'] + c + seq![']'],
        forall|k: int|
            0 <= k < a.len() ==> #[trigger] a[k] != '[' && a[k] != ']' && a[k] != '&' && a[k] != '-'
                && a[k] != '~' && a[k] != '\\' && a[k] != '^' && a[k] != '\n' && a[k] != '\r',
        forall|k: int|
            0 <= k < c.len() ==> #[trigger] c[k] != '[' && c[k] != ']' && c[k] != '&' && c[k] != '-'
                && c[k] != '~' && c[k] != '\\' && c[k] != '^' && c[k] != '\n' && c[k] != '\r',
        forall|k: int|
            0 <= k < body.len() ==> #[trigger] body[k] != '[' && body[k] != ']' && body[k] != '\n'
                && body[k] != '\r',
        body.len() > 0,
        body[0] != '^',
        body.last() != '\\',
    ensures
        !is_multiline(regex),
{
    let m: int = 2 + a.len() as int;
    let n: int = m + 1 + body.len();
    let o: int = n + 1 + c.len();
    assert(regex[0] == '[');
    assert(regex[1] == '^');
    assert(scan_breaks(regex, 0) == BreakScan::start());
    assert(scan_breaks(regex, 1) == BreakScan::start().read('['));
    assert(scan_breaks(regex, 2) == scan_breaks(regex, 1).read('^'));
    assert forall|k: int| 0 <= k < a.len() implies regex[2 + k] == #[trigger] a[k] by {}
    lemma_scan_plain(regex, 2, a, a.len() as int);
    assert(regex[m] == '[');
    assert(scan_breaks(regex, m + 1) == scan_breaks(regex, m).read('['));
    assert forall|k: int| 0 <= k < body.len() implies regex[m + 1 + k] == #[trigger] body[k] by {}
    lemma_scan_negated_body(regex, m + 1, body, body.len() as int);
    assert(regex[n] == ']');
    assert(scan_breaks(regex, n + 1) == scan_breaks(regex, n).read(']'));
    assert forall|k: int| 0 <= k < c.len() implies regex[n + 1 + k] == #[trigger] c[k] by {}
    lemma_scan_plain(regex, n + 1, c, c.len() as int);
    assert(regex[o] == ']');
    assert(scan_breaks(regex, o + 1) == scan_breaks(regex, o).read(']'));
    assert forall|k: int| 0 <= k < regex.len() implies #[trigger] regex[k] != '\n' && regex[k]
        != '\r' && (regex[k] == '[' ==> k == 0 || k == m) by {
        if 2 <= k < m {
            assert(regex[2 + (k - 2)] == a[k - 2]);
        } else if m < k < n {
            assert(regex[m + 1 + (k - m - 1)] == body[k - m - 1]);
        } else if n < k < o {
            assert(regex[n + 1 + (k - n - 1)] == c[k - n - 1]);
        }
    }
    lemma_no_raw_parts(regex);
}

/// Nor do those in a negated class that stands in another one.
pub proof fn negated_class_in_a_class_stays_on_its_line(
    regex: Seq<char>,
    a: Seq<char>,
    body: Seq<char>,
    c: Seq<char>,
)
    requires
        regex == seq!['['] + a + seq!['[', '^'] + body + seq![']'] + c + seq![']'],
        a.len() > 0,
        forall|k: int|
            0 <= k < a.len() ==> #[trigger] a[k] != '[' && a[k] != ']' && a[k] != '&' && a[k] != '-'
                && a[k] != '~' && a[k] != '\\' && a[k] != '^' && a[k] != '\n' && a[k] != '\r',
        forall|k: int|
            0 <= k < c.len() ==> #[trigger] c[k] != '[' && c[k] != ']' && c[k] != '&' && c[k] != '-'
                && c[k] != '~' && c[k] != '\\' && c[k] != '^' && c[k] != '\n' && c[k] != '\r',
        forall|k: int|
            0 <= k < body.len() ==> #[trigger] body[k] != '[' && body[k] != ']' && body[k] != '\n'
                && body[k] != '\r',
        body.len() > 0,
        body[0] != '^',
        body.last() != '\\',
    ensures
        !is_multiline(regex),
{
    let m: int = 1 + a.len() as int;
    let n: int = m + 2 + body.len();
    let o: int = n + 1 + c.len();
    assert(regex[0] == '[');
    assert(scan_breaks(regex, 0) == BreakScan::start());
    assert(scan_breaks(regex, 1) == BreakScan::start().read('['));
    assert forall|k: int| 0 <= k < a.len() implies regex[1 + k] == #[trigger] a[k] by {}
    lemma_scan_plain(regex, 1, a, a.len() as int);
    assert(regex[m] == '[');
    assert(regex[m + 1] == '^');
    assert(scan_breaks(regex, m + 1) == scan_breaks(regex, m).read('['));
    assert(scan_breaks(regex, m + 2) == scan_breaks(regex, m + 1).read('^'));
    assert forall|k: int| 0 <= k < body.len() implies regex[m + 2 + k] == #[trigger] body[k] by {}
    lemma_scan_negated_body(regex, m + 2, body, body.len() as int);
    assert(regex[n] == ']');
    assert(scan_breaks(regex, n + 1) == scan_breaks(regex, n).read(']'));
    assert forall|k: int| 0 <= k < c.len() implies regex[n + 1 + k] == #[trigger] c[k] by {}
    lemma_scan_plain(regex, n + 1, c, c.len() as int);
    assert(regex[o] == ']');
    assert(scan_breaks(regex, o + 1) == scan_breaks(regex, o).read(']'));
    assert forall|k: int| 0 <= k < regex.len() implies #[trigger] regex[k] != '\n' && regex[k]
        != '\r' && (regex[k] == '[' ==> k == 0 || k == m) by {
        if 1 <= k < m {
            assert(regex[1 + (k - 1)] == a[k - 1]);
        } else if m + 1 < k < n {
            assert(regex[m + 2 + (k - m - 2)] == body[k - m - 2]);
        } else if n < k < o {
            assert(regex[n + 1 + (k - n - 1)] == c[k - n - 1]);
        }
    }
    lemma_no_raw_parts(regex);
}

proof fn lemma_scan_front(a: Seq<char>, b: Seq<char>, n: int)
    requires
        0 <= n <= a.len(),
    ensures
        scan_breaks(a + b, n) == scan_breaks(a, n),
    decreases n,
{
    if n > 0 {
        lemma_scan_front(a, b, n - 1);
        assert((a + b)[n - 1] == a[n - 1]);
    }
}

proof fn lemma_scan_keeps(regex: Seq<char>, m: int, n: int)
    requires
        0 <= m <= n,
    ensures
        scan_breaks(regex, m).found ==> scan_breaks(regex, n).found,
    decreases n,
{
    if m < n {
        lemma_scan_keeps(regex, m, n - 1);
    }
}

proof fn lemma_part_in_concat(a: Seq<char>, b: Seq<char>, part: Seq<char>)
    ensures
        contains_part(a, part) || contains_part(b, part) ==> contains_part(a + b, part),
{
    if contains_part(a, part) {
        let i = choose|i: int|
            0 <= i <= a.len() - part.len() && #[trigger] a.subrange(i, i + part.len()) == part;
        assert((a + b).subrange(i, i + part.len()) =~= a.subrange(i, i + part.len()));
    }
    if contains_part(b, part) {
        let i = choose|i: int|
            0 <= i <= b.len() - part.len() && #[trigger] b.subrange(i, i + part.len()) == part;
        let k = a.len() + i;
        assert((a + b).subrange(k, k + part.len()) =~= b.subrange(i, i + part.len()));
    }
}

/// An expression that can match several lines still can with more behind it.
pub proof fn more_behind_does_not_matter(a: Seq<char>, b: Seq<char>)
    requires
        is_multiline(a),
    ensures
        is_multiline(a + b),
{
    lemma_part_in_concat(a, b, "\n"@);
    lemma_part_in_concat(a, b, "\r"@);
    lemma_part_in_concat(a, b, "[[:space:]]"@);
    lemma_scan_front(a, b, a.len() as int);
    lemma_scan_keeps(a + b, a.len() as int, (a + b).len() as int);
}

/// Behind something that leaves no class open, the reading starts afresh.
proof fn lemma_scan_behind(a: Seq<char>, b: Seq<char>, n: int)
    requires
        scan_breaks(a, a.len() as int).depth == 0,
        scan_breaks(a, a.len() as int).negated == 0,
        !scan_breaks(a, a.len() as int).escaped,
        0 <= n <= b.len(),
    ensures
        ({
            let s = scan_breaks(a + b, a.len() + n);
            let t = scan_breaks(b, n);
            &&& s.escaped == t.escaped
            &&& s.depth == t.depth
            &&& s.negated == t.negated
            &&& s.depth > 0 ==> s.fresh == t.fresh && s.prev == t.prev && s.pending == t.pending
                && s.operated == t.operated
            &&& s.found == (scan_breaks(a, a.len() as int).found || t.found)
        }),
    decreases n,
{
    if n == 0 {
        lemma_scan_front(a, b, a.len() as int);
    } else {
        lemma_scan_behind(a, b, n - 1);
        assert((a + b)[a.len() + n - 1] == b[n - 1]);
    }
}

proof fn lemma_scan_any_class(regex: Seq<char>, body: Seq<char>, n: int)
    requires
        regex == seq!['['] + body + seq![']'],
        !body.contains('['),
        !body.contains(']'),
        0 <= n <= body.len(),
    ensures
        ({
            let s = scan_breaks(regex, n + 1);
            &&& s.depth == 1
            &&& s.negated <= 1
            &&& s.escaped ==> n > 0 && body[n - 1] == '\\'
            &&& s.fresh ==> n == 0 || s.escaped || (n == 1 && body[0] == '^')
        }),
    decreases n,
{
    assert(regex[0] == '[');
    assert(scan_breaks(regex, 0) == BreakScan::start());
    assert(scan_breaks(regex, 1) == BreakScan::start().read('['));
    if n == 1 {
        assert(scan_breaks(regex, 1).prev == '[');
    }
    if n > 0 {
        lemma_scan_any_class(regex, body, n - 1);
        assert(regex[n] == body[n - 1]);
        assert(body[n - 1] != '[' && body[n - 1] != ']');
        assert(scan_breaks(regex, n + 1) == scan_breaks(regex, n).read(body[n - 1]));
    }
}

proof fn lemma_parts(a: Seq<char>, b: Seq<char>)
    requires
        scan_breaks(a, a.len() as int).depth == 0,
        scan_breaks(a, a.len() as int).negated == 0,
        !scan_breaks(a, a.len() as int).escaped,
    ensures
        is_multiline(a) || is_multiline(b) ==> is_multiline(a + b),
        !(a + b).contains('\n') && !(a + b).contains('\r') && (forall|k: int|
            0 < k < (a + b).len() && #[trigger] (a + b)[k] == '[' ==> (a + b)[k - 1] != '[')
            && is_multiline(a + b) ==> is_multiline(a) || is_multiline(b),
{
    lemma_part_in_concat(a, b, "\n"@);
    lemma_part_in_concat(a, b, "\r"@);
    lemma_part_in_concat(a, b, "[[:space:]]"@);
    lemma_scan_behind(a, b, b.len() as int);
    if !(a + b).contains('\n') && !(a + b).contains('\r') && (forall|k: int|
        0 < k < (a + b).len() && #[trigger] (a + b)[k] == '[' ==> (a + b)[k - 1] != '[') {
        lemma_no_raw_parts(a + b);
    }
}

/// Where an expression goes on behind something without classes that does not end in a
/// backslash, it can match several lines if one of the two parts can. If neither can, and
/// there are no line breaks and no classes that open with a class, it cannot.
pub proof fn parts_count_one_by_one(a: Seq<char>, b: Seq<char>)
    requires
        !a.contains('['),
        a.len() == 0 || a.last() != '\\',
    ensures
        is_multiline(a) || is_multiline(b) ==> is_multiline(a + b),
        !(a + b).contains('\n') && !(a + b).contains('\r') && (forall|k: int|
            0 < k < (a + b).len() && #[trigger] (a + b)[k] == '[' ==> (a + b)[k - 1] != '[')
            && is_multiline(a + b) ==> is_multiline(a) || is_multiline(b),
{
    lemma_scan_without_classes(a, a.len() as int);
    lemma_parts(a, b);
}

/// The same holds behind a class.
pub proof fn parts_behind_a_class_count_one_by_one(a: Seq<char>, body: Seq<char>, b: Seq<char>)
    requires
        a == seq!['['] + body + seq![']'],
        !body.contains('['),
        !body.contains(']'),
        body.len() > 0,
        body[0] == '^' ==> body.len() > 1,
        body.last() != '\\',
    ensures
        is_multiline(a) || is_multiline(b) ==> is_multiline(a + b),
        !(a + b).contains('\n') && !(a + b).contains('\r') && (forall|k: int|
            0 < k < (a + b).len() && #[trigger] (a + b)[k] == '[' ==> (a + b)[k - 1] != '[')
            && is_multiline(a + b) ==> is_multiline(a) || is_multiline(b),
{
    let n = body.len() as int;
    lemma_scan_any_class(a, body, n);
    assert(a[n + 1] == ']');
    assert(scan_breaks(a, n + 2) == scan_breaks(a, n + 1).read(']'));
    lemma_parts(a, b);
}

} // verus!
