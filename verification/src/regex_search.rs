//! Searching a stretch of text for a regular expression.

use regex::RegexBuilder;
use vstd::prelude::*;
use vstd::utf8::{encode_utf8, is_char_boundary};

verus! {

/// The largest compiled regular expression that a search accepts, in bytes.
pub const REGEX_SIZE_LIMIT: usize = 10000;

/// Whether `RegexBuilder::build` accepts a pattern under a size limit. How large the
/// compiled form is depends on the width of a machine word.
pub uninterp spec fn regex_compiles(
    pat: Seq<char>,
    size_limit: int,
    case_insensitive: bool,
    word_bits: int,
) -> bool;

/// The byte offsets at which the match that `Regex::find` reports starts and ends.
pub uninterp spec fn regex_match(
    pat: Seq<char>,
    case_insensitive: bool,
    text: Seq<char>,
) -> Option<(int, int)>;

/// The error of the `regex` crate.
#[verifier::external_type_specification]
#[verifier::external_body]
pub struct ExRegexError(regex::Error);

/// Whether `m` can be a match in `text`: a stretch of it that starts and ends on
/// character boundaries.
pub open spec fn is_stretch(text: Seq<char>, m: (int, int)) -> bool {
    &&& 0 <= m.0 <= m.1 <= encode_utf8(text).len()
    &&& is_char_boundary(encode_utf8(text), m.0)
    &&& is_char_boundary(encode_utf8(text), m.1)
}

/// Compiles a pattern with `RegexBuilder` and searches a text with `Regex::find`.
/// Claims that compiling fails or not according to the pattern, the two settings and
/// the machine word alone, that the match depends on the pattern, the case setting and
/// the text alone, and that a match is a stretch of the text between character
/// boundaries.
#[verifier::external_body]
pub(crate) fn regex_find(
    pat: &str,
    size_limit: usize,
    case_insensitive: bool,
    text: &str,
) -> (r: Result<Option<(usize, usize)>, regex::Error>)
    ensures
        r is Ok <==> regex_compiles(
            pat@,
            size_limit as int,
            case_insensitive,
            usize::BITS as int,
        ),
        r matches Ok(m) ==> regex_match(pat@, case_insensitive, text@) == (match m {
            Some((start, end)) => Some((start as int, end as int)),
            None => None,
        }),
        r matches Ok(Some((start, end))) ==> is_stretch(text@, (start as int, end as int)),
{
    let regex = RegexBuilder::new(pat)
        .size_limit(size_limit)
        .case_insensitive(case_insensitive)
        .build()?;
    Ok(regex.find(text).map(|m| (m.start(), m.end())))
}

/// Whether `part` occurs in `s`.
pub open spec fn contains_part(s: Seq<char>, part: Seq<char>) -> bool {
    exists|i: int|
        0 <= i <= s.len() - part.len() && #[trigger] s.subrange(i, i + part.len()) == part
}

/// What is known of a regular expression when it has been read up to some character.
pub struct BreakScan {
    /// Whether a backslash came last that escapes the next character.
    pub escaped: bool,
    /// How many bracketed classes are open.
    pub depth: nat,
    /// The depth of the outermost of them that is negated, or zero.
    pub negated: nat,
    /// Whether the innermost of them is still empty, so that a bracket does not close it.
    pub fresh: bool,
    /// The character read last, unless it was escaped.
    pub prev: char,
    /// Whether an escape for a line break stands in the outermost class, in no negated one.
    pub pending: bool,
    /// Whether the outermost class has an intersection or a difference in it.
    pub operated: bool,
    /// Whether an escape for a line break has been found that counts.
    pub found: bool,
}

/// Whether an escape of this character stands for a line break or for whitespace.
pub open spec fn escapes_break(c: char) -> bool {
    c == 'n' || c == 'r' || c == 's'
}

impl BreakScan {
    /// Before anything is read.
    pub open spec fn start() -> BreakScan {
        BreakScan {
            escaped: false,
            depth: 0,
            negated: 0,
            fresh: false,
            prev: '\0',
            pending: false,
            operated: false,
            found: false,
        }
    }

    /// After one more character. An escape counts outside of classes, and in a class if no
    /// class around it is negated or makes intersections or differences.
    pub open spec fn read(self, c: char) -> BreakScan {
        if self.escaped {
            BreakScan {
                escaped: false,
                fresh: false,
                prev: '\0',
                pending: self.pending || escapes_break(c) && self.depth > 0 && self.negated == 0,
                found: self.found || escapes_break(c) && self.depth == 0,
                ..self
            }
        } else if c == '\\' {
            BreakScan { escaped: true, ..self }
        } else if c == '[' {
            BreakScan {
                depth: self.depth + 1,
                fresh: true,
                prev: c,
                pending: self.depth > 0 && self.pending,
                operated: self.depth > 0 && self.operated,
                ..self
            }
        } else if self.depth == 0 {
            BreakScan { prev: c, ..self }
        } else if c == '^' && self.fresh && self.prev == '[' {
            BreakScan {
                negated: if self.negated == 0 {
                    self.depth
                } else {
                    self.negated
                },
                prev: c,
                ..self
            }
        } else if c == ']' && !self.fresh {
            BreakScan {
                depth: (self.depth - 1) as nat,
                negated: if self.negated == self.depth {
                    0
                } else {
                    self.negated
                },
                prev: c,
                found: self.found || self.depth == 1 && self.pending && !self.operated,
                ..self
            }
        } else {
            BreakScan {
                fresh: false,
                prev: c,
                operated: self.operated || self.prev == c && (c == '&' || c == '-' || c == '~'),
                ..self
            }
        }
    }
}

/// What is known of a regular expression after its first `n` characters.
pub open spec fn scan_breaks(regex: Seq<char>, n: int) -> BreakScan
    decreases n,
{
    if n <= 0 {
        BreakScan::start()
    } else {
        scan_breaks(regex, n - 1).read(regex[n - 1])
    }
}

/// Whether a regular expression has an escape for a line break or for whitespace: the
/// backslash is not itself escaped, and no class around it is negated or makes
/// intersections or differences.
pub open spec fn escapes_a_break(regex: Seq<char>) -> bool {
    scan_breaks(regex, regex.len() as int).found
}

/// Whether a regular expression names line breaks, as such, by an escape or by a class,
/// so that a match may run over several lines.
pub open spec fn is_multiline(regex: Seq<char>) -> bool {
    ||| contains_part(regex, "\n"@)
    ||| contains_part(regex, "\r"@)
    ||| contains_part(regex, "[[:space:]]"@)
    ||| escapes_a_break(regex)
}

/// The characters of a string.
pub(crate) fn chars_of(s: &str) -> (v: Vec<char>)
    ensures
        v@ == s@,
{
    let mut v: Vec<char> = Vec::new();
    for c in it: s.chars()
        invariant
            v@ == it.seq().take(it.index() as int),
            it.seq() == s@,
    {
        v.push(c);
    }
    v
}

fn contains(s: &str, part: &str) -> (r: bool)
    ensures
        r == contains_part(s@, part@),
{
    let s_chars = chars_of(s);
    let part_chars = chars_of(part);
    let n: usize = s_chars.len();
    let m: usize = part_chars.len();
    if m > n {
        return false;
    }
    if m == 0 {
        assert(s@.subrange(0, 0int + part@.len()) =~= part@);
        return true;
    }
    let mut i: usize = 0;
    while i < n - m + 1
        invariant
            s_chars@ == s@,
            part_chars@ == part@,
            n == s@.len(),
            m == part@.len(),
            0 < m <= n,
            i <= n - m + 1,
            forall|k: int| 0 <= k < i ==> #[trigger] s@.subrange(k, k + m) != part@,
        decreases n + 1 - m - i,
    {
        let mut j: usize = 0;
        while j < m && s_chars[i + j] == part_chars[j]
            invariant
                s_chars@ == s@,
                part_chars@ == part@,
                n == s@.len(),
                m == part@.len(),
                i + m <= n,
                j <= m,
                forall|k: int| 0 <= k < j ==> s@[i + k] == #[trigger] part@[k],
            decreases m - j,
        {
            j = j + 1;
        }
        if j == m {
            assert(s@.subrange(i as int, i + m) =~= part@);
            return true;
        }
        assert(s@.subrange(i as int, i + m)[j as int] != part@[j as int]);
        i = i + 1;
    }
    false
}

/// Whether a regular expression has an escape for a line break that counts.
fn has_break_escape(regex: &str) -> (r: bool)
    ensures
        r == escapes_a_break(regex@),
{
    let chars = chars_of(regex);
    let n: usize = chars.len();
    let mut escaped: bool = false;
    let mut depth: usize = 0;
    let mut negated: usize = 0;
    let mut fresh: bool = false;
    let mut prev: char = '\0';
    let mut pending: bool = false;
    let mut operated: bool = false;
    let mut found: bool = false;
    let mut i: usize = 0;
    while i < n
        invariant
            chars@ == regex@,
            n == chars@.len(),
            i <= n,
            depth <= i,
            scan_breaks(regex@, i as int) == (BreakScan {
                escaped,
                depth: depth as nat,
                negated: negated as nat,
                fresh,
                prev,
                pending,
                operated,
                found,
            }),
        decreases n - i,
    {
        let c: char = chars[i];
        if escaped {
            escaped = false;
            fresh = false;
            prev = '\0';
            if c == 'n' || c == 'r' || c == 's' {
                if depth == 0 {
                    found = true;
                } else if negated == 0 {
                    pending = true;
                }
            }
        } else if c == '\\' {
            escaped = true;
        } else if c == '[' {
            if depth == 0 {
                pending = false;
                operated = false;
            }
            depth = depth + 1;
            fresh = true;
            prev = c;
        } else if depth == 0 {
            prev = c;
        } else if c == '^' && fresh && prev == '[' {
            if negated == 0 {
                negated = depth;
            }
            prev = c;
        } else if c == ']' && !fresh {
            if depth == 1 && pending && !operated {
                found = true;
            }
            if negated == depth {
                negated = 0;
            }
            depth = depth - 1;
            prev = c;
        } else {
            fresh = false;
            if prev == c && (c == '&' || c == '-' || c == '~') {
                operated = true;
            }
            prev = c;
        }
        i = i + 1;
    }
    found
}

/// Whether a regular expression can match several lines.
pub fn is_multiline_regex(regex: &str) -> (r: bool)
    ensures
        r == is_multiline(regex@),
{
    contains(regex, "\n") || contains(regex, "\r") || contains(regex, "[[:space:]]")
        || has_break_escape(regex)
}

} // verus!
