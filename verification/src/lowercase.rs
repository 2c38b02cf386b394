//! Lowercasing, as the standard library defines it.

use vstd::prelude::*;
use vstd::utf8::is_ascii_chars;

verus! {

/// The characters that `char::to_lowercase` yields for a character.
pub uninterp spec fn unicode_lower(c: char) -> Seq<char>;

/// The string that `str::to_lowercase` returns for a string.
pub uninterp spec fn unicode_lowercase(s: Seq<char>) -> Seq<char>;

/// The ASCII lowercase letter for an ASCII capital, any other character unchanged.
pub open spec fn ascii_lower(c: char) -> char {
    if 'A' <= c <= 'Z' {
        ((c as u32) + 32) as char
    } else {
        c
    }
}

/// What the Unicode Character Database says of `l` as the lowercase mapping of `c`. It is
/// not empty. An ASCII character has its ASCII lowercase form. Of the others only U+0130
/// and the Kelvin sign have a mapping that starts with an ASCII character: `i` and `k`.
pub open spec fn is_lower_mapping(c: char, l: Seq<char>) -> bool {
    &&& l.len() > 0
    &&& c <= '\u{7f}' ==> l == seq![ascii_lower(c)]
    &&& c > '\u{7f}' && l[0] <= '\u{7f}' ==> {
        ||| c == '\u{130}' && l[0] == 'i'
        ||| c == '\u{212a}' && l[0] == 'k'
    }
}

/// The characters that `c` becomes in lowercase: those that `char::to_lowercase` yields,
/// which are always as `is_lower_mapping` says.
pub open spec fn char_lower(c: char) -> Seq<char> {
    if is_lower_mapping(c, unicode_lower(c)) {
        unicode_lower(c)
    } else {
        seq![ascii_lower(c)]
    }
}

/// The characters of `s`, each in lowercase.
pub open spec fn lower_each(s: Seq<char>) -> Seq<char>
    decreases s.len(),
{
    if s.len() == 0 {
        Seq::empty()
    } else {
        lower_each(s.drop_last()) + char_lower(s.last())
    }
}

/// What holds of `t` as the lowercase form of the string `s`. It is empty only if `s` is,
/// each character of an ASCII string has its ASCII lowercase form, and a string whose
/// characters all are their own lowercase form stays as it is.
pub open spec fn is_lower_form(s: Seq<char>, t: Seq<char>) -> bool {
    &&& s.len() > 0 ==> t.len() > 0
    &&& is_ascii_chars(s) ==> t == s.map_values(|c: char| ascii_lower(c))
    &&& lower_each(s) == s ==> t == s
}

/// The string `s` in lowercase: what `str::to_lowercase` returns, which is always as
/// `is_lower_form` says.
pub open spec fn str_lower(s: Seq<char>) -> Seq<char> {
    if is_lower_form(s, unicode_lowercase(s)) {
        unicode_lowercase(s)
    } else {
        lower_each(s)
    }
}

/// Calls `char::to_lowercase` and collects the characters that it yields. Claims that
/// they depend on the character alone. The documentation has them be one or more, and the
/// mapping that the Unicode Character Database gives without regard to context or
/// language, and the character itself where the database gives none. Of that database
/// `is_lower_mapping` repeats what concerns ASCII.
#[verifier::external_body]
pub(crate) fn lower_char(c: char) -> (r: Vec<char>)
    ensures
        r@ == unicode_lower(c),
        is_lower_mapping(c, r@),
{
    c.to_lowercase().collect()
}

/// `str::to_lowercase`: claims that the result depends on the string alone, that a string
/// of one or more characters does not become empty, that ASCII letters become ASCII
/// letters, and that a string without anything to lowercase is not changed. Left unsaid is
/// when a capital sigma becomes the final form of the small one.
pub assume_specification[ str::to_lowercase ](s: &str) -> (r: String)
    ensures
        r@ == unicode_lowercase(s@),
        is_lower_form(s@, r@),
;

/// Every character has a lowercase mapping of the kind that the tables hold.
pub proof fn lemma_char_lower(c: char)
    ensures
        is_lower_mapping(c, char_lower(c)),
{
}

/// Lowercasing character by character respects concatenation.
pub proof fn lemma_lower_concat(a: Seq<char>, b: Seq<char>)
    ensures
        lower_each(a + b) == lower_each(a) + lower_each(b),
    decreases b.len(),
{
    if b.len() == 0 {
        assert(a + b =~= a);
        assert(lower_each(a) + lower_each(b) =~= lower_each(a));
    } else {
        assert((a + b).drop_last() =~= a + b.drop_last());
        lemma_lower_concat(a, b.drop_last());
        assert(lower_each(a + b) =~= lower_each(a) + lower_each(b));
    }
}

/// One character in lowercase.
pub proof fn lemma_lower_one(c: char)
    ensures
        lower_each(seq![c]) == char_lower(c),
{
    let none = seq![c].drop_last();
    assert(none =~= Seq::empty());
    assert(lower_each(none) =~= Seq::empty());
    assert(lower_each(seq![c]) =~= char_lower(c));
}

/// Lowercasing never shortens.
pub proof fn lemma_lower_len(s: Seq<char>)
    ensures
        lower_each(s).len() >= s.len(),
    decreases s.len(),
{
    if s.len() > 0 {
        lemma_lower_len(s.drop_last());
        lemma_char_lower(s.last());
    }
}

/// Of an ASCII string each character gets its ASCII lowercase form.
pub proof fn lemma_lower_ascii(s: Seq<char>)
    requires
        is_ascii_chars(s),
    ensures
        lower_each(s) == s.map_values(|c: char| ascii_lower(c)),
    decreases s.len(),
{
    let mapped = s.map_values(|c: char| ascii_lower(c));
    if s.len() == 0 {
        assert(lower_each(s) =~= mapped);
    } else {
        let front = s.drop_last();
        assert forall|i: int| 0 <= i < front.len() implies '\0' <= #[trigger] front[i]
            <= '\u{7f}' by {
            assert(front[i] == s[i]);
        }
        lemma_lower_ascii(front);
        lemma_char_lower(s.last());
        assert(s.last() == s[s.len() - 1]);
        assert(lower_each(s) =~= mapped);
    }
}

/// Every string has a lowercase form of the kind that `str::to_lowercase` gives.
pub proof fn lemma_str_lower(s: Seq<char>)
    ensures
        is_lower_form(s, str_lower(s)),
{
    lemma_lower_len(s);
    if is_ascii_chars(s) {
        lemma_lower_ascii(s);
    }
}

} // verus!
