//! Quick scans of a stretch of text for a place where a match may start.

use vstd::prelude::*;
use vstd::utf8::{
    encode_utf8, encode_utf8_decode_utf8, encode_utf8_valid_utf8, is_char_boundary,
    is_char_boundary_start_end_of_seq, valid_utf8,
};

use crate::lowercase::{char_lower, lower_char};
use crate::text::{char_at, lead_width, lemma_next_boundary, tail};

verus! {

/// `memchr::memchr`: the index of the first byte that equals the needle.
pub assume_specification[ memchr::memchr ](needle: u8, haystack: &[u8]) -> (r: Option<usize>)
    ensures
        r matches Some(i) ==> i < haystack@.len() && haystack@[i as int] == needle && forall|j: int|
            0 <= j < i ==> #[trigger] haystack@[j] != needle,
        r is None ==> forall|j: int| 0 <= j < haystack@.len() ==> #[trigger] haystack@[j] != needle,
;

/// `memchr::memchr2`: the index of the first byte that equals one of two needles.
pub assume_specification[ memchr::memchr2 ](needle1: u8, needle2: u8, haystack: &[u8]) -> (r:
    Option<usize>)
    ensures
        r matches Some(i) ==> i < haystack@.len() && (haystack@[i as int] == needle1
            || haystack@[i as int] == needle2) && forall|j: int|
            0 <= j < i ==> #[trigger] haystack@[j] != needle1 && haystack@[j] != needle2,
        r is None ==> forall|j: int|
            0 <= j < haystack@.len() ==> #[trigger] haystack@[j] != needle1 && haystack@[j]
                != needle2,
;

/// `memchr::memchr3`: the index of the first byte that equals one of three needles.
pub assume_specification[ memchr::memchr3 ](
    needle1: u8,
    needle2: u8,
    needle3: u8,
    haystack: &[u8],
) -> (r: Option<usize>)
    ensures
        r matches Some(i) ==> i < haystack@.len() && (haystack@[i as int] == needle1
            || haystack@[i as int] == needle2 || haystack@[i as int] == needle3) && forall|j: int|
            0 <= j < i ==> #[trigger] haystack@[j] != needle1 && haystack@[j] != needle2
                && haystack@[j] != needle3,
        r is None ==> forall|j: int|
            0 <= j < haystack@.len() ==> #[trigger] haystack@[j] != needle1 && haystack@[j]
                != needle2 && haystack@[j] != needle3,
;

/// What a scan looks for.
pub enum Scanner {
    /// Any place at all.
    Anywhere,
    /// A byte.
    Byte(u8),
    /// One of two bytes.
    Byte2(u8, u8),
    /// One of three bytes.
    Byte3(u8, u8, u8),
    /// A character whose lowercase form starts with this one.
    Lowercase(char),
}

impl Scanner {
    /// Whether position `p` of a text is what the scan looks for.
    pub open spec fn stops_at(self, bytes: Seq<u8>, p: int) -> bool {
        match self {
            Scanner::Anywhere => true,
            Scanner::Byte(a) => bytes[p] == a,
            Scanner::Byte2(a, b) => bytes[p] == a || bytes[p] == b,
            Scanner::Byte3(a, b, c) => bytes[p] == a || bytes[p] == b || bytes[p] == c,
            Scanner::Lowercase(c) => is_char_boundary(bytes, p) && char_lower(
                char_at(bytes, p),
            )[0] == c,
        }
    }

    /// Whether the scan of a text finds position `p`: the first of those it looks for. A
    /// scan for any place finds the front, even of an empty text.
    pub open spec fn finds(self, bytes: Seq<u8>, p: int) -> bool {
        if self is Anywhere {
            p == 0
        } else {
            &&& 0 <= p < bytes.len()
            &&& self.stops_at(bytes, p)
            &&& forall|j: int| 0 <= j < p ==> !#[trigger] self.stops_at(bytes, j)
        }
    }

    /// Scans a text. Returns the byte offset of the place found.
    pub fn scan(&self, s: &str) -> (r: Option<usize>)
        ensures
            r matches Some(i) ==> self.finds(encode_utf8(s@), i as int),
            r is None ==> forall|i: int| !#[trigger] self.finds(encode_utf8(s@), i),
    {
        match self {
            Scanner::Anywhere => Some(0),
            Scanner::Byte(a) => memchr::memchr(*a, s.as_bytes()),
            Scanner::Byte2(a, b) => memchr::memchr2(*a, *b, s.as_bytes()),
            Scanner::Byte3(a, b, c) => memchr::memchr3(*a, *b, *c, s.as_bytes()),
            Scanner::Lowercase(c) => scan_lowercase(*c, s),
        }
    }
}

/// Scans for a character that, after conversion to lowercase, starts with the probe.
/// Returns its byte offset.
pub fn scan_lowercase(probe: char, s: &str) -> (r: Option<usize>)
    ensures
        r matches Some(i) ==> Scanner::Lowercase(probe).finds(encode_utf8(s@), i as int),
        r is None ==> forall|i: int|
            !#[trigger] Scanner::Lowercase(probe).finds(encode_utf8(s@), i),
{
    let bytes = s.as_bytes();
    let n: usize = bytes.len();
    let ghost b = encode_utf8(s@);
    let ghost scanner = Scanner::Lowercase(probe);
    let mut i: usize = 0;
    proof {
        encode_utf8_valid_utf8(s@);
        is_char_boundary_start_end_of_seq(b);
    }
    while i < n
        invariant
            b == encode_utf8(s@),
            bytes@ == b,
            n == b.len(),
            valid_utf8(b),
            i <= n,
            is_char_boundary(b, i as int),
            scanner == Scanner::Lowercase(probe),
            forall|j: int| 0 <= j < i ==> !#[trigger] scanner.stops_at(b, j),
        decreases n - i,
    {
        let rest = s.split_at(i).1;
        proof {
            lemma_next_boundary(b, i as int);
            encode_utf8_decode_utf8(rest@);
            assert(encode_utf8(rest@) == tail(b, i as int));
        }
        match rest.chars().next() {
            Some(c) => {
                assert(c == char_at(b, i as int));
                let lower = lower_char(c);
                if lower[0] == probe {
                    return Some(i);
                }
            },
            None => {},
        }
        assert(tail(b, i as int)[0] == bytes@[i as int]);
        i = i + lead_width(bytes[i]);
    }
    None
}

/// The scan for places where lowercased text may start with `folded`, which is nonempty
/// and in lowercase itself. The letters `i` and `k` have a lowercase source outside
/// ASCII: U+0130, whose encoding starts with 0xC4, and the Kelvin sign, whose encoding
/// starts with 0xE2.
pub open spec fn folded_scanner(folded: Seq<char>) -> Scanner {
    let b = encode_utf8(folded)[0];
    if b == 0x69 {
        Scanner::Byte3(0x69, 0x49, 0xc4)
    } else if b == 0x6b {
        Scanner::Byte3(0x6b, 0x4b, 0xe2)
    } else if 0x61 <= b <= 0x7a {
        Scanner::Byte2(b, (b - 0x20) as u8)
    } else if b < 0x80 {
        Scanner::Byte(b)
    } else {
        Scanner::Lowercase(folded[0])
    }
}

/// The scan for a lowercased pattern.
pub fn scanner_for_folded(folded: &str) -> (scanner: Scanner)
    requires
        folded@.len() > 0,
    ensures
        scanner == folded_scanner(folded@),
{
    proof {
        crate::text::lemma_encode_len(folded@);
    }
    let b: u8 = folded.as_bytes()[0];
    if b == 0x69 {
        Scanner::Byte3(0x69, 0x49, 0xc4)
    } else if b == 0x6b {
        Scanner::Byte3(0x6b, 0x4b, 0xe2)
    } else if b >= 0x61 && b <= 0x7a {
        Scanner::Byte2(b, b - 0x20)
    } else if b < 0x80 {
        Scanner::Byte(b)
    } else {
        match folded.chars().next() {
            Some(c) => Scanner::Lowercase(c),
            None => Scanner::Byte(b),
        }
    }
}

} // verus!
