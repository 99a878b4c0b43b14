//! A single directory or file name within a path, stored percent-encoded.

use vstd::prelude::*;
use crate::text::{hex_char, hex_digit, push_char};

verus! {

/// Bytes that never appear literally in an encoded part: control characters,
/// everything outside ASCII, the delimiter, the percent sign itself, and the
/// punctuation that object stores advise against in keys.
pub open spec fn is_reserved(b: u8) -> bool {
    b < 0x20 || b >= 0x7f || b == 0x2f || b == 0x5c || b == 0x7b || b == 0x5e || b == 0x7d
        || b == 0x25 || b == 0x60 || b == 0x5d || b == 0x22 || b == 0x3e || b == 0x5b || b == 0x7e
        || b == 0x3c || b == 0x23 || b == 0x7c || b == 0x2a || b == 0x3f
}

/// The encoded form of one byte: itself when it is not reserved, otherwise a
/// percent sign followed by its two hexadecimal digits.
pub open spec fn encode_byte(b: u8) -> Seq<char> {
    if is_reserved(b) {
        seq!['%', hex_digit(b / 16), hex_digit(b % 16)]
    } else {
        seq![b as char]
    }
}

/// The encoded form of the first `n` bytes of `bytes`.
pub open spec fn encode_prefix(bytes: Seq<u8>, n: int) -> Seq<char>
    decreases n,
{
    if n <= 0 {
        Seq::empty()
    } else {
        encode_prefix(bytes, n - 1) + encode_byte(bytes[n - 1])
    }
}

/// Percent-encoding of a byte string.
pub open spec fn percent_encode(bytes: Seq<u8>) -> Seq<char> {
    encode_prefix(bytes, bytes.len() as int)
}

/// The stored form of the part named `raw`. The names `.` and `..` are
/// encoded in full so that no part can denote the current or parent
/// directory; every other name is percent-encoded byte by byte.
pub open spec fn encode_part(raw: Seq<char>) -> Seq<char> {
    if raw == seq!['.'] {
        seq!['%', '2', 'E']
    } else if raw == seq!['.', '.'] {
        seq!['%', '2', 'E', '%', '2', 'E']
    } else {
        percent_encode(vstd::utf8::encode_utf8(raw))
    }
}

fn is_reserved_byte(b: u8) -> (r: bool)
    ensures
        r == is_reserved(b),
{
    b < 0x20 || b >= 0x7f || b == 0x2f || b == 0x5c || b == 0x7b || b == 0x5e || b == 0x7d
        || b == 0x25 || b == 0x60 || b == 0x5d || b == 0x22 || b == 0x3e || b == 0x5b || b == 0x7e
        || b == 0x3c || b == 0x23 || b == 0x7c || b == 0x2a || b == 0x3f
}

/// One directory or file name of a path. The text it holds is always the
/// encoded form.
#[derive(Clone, Debug, PartialEq, Eq, PartialOrd, Ord, Default)]
pub struct PathPart {
    pub(crate) encoded: String,
}

impl View for PathPart {
    type V = Seq<char>;

    closed spec fn view(&self) -> Seq<char> {
        self.encoded@
    }
}

impl PathPart {
    /// Builds a part from an arbitrary name, encoding whatever is reserved.
    pub fn from(raw: &str) -> (part: PathPart)
        ensures
            part@ == encode_part(raw@),
    {
        let bytes = raw.as_bytes();
        proof {
            reveal_strlit(".");
            reveal_strlit("..");
            reveal_strlit("%2E");
            reveal_strlit("%2E%2E");
        }
        if raw.unicode_len() == 1 && raw.get_char(0) == '.' {
            assert(raw@ =~= seq!['.']);
            let encoded = "%2E".to_owned();
            assert(encoded@ =~= seq!['%', '2', 'E']);
            return PathPart { encoded };
        }
        if raw.unicode_len() == 2 && raw.get_char(0) == '.' && raw.get_char(1) == '.' {
            assert(raw@ =~= seq!['.', '.']);
            let encoded = "%2E%2E".to_owned();
            assert(encoded@ =~= seq!['%', '2', 'E', '%', '2', 'E']);
            return PathPart { encoded };
        }
        assert(raw@ != seq!['.']) by {
            if raw@ == seq!['.'] {
                assert(seq!['.'].len() == 1);
                assert(seq!['.'][0] == '.');
            }
        }
        assert(raw@ != seq!['.', '.']) by {
            if raw@ == seq!['.', '.'] {
                assert(seq!['.', '.'].len() == 2);
                assert(seq!['.', '.'][0] == '.');
                assert(seq!['.', '.'][1] == '.');
            }
        }
        let mut encoded = String::new();
        let mut i: usize = 0;
        while i < bytes.len()
            invariant
                i <= bytes.len(),
                encoded@ == encode_prefix(bytes@, i as int),
            decreases bytes.len() - i,
        {
            let b = bytes[i];
            if is_reserved_byte(b) {
                push_char(&mut encoded, '%');
                push_char(&mut encoded, hex_char(b / 16));
                push_char(&mut encoded, hex_char(b % 16));
                assert(encoded@ =~= encode_prefix(bytes@, i as int) + encode_byte(b));
            } else {
                push_char(&mut encoded, b as char);
                assert(encoded@ =~= encode_prefix(bytes@, i as int) + encode_byte(b));
            }
            i += 1;
        }
        PathPart { encoded }
    }

    /// Wraps text that is already in encoded form, as received from a store.
    pub fn from_encoded(encoded: String) -> (part: PathPart)
        ensures
            part@ == encoded@,
    {
        PathPart { encoded }
    }

    /// The encoded text of this part.
    pub fn encoded(&self) -> (s: &str)
        ensures
            s@ == self@,
    {
        self.encoded.as_str()
    }

    /// Whether two parts hold the same text.
    pub fn same_as(&self, other: &PathPart) -> (r: bool)
        ensures
            r == (self@ == other@),
    {
        self.encoded == other.encoded
    }

    /// A copy of this part.
    pub fn duplicate(&self) -> (part: PathPart)
        ensures
            part@ == self@,
    {
        PathPart { encoded: self.encoded.clone() }
    }
}

} // verus!
