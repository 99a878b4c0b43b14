//! Text primitives shared by the rest of the crate: the byte-wise order of
//! strings, prefix tests, and decimal rendering of integers.

use vstd::prelude::*;

verus! {

/// Whether `a` sorts strictly before `b` from position `i` on, comparing
/// byte by byte; a proper prefix sorts before its extensions.
pub open spec fn lex_lt_from(a: Seq<u8>, b: Seq<u8>, i: int) -> bool
    decreases a.len() - i,
{
    if i < 0 || i >= b.len() {
        false
    } else if i >= a.len() {
        true
    } else if a[i] != b[i] {
        a[i] < b[i]
    } else {
        lex_lt_from(a, b, i + 1)
    }
}

/// Lexicographic order on byte sequences.
pub open spec fn lex_lt(a: Seq<u8>, b: Seq<u8>) -> bool {
    lex_lt_from(a, b, 0)
}

/// Order on text: the lexicographic order of the UTF-8 encodings.
pub open spec fn text_lt(a: Seq<char>, b: Seq<char>) -> bool {
    lex_lt(vstd::utf8::encode_utf8(a), vstd::utf8::encode_utf8(b))
}

/// Two sequences that agree before `i` are ordered one way, the other way, or
/// are equal, and never two of these at once.
pub proof fn lemma_lex_trichotomy(a: Seq<u8>, b: Seq<u8>, i: int)
    requires
        0 <= i <= a.len(),
        i <= b.len(),
        forall|j: int| 0 <= j < i ==> a[j] == b[j],
    ensures
        lex_lt_from(a, b, i) || lex_lt_from(b, a, i) || a == b,
        !(lex_lt_from(a, b, i) && lex_lt_from(b, a, i)),
        a == b ==> !lex_lt_from(a, b, i) && !lex_lt_from(b, a, i),
    decreases a.len() - i,
{
    if i < a.len() && i < b.len() {
        if a[i] == b[i] {
            lemma_lex_trichotomy(a, b, i + 1);
        } else {
            assert(a != b);
        }
    } else if i == a.len() && i == b.len() {
        assert(a =~= b);
    } else {
        assert(a.len() != b.len());
    }
}

/// The byte-wise order is transitive.
pub proof fn lemma_lex_transitive(a: Seq<u8>, b: Seq<u8>, c: Seq<u8>, i: int)
    requires
        0 <= i,
        lex_lt_from(a, b, i),
        lex_lt_from(b, c, i),
    ensures
        lex_lt_from(a, c, i),
    decreases c.len() - i,
{
    if i < a.len() && i < b.len() && i < c.len() {
        if a[i] == b[i] && b[i] == c[i] {
            lemma_lex_transitive(a, b, c, i + 1);
        }
    }
}

/// Compares two byte strings lexicographically.
pub fn bytes_lt(a: &[u8], b: &[u8]) -> (r: bool)
    ensures
        r == lex_lt(a@, b@),
{
    let mut i: usize = 0;
    while i < a.len() && i < b.len()
        invariant
            i <= a.len(),
            i <= b.len(),
            lex_lt(a@, b@) == lex_lt_from(a@, b@, i as int),
        decreases a.len() - i,
    {
        if a[i] != b[i] {
            return a[i] < b[i];
        }
        i += 1;
    }
    i < b.len()
}

/// Compares two strings by their UTF-8 bytes.
pub fn str_lt(a: &str, b: &str) -> (r: bool)
    ensures
        r == text_lt(a@, b@),
{
    bytes_lt(a.as_bytes(), b.as_bytes())
}

/// Whether two byte strings are equal.
pub fn bytes_eq(a: &[u8], b: &[u8]) -> (r: bool)
    ensures
        r == (a@ == b@),
{
    if a.len() != b.len() {
        return false;
    }
    let mut i: usize = 0;
    while i < a.len()
        invariant
            i <= a.len(),
            a@.len() == b@.len(),
            forall|j: int| 0 <= j < i ==> a@[j] == b@[j],
        decreases a.len() - i,
    {
        if a[i] != b[i] {
            return false;
        }
        i += 1;
    }
    assert(a@ =~= b@);
    true
}

/// Whether two strings hold the same text.
pub fn str_eq(a: &str, b: &str) -> (r: bool)
    ensures
        r == (a@ == b@),
{
    let r = bytes_eq(a.as_bytes(), b.as_bytes());
    proof {
        vstd::utf8::encode_utf8_decode_utf8(a@);
        vstd::utf8::encode_utf8_decode_utf8(b@);
    }
    r
}

/// Whether the list holds the name.
pub open spec fn lists_name(names: Seq<String>, name: Seq<char>) -> bool {
    exists|i: int| 0 <= i < names.len() && (#[trigger] names[i])@ == name
}

/// Whether the list holds the name.
pub fn holds_name(names: &[String], name: &str) -> (r: bool)
    ensures
        r == lists_name(names@, name@),
{
    let mut i: usize = 0;
    while i < names.len()
        invariant
            i <= names.len(),
            forall|j: int| 0 <= j < i ==> (#[trigger] names@[j])@ != name@,
        decreases names.len() - i,
    {
        if str_eq(names[i].as_str(), name) {
            return true;
        }
        i += 1;
    }
    false
}

/// Whether every name of the list sorts strictly before the next one.
pub open spec fn ascending(names: Seq<String>) -> bool {
    forall|i: int| 0 <= i < names.len() - 1 ==> text_lt((#[trigger] names[i])@, names[i + 1]@)
}

/// Text that is neither before nor after other text is that text.
pub proof fn lemma_text_total(a: Seq<char>, b: Seq<char>)
    ensures
        text_lt(a, b) || text_lt(b, a) || a == b,
        !(text_lt(a, b) && text_lt(b, a)),
        !text_lt(a, a),
{
    lemma_lex_trichotomy(vstd::utf8::encode_utf8(a), vstd::utf8::encode_utf8(b), 0);
    lemma_lex_trichotomy(vstd::utf8::encode_utf8(a), vstd::utf8::encode_utf8(a), 0);
    vstd::utf8::encode_utf8_decode_utf8(a);
    vstd::utf8::encode_utf8_decode_utf8(b);
}

/// Puts `name` into an ascending list at its place, unless the list holds it
/// already.
pub fn insert_sorted(names: &mut Vec<String>, name: &str)
    requires
        ascending(old(names)@),
    ensures
        ascending(final(names)@),
        forall|s: Seq<char>|
            #[trigger] lists_name(final(names)@, s) <==> lists_name(old(names)@, s) || s == name@,
{
    let ghost before = names@;
    let mut p: usize = 0;
    while p < names.len() && str_lt(names[p].as_str(), name)
        invariant
            p <= names.len(),
            names@ == before,
            forall|j: int| 0 <= j < p ==> text_lt((#[trigger] before[j])@, name@),
        decreases names.len() - p,
    {
        p += 1;
    }
    if p < names.len() && str_eq(names[p].as_str(), name) {
        assert forall|s: Seq<char>| #[trigger]
            lists_name(names@, s) <==> lists_name(before, s) || s == name@ by {
            if s == name@ {
                assert(before[p as int]@ == s);
            }
        }
        return;
    }
    proof {
        if p < before.len() {
            lemma_text_total(before[p as int]@, name@);
        }
    }
    names.insert(p, name.to_owned());
    proof {
        let after = names@;
        assert forall|i: int| 0 <= i < after.len() - 1 implies text_lt(
            (#[trigger] after[i])@,
            after[i + 1]@,
        ) by {
            if i + 1 < p {
                assert(after[i] == before[i]);
                assert(after[i + 1] == before[i + 1]);
            } else if i + 1 == p {
                assert(after[i] == before[i]);
            } else if i == p {
                assert(after[i + 1] == before[p as int]);
            } else {
                assert(after[i] == before[i - 1]);
                assert(after[i + 1] == before[i]);
                assert(text_lt(before[i - 1]@, before[i - 1 + 1]@));
            }
        }
        assert forall|s: Seq<char>| #[trigger]
            lists_name(after, s) <==> lists_name(before, s) || s == name@ by {
            if lists_name(after, s) {
                let i = choose|i: int| 0 <= i < after.len() && (#[trigger] after[i])@ == s;
                if i < p {
                    assert(before[i]@ == s);
                } else if i > p {
                    assert(before[i - 1]@ == s);
                }
            }
            if lists_name(before, s) {
                let i = choose|i: int| 0 <= i < before.len() && (#[trigger] before[i])@ == s;
                if i < p {
                    assert(after[i]@ == s);
                } else {
                    assert(after[i + 1]@ == s);
                }
            }
            if s == name@ {
                assert(after[p as int]@ == s);
            }
        }
    }
}

/// Appends one character to a string. Trusted: this is `String::push`, which
/// the standard library documents as appending the given `char` to the end.
#[verifier::external_body]
pub(crate) fn push_char(s: &mut String, c: char)
    ensures
        final(s)@ == old(s)@.push(c),
{
    s.push(c)
}

/// Whether `hay` begins with `needle`. Trusted: this is `str::starts_with`
/// with a string pattern, documented as true exactly when the pattern matches
/// a prefix of the slice.
#[verifier::external_body]
pub(crate) fn starts_with(hay: &str, needle: &str) -> (r: bool)
    ensures
        r == needle@.is_prefix_of(hay@),
{
    hay.starts_with(needle)
}

/// Whether `hay` ends with `needle`. Trusted: this is `str::ends_with` with a
/// string pattern, documented as true exactly when the pattern matches a
/// suffix of the slice.
#[verifier::external_body]
pub(crate) fn ends_with(hay: &str, needle: &str) -> (r: bool)
    ensures
        r == needle@.is_suffix_of(hay@),
{
    hay.ends_with(needle)
}

/// Whether the character `c` occurs in `s`. Trusted: this is `str::contains`
/// with a `char` pattern, documented as true exactly when the pattern matches
/// a sub-slice of the string.
#[verifier::external_body]
pub(crate) fn contains_char(s: &str, c: char) -> (r: bool)
    ensures
        r == s@.contains(c),
{
    s.contains(c)
}

/// The pieces of `s` between occurrences of `sep`; there is always at least
/// one piece, and a piece may be empty.
pub open spec fn split_all(s: Seq<char>, sep: char) -> Seq<Seq<char>>
    decreases s.len(),
{
    if s.len() == 0 {
        seq![Seq::<char>::empty()]
    } else {
        let init = split_all(s.drop_last(), sep);
        if s.last() == sep {
            init.push(Seq::<char>::empty())
        } else {
            init.drop_last().push(init.last().push(s.last()))
        }
    }
}

/// The pieces of `s` where `sep` ends each piece rather than separating two:
/// as `split_all`, without the last piece when that piece is empty.
pub open spec fn split_terminated(s: Seq<char>, sep: char) -> Seq<Seq<char>> {
    let pieces = split_all(s, sep);
    if pieces.last().len() == 0 {
        pieces.drop_last()
    } else {
        pieces
    }
}

/// Splits `s` at each `sep`, treating it as a terminator. Trusted: this is
/// `str::split_terminator` with a `char` pattern, each piece copied into a
/// `String`. The standard library documents it as `split` except that a
/// trailing empty piece is skipped.
#[verifier::external_body]
pub(crate) fn split_terminator(s: &str, sep: char) -> (pieces: Vec<String>)
    ensures
        pieces@.len() == split_terminated(s@, sep).len(),
        forall|i: int| 0 <= i < pieces@.len() ==> pieces@[i]@ == split_terminated(s@, sep)[i],
{
    s.split_terminator(sep).map(|piece| piece.to_string()).collect()
}

/// The upper-case hexadecimal digit for a value below sixteen.
pub open spec fn hex_digit(d: u8) -> char
    recommends
        d < 16,
{
    if d < 10 {
        (0x30 + d) as char
    } else {
        (0x37 + d) as char
    }
}

/// The upper-case hexadecimal digit for a value below sixteen.
pub fn hex_char(d: u8) -> (c: char)
    requires
        d < 16,
    ensures
        c == hex_digit(d),
{
    if d < 10 {
        (0x30 + d) as char
    } else {
        (0x37 + d) as char
    }
}

/// The character for a decimal digit.
pub open spec fn digit_char(d: nat) -> char
    recommends
        d < 10,
{
    if d == 0 {
        '0'
    } else if d == 1 {
        '1'
    } else if d == 2 {
        '2'
    } else if d == 3 {
        '3'
    } else if d == 4 {
        '4'
    } else if d == 5 {
        '5'
    } else if d == 6 {
        '6'
    } else if d == 7 {
        '7'
    } else if d == 8 {
        '8'
    } else {
        '9'
    }
}

/// Decimal digits of a natural number, most significant first, without
/// leading zeros.
pub open spec fn decimal(n: nat) -> Seq<char>
    decreases n,
{
    if n < 10 {
        seq![digit_char(n)]
    } else {
        decimal(n / 10).push(digit_char(n % 10))
    }
}

/// Decimal rendering of an integer, with a leading minus sign when negative.
pub open spec fn signed_decimal(v: int) -> Seq<char> {
    if v < 0 {
        seq!['-'] + decimal((-v) as nat)
    } else {
        decimal(v as nat)
    }
}

/// Renders an unsigned integer in decimal. Trusted: this is the standard
/// library's `Display` for `u64`, which writes the digits in base ten with no
/// padding and no sign.
#[verifier::external_body]
pub(crate) fn u64_to_text(n: u64) -> (r: String)
    ensures
        r@ == decimal(n as nat),
{
    format!("{}", n)
}

/// Renders a signed integer in decimal. Trusted: this is the standard
/// library's `Display` for `i64`, which writes a minus sign for negative
/// values followed by the digits of the magnitude in base ten.
#[verifier::external_body]
pub(crate) fn i64_to_text(n: i64) -> (r: String)
    ensures
        r@ == signed_decimal(n as int),
{
    format!("{}", n)
}

} // verus!
