use vstd::prelude::*;
use vstd::string::*;

verus! {

/// A 256-bit I2P network identity.
///
/// Its text form is the identity in lower-case base32 (RFC 4648 alphabet, no
/// padding): 52 digits, each carrying five bits, most significant first, the
/// last digit padded with four zero bits; then the suffix `.b32.i2p`.
#[derive(Copy, Clone, Ord, PartialOrd, Eq, PartialEq, Hash, Debug)]
pub struct I2pAddr(pub [u8; 32]);

/// Number of base32 digits in the text form of an address.
pub const ADDR_DIGITS: usize = 52;

/// Number of characters in the text form of an address.
pub const ADDR_TEXT_LEN: usize = 60;

/// The character of base32 digit `d` (below 32): `a`..`z`, then `2`..`7`.
pub open spec fn digit_char(d: u8) -> char {
    if d < 26 {
        (97u8 + d) as char
    } else {
        (24u8 + d) as char
    }
}

/// The base32 digit that character `c` stands for, if any.
pub open spec fn char_digit(c: char) -> Option<u8> {
    let x = c as u32;
    if 97 <= x <= 122 {
        Some((x - 97) as u8)
    } else if 50 <= x <= 55 {
        Some((x - 24) as u8)
    } else {
        None
    }
}

/// Byte `i` of `b`, or zero past its end.
pub open spec fn byte_or_zero(b: Seq<u8>, i: int) -> u8 {
    if 0 <= i < b.len() {
        b[i]
    } else {
        0
    }
}

/// Digit `p` (0..8) of the 40 bits of the five bytes `b0`..`b4`.
pub open spec fn group_digit(b0: u8, b1: u8, b2: u8, b3: u8, b4: u8, p: int) -> u8 {
    if p == 0 {
        b0 >> 3u8
    } else if p == 1 {
        ((b0 & 7u8) << 2u8) | (b1 >> 6u8)
    } else if p == 2 {
        (b1 >> 1u8) & 31u8
    } else if p == 3 {
        ((b1 & 1u8) << 4u8) | (b2 >> 4u8)
    } else if p == 4 {
        ((b2 & 15u8) << 1u8) | (b3 >> 7u8)
    } else if p == 5 {
        (b3 >> 2u8) & 31u8
    } else if p == 6 {
        ((b3 & 3u8) << 3u8) | (b4 >> 5u8)
    } else {
        b4 & 31u8
    }
}

/// Byte `q` (0..5) of the 40 bits of the eight digits `d0`..`d7`.
pub open spec fn group_byte(
    d0: u8,
    d1: u8,
    d2: u8,
    d3: u8,
    d4: u8,
    d5: u8,
    d6: u8,
    d7: u8,
    q: int,
) -> u8 {
    if q == 0 {
        (d0 << 3u8) | (d1 >> 2u8)
    } else if q == 1 {
        (d1 << 6u8) | (d2 << 1u8) | (d3 >> 4u8)
    } else if q == 2 {
        (d3 << 4u8) | (d4 >> 1u8)
    } else if q == 3 {
        (d4 << 7u8) | (d5 << 2u8) | (d6 >> 3u8)
    } else {
        (d6 << 5u8) | d7
    }
}

/// Digit `j` of the base32 form of `b`: digit `j % 8` of the group of five
/// bytes that starts at byte `5 * (j / 8)`.
pub open spec fn digit_at(b: Seq<u8>, j: int) -> u8 {
    let s = 5 * (j / 8);
    group_digit(
        byte_or_zero(b, s),
        byte_or_zero(b, s + 1),
        byte_or_zero(b, s + 2),
        byte_or_zero(b, s + 3),
        byte_or_zero(b, s + 4),
        j % 8,
    )
}

/// The 52 base32 digits of the 32 bytes `b`.
pub open spec fn digits_of(b: Seq<u8>) -> Seq<u8> {
    Seq::new(ADDR_DIGITS as nat, |j: int| digit_at(b, j))
}

/// Byte `i` of what the digits `d` encode: byte `i % 5` of the group of eight
/// digits that starts at digit `8 * (i / 5)`.
pub open spec fn byte_at(d: Seq<u8>, i: int) -> u8 {
    let s = 8 * (i / 5);
    group_byte(
        byte_or_zero(d, s),
        byte_or_zero(d, s + 1),
        byte_or_zero(d, s + 2),
        byte_or_zero(d, s + 3),
        byte_or_zero(d, s + 4),
        byte_or_zero(d, s + 5),
        byte_or_zero(d, s + 6),
        byte_or_zero(d, s + 7),
        i % 5,
    )
}

/// The 32 bytes that the 52 digits `d` encode.
pub open spec fn bytes_of(d: Seq<u8>) -> Seq<u8> {
    Seq::new(32, |i: int| byte_at(d, i))
}

/// 52 digits, each below 32, the last with its four padding bits zero.
pub open spec fn canonical_digits(d: Seq<u8>) -> bool {
    &&& d.len() == ADDR_DIGITS
    &&& forall|j: int| 0 <= j < ADDR_DIGITS ==> d[j] < 32
    &&& d[51] & 15u8 == 0
}

/// The domain suffix of an address's text.
pub open spec fn b32_suffix() -> Seq<char> {
    seq!['.', 'b', '3', '2', '.', 'i', '2', 'p']
}

/// The text form of the identity `b`.
pub open spec fn addr_text(b: Seq<u8>) -> Seq<char> {
    digits_of(b).map_values(|d: u8| digit_char(d)) + b32_suffix()
}

/// `s` is the text form of some identity: 52 base32 digits whose padding
/// bits are zero, then the suffix.
pub open spec fn is_addr_text(s: Seq<char>) -> bool {
    &&& s.len() == ADDR_TEXT_LEN
    &&& forall|j: int| 0 <= j < ADDR_DIGITS ==> char_digit(#[trigger] s[j]) is Some
    &&& char_digit(s[51])->0 & 15u8 == 0
    &&& s.subrange(ADDR_DIGITS as int, ADDR_TEXT_LEN as int) == b32_suffix()
}

/// The eight digits of five bytes give those five bytes back.
proof fn lemma_group_bytes_of_digits(b0: u8, b1: u8, b2: u8, b3: u8, b4: u8)
    ensures
        forall|q: int|
            0 <= q < 5 ==> #[trigger] group_byte(
                group_digit(b0, b1, b2, b3, b4, 0),
                group_digit(b0, b1, b2, b3, b4, 1),
                group_digit(b0, b1, b2, b3, b4, 2),
                group_digit(b0, b1, b2, b3, b4, 3),
                group_digit(b0, b1, b2, b3, b4, 4),
                group_digit(b0, b1, b2, b3, b4, 5),
                group_digit(b0, b1, b2, b3, b4, 6),
                group_digit(b0, b1, b2, b3, b4, 7),
                q,
            ) == (if q == 0 {
                b0
            } else if q == 1 {
                b1
            } else if q == 2 {
                b2
            } else if q == 3 {
                b3
            } else {
                b4
            }),
        forall|p: int| 0 <= p < 8 ==> #[trigger] group_digit(b0, b1, b2, b3, b4, p) < 32,
{
    assert(((b0 >> 3u8) << 3u8) | ((((b0 & 7u8) << 2u8) | (b1 >> 6u8)) >> 2u8) == b0)
        by (bit_vector);
    assert(((((b0 & 7u8) << 2u8) | (b1 >> 6u8)) << 6u8) | (((b1 >> 1u8) & 31u8) << 1u8) | ((((
    b1 & 1u8) << 4u8) | (b2 >> 4u8)) >> 4u8) == b1) by (bit_vector);
    assert(((((b1 & 1u8) << 4u8) | (b2 >> 4u8)) << 4u8) | ((((b2 & 15u8) << 1u8) | (b3 >> 7u8))
        >> 1u8) == b2) by (bit_vector);
    assert(((((b2 & 15u8) << 1u8) | (b3 >> 7u8)) << 7u8) | (((b3 >> 2u8) & 31u8) << 2u8) | ((((
    b3 & 3u8) << 3u8) | (b4 >> 5u8)) >> 3u8) == b3) by (bit_vector);
    assert(((((b3 & 3u8) << 3u8) | (b4 >> 5u8)) << 5u8) | (b4 & 31u8) == b4) by (bit_vector);
    assert((b0 >> 3u8) < 32 && (((b0 & 7u8) << 2u8) | (b1 >> 6u8)) < 32 && ((b1 >> 1u8) & 31u8)
        < 32 && (((b1 & 1u8) << 4u8) | (b2 >> 4u8)) < 32 && (((b2 & 15u8) << 1u8) | (b3 >> 7u8))
        < 32 && ((b3 >> 2u8) & 31u8) < 32 && (((b3 & 3u8) << 3u8) | (b4 >> 5u8)) < 32 && (b4
        & 31u8) < 32) by (bit_vector);
}

/// The five bytes of eight digits below 32 give those eight digits back.
proof fn lemma_group_digits_of_bytes(
    d0: u8,
    d1: u8,
    d2: u8,
    d3: u8,
    d4: u8,
    d5: u8,
    d6: u8,
    d7: u8,
)
    requires
        d0 < 32,
        d1 < 32,
        d2 < 32,
        d3 < 32,
        d4 < 32,
        d5 < 32,
        d6 < 32,
        d7 < 32,
    ensures
        forall|p: int|
            0 <= p < 8 ==> #[trigger] group_digit(
                group_byte(d0, d1, d2, d3, d4, d5, d6, d7, 0),
                group_byte(d0, d1, d2, d3, d4, d5, d6, d7, 1),
                group_byte(d0, d1, d2, d3, d4, d5, d6, d7, 2),
                group_byte(d0, d1, d2, d3, d4, d5, d6, d7, 3),
                group_byte(d0, d1, d2, d3, d4, d5, d6, d7, 4),
                p,
            ) == (if p == 0 {
                d0
            } else if p == 1 {
                d1
            } else if p == 2 {
                d2
            } else if p == 3 {
                d3
            } else if p == 4 {
                d4
            } else if p == 5 {
                d5
            } else if p == 6 {
                d6
            } else {
                d7
            }),
{
    let x0 = (d0 << 3u8) | (d1 >> 2u8);
    let x1 = (d1 << 6u8) | (d2 << 1u8) | (d3 >> 4u8);
    let x2 = (d3 << 4u8) | (d4 >> 1u8);
    let x3 = (d4 << 7u8) | (d5 << 2u8) | (d6 >> 3u8);
    let x4 = (d6 << 5u8) | d7;
    assert(d0 < 32 && d1 < 32 ==> ((d0 << 3u8) | (d1 >> 2u8)) >> 3u8 == d0) by (bit_vector);
    assert(d1 < 32 && d2 < 32 && d3 < 32 ==> ((((d0 << 3u8) | (d1 >> 2u8)) & 7u8) << 2u8) | (((
    d1 << 6u8) | (d2 << 1u8) | (d3 >> 4u8)) >> 6u8) == d1) by (bit_vector);
    assert(d2 < 32 && d3 < 32 ==> (((d1 << 6u8) | (d2 << 1u8) | (d3 >> 4u8)) >> 1u8) & 31u8 == d2)
        by (bit_vector);
    assert(d3 < 32 && d4 < 32 ==> ((((d1 << 6u8) | (d2 << 1u8) | (d3 >> 4u8)) & 1u8) << 4u8) | (((
    d3 << 4u8) | (d4 >> 1u8)) >> 4u8) == d3) by (bit_vector);
    assert(d4 < 32 && d5 < 32 && d3 < 32 ==> ((((d3 << 4u8) | (d4 >> 1u8)) & 15u8) << 1u8) | (((d4
        << 7u8) | (d5 << 2u8) | (d6 >> 3u8)) >> 7u8) == d4) by (bit_vector);
    assert(d5 < 32 && d6 < 32 ==> (((d4 << 7u8) | (d5 << 2u8) | (d6 >> 3u8)) >> 2u8) & 31u8 == d5)
        by (bit_vector);
    assert(d6 < 32 && d7 < 32 && d5 < 32 ==> ((((d4 << 7u8) | (d5 << 2u8) | (d6 >> 3u8)) & 3u8)
        << 3u8) | (((d6 << 5u8) | d7) >> 5u8) == d6) by (bit_vector);
    assert(d7 < 32 ==> ((d6 << 5u8) | d7) & 31u8 == d7) by (bit_vector);
}

/// Past the two bytes of the last group, the digits and bytes are zero.
proof fn lemma_last_group(b0: u8, b1: u8, d0: u8, d1: u8, d2: u8, d3: u8)
    requires
        d3 & 15u8 == 0,
    ensures
        group_digit(b0, b1, 0, 0, 0, 3) & 15u8 == 0,
        forall|p: int| 4 <= p < 8 ==> #[trigger] group_digit(b0, b1, 0, 0, 0, p) == 0,
        forall|q: int| 2 <= q < 5 ==> #[trigger] group_byte(d0, d1, d2, d3, 0, 0, 0, 0, q) == 0,
{
    assert((((b1 & 1u8) << 4u8) | (0u8 >> 4u8)) & 15u8 == 0) by (bit_vector);
    assert(((0u8 & 15u8) << 1u8) | (0u8 >> 7u8) == 0 && (0u8 >> 2u8) & 31u8 == 0 && ((0u8 & 3u8)
        << 3u8) | (0u8 >> 5u8) == 0 && 0u8 & 31u8 == 0) by (bit_vector);
    assert(d3 & 15u8 == 0 ==> (d3 << 4u8) | (0u8 >> 1u8) == 0) by (bit_vector);
    assert((0u8 << 7u8) | (0u8 << 2u8) | (0u8 >> 3u8) == 0 && (0u8 << 5u8) | 0u8 == 0)
        by (bit_vector);
}

/// Digit `8 * g + k` of 32 bytes is digit `k` of their group `g`, zero past the end.
proof fn lemma_digit_in_group(b: Seq<u8>, g: int, k: int)
    requires
        b.len() == 32,
        0 <= g < 7,
        0 <= k < 8,
    ensures
        byte_or_zero(digits_of(b), 8 * g + k) == group_digit(
            byte_or_zero(b, 5 * g),
            byte_or_zero(b, 5 * g + 1),
            byte_or_zero(b, 5 * g + 2),
            byte_or_zero(b, 5 * g + 3),
            byte_or_zero(b, 5 * g + 4),
            k,
        ),
{
    assert((8 * g + k) / 8 == g && (8 * g + k) % 8 == k) by (nonlinear_arith)
        requires
            0 <= k < 8,
    ;
    if 8 * g + k >= ADDR_DIGITS {
        assert(0u8 & 15u8 == 0) by (bit_vector);
        lemma_last_group(b[30], b[31], 0, 0, 0, 0);
    }
}

/// Byte `5 * g + m` of what canonical digits encode is byte `m` of their group `g`,
/// zero past the end.
proof fn lemma_byte_in_group(d: Seq<u8>, g: int, m: int)
    requires
        canonical_digits(d),
        0 <= g < 7,
        0 <= m < 5,
    ensures
        byte_or_zero(bytes_of(d), 5 * g + m) == group_byte(
            byte_or_zero(d, 8 * g),
            byte_or_zero(d, 8 * g + 1),
            byte_or_zero(d, 8 * g + 2),
            byte_or_zero(d, 8 * g + 3),
            byte_or_zero(d, 8 * g + 4),
            byte_or_zero(d, 8 * g + 5),
            byte_or_zero(d, 8 * g + 6),
            byte_or_zero(d, 8 * g + 7),
            m,
        ),
{
    assert((5 * g + m) / 5 == g && (5 * g + m) % 5 == m) by (nonlinear_arith)
        requires
            0 <= m < 5,
    ;
    if 5 * g + m >= 32 {
        lemma_last_group(0, 0, d[48], d[49], d[50], d[51]);
    }
}

/// Byte `i` of the decoded digits of 32 bytes is byte `i` of those bytes.
proof fn lemma_byte_of_digits(b: Seq<u8>, i: int)
    requires
        b.len() == 32,
        0 <= i < 32,
    ensures
        bytes_of(digits_of(b))[i] == b[i],
{
    let g = i / 5;
    let q = i % 5;
    assert(0 <= g < 7);
    assert(5 * g + q == i);
    lemma_digit_in_group(b, g, 0);
    lemma_digit_in_group(b, g, 1);
    lemma_digit_in_group(b, g, 2);
    lemma_digit_in_group(b, g, 3);
    lemma_digit_in_group(b, g, 4);
    lemma_digit_in_group(b, g, 5);
    lemma_digit_in_group(b, g, 6);
    lemma_digit_in_group(b, g, 7);
    lemma_group_bytes_of_digits(
        byte_or_zero(b, 5 * g),
        byte_or_zero(b, 5 * g + 1),
        byte_or_zero(b, 5 * g + 2),
        byte_or_zero(b, 5 * g + 3),
        byte_or_zero(b, 5 * g + 4),
    );
}

/// Decoding the digits of 32 bytes gives those bytes back.
pub proof fn lemma_bytes_of_digits(b: Seq<u8>)
    requires
        b.len() == 32,
    ensures
        bytes_of(digits_of(b)) == b,
        canonical_digits(digits_of(b)),
{
    let d = digits_of(b);
    assert forall|i: int| 0 <= i < 32 implies #[trigger] bytes_of(d)[i] == b[i] by {
        lemma_byte_of_digits(b, i);
    }
    assert(bytes_of(d) =~= b);
    assert forall|j: int| 0 <= j < ADDR_DIGITS implies #[trigger] d[j] < 32 by {
        let g = j / 8;
        lemma_group_bytes_of_digits(
            byte_or_zero(b, 5 * g),
            byte_or_zero(b, 5 * g + 1),
            byte_or_zero(b, 5 * g + 2),
            byte_or_zero(b, 5 * g + 3),
            byte_or_zero(b, 5 * g + 4),
        );
    }
    assert(0u8 & 15u8 == 0) by (bit_vector);
    lemma_last_group(b[30], b[31], 0, 0, 0, 0);
}

/// Encoding the bytes of canonical digits gives those digits back.
pub proof fn lemma_digits_of_bytes(d: Seq<u8>)
    requires
        canonical_digits(d),
    ensures
        digits_of(bytes_of(d)) == d,
{
    let b = bytes_of(d);
    assert forall|j: int| 0 <= j < ADDR_DIGITS implies #[trigger] digits_of(b)[j] == d[j] by {
        let g = j / 8;
        let p = j % 8;
        assert(0 <= g < 7);
        lemma_byte_in_group(d, g, 0);
        lemma_byte_in_group(d, g, 1);
        lemma_byte_in_group(d, g, 2);
        lemma_byte_in_group(d, g, 3);
        lemma_byte_in_group(d, g, 4);
        lemma_group_digits_of_bytes(
            byte_or_zero(d, 8 * g),
            byte_or_zero(d, 8 * g + 1),
            byte_or_zero(d, 8 * g + 2),
            byte_or_zero(d, 8 * g + 3),
            byte_or_zero(d, 8 * g + 4),
            byte_or_zero(d, 8 * g + 5),
            byte_or_zero(d, 8 * g + 6),
            byte_or_zero(d, 8 * g + 7),
        );
        assert(8 * g + p == j);
    }
    assert(digits_of(b) =~= d);
}

/// The text form of an address is a well-formed address text, and no two
/// addresses share one: so parsing the text of an address gives that address
/// back.
pub proof fn lemma_text_round_trip(a: I2pAddr, b: I2pAddr)
    ensures
        is_addr_text(addr_text(a.0@)),
        addr_text(a.0@) == addr_text(b.0@) ==> a == b,
{
    lemma_bytes_of_digits(a.0@);
    lemma_bytes_of_digits(b.0@);
    let da = digits_of(a.0@);
    let db = digits_of(b.0@);
    let ta = addr_text(a.0@);
    assert forall|j: int| 0 <= j < ADDR_DIGITS implies char_digit(#[trigger] ta[j]) == Some(
        da[j],
    ) by {
        assert(ta[j] == digit_char(da[j]));
    }
    assert(ta.subrange(ADDR_DIGITS as int, ADDR_TEXT_LEN as int) =~= b32_suffix());
    if ta == addr_text(b.0@) {
        assert forall|j: int| 0 <= j < ADDR_DIGITS implies da[j] == db[j] by {
            assert(ta[j] == digit_char(da[j]));
            assert(addr_text(b.0@)[j] == digit_char(db[j]));
        }
        assert(da =~= db);
        assert(a.0@ == b.0@);
        assert(a.0 =~= b.0);
    }
}

/// A digit's character stands for that digit, and a character that stands
/// for a digit is that digit's character.
proof fn lemma_char_digit(c: char)
    ensures
        char_digit(c) is Some ==> char_digit(c)->0 < 32 && digit_char(char_digit(c)->0) == c,
{
}

/// Digits read off the first 52 characters of `s`, with zero padding bits and
/// followed by the suffix, make `s` the text form of what they encode.
proof fn lemma_parsed_text(s: Seq<char>, d: Seq<u8>)
    requires
        s.len() == ADDR_TEXT_LEN,
        d.len() == ADDR_DIGITS,
        forall|k: int| 0 <= k < ADDR_DIGITS ==> char_digit(#[trigger] s[k]) == Some(d[k]),
        d[51] & 15u8 == 0,
        s.subrange(ADDR_DIGITS as int, ADDR_TEXT_LEN as int) == b32_suffix(),
    ensures
        canonical_digits(d),
        is_addr_text(s),
        addr_text(bytes_of(d)) == s,
{
    assert forall|j: int| 0 <= j < ADDR_DIGITS implies #[trigger] d[j] < 32 && digit_char(d[j])
        == s[j] by {
        lemma_char_digit(s[j]);
    }
    lemma_digits_of_bytes(d);
    let t = addr_text(bytes_of(d));
    assert forall|j: int| 0 <= j < ADDR_TEXT_LEN implies t[j] == s[j] by {
        if j >= ADDR_DIGITS {
            assert(s[j] == s.subrange(ADDR_DIGITS as int, ADDR_TEXT_LEN as int)[j - ADDR_DIGITS]);
        }
    }
    assert(t =~= s);
}

/// Byte `i` of `b`, or zero past its end.
fn at_or_zero(b: &[u8], i: usize) -> (r: u8)
    ensures
        r == byte_or_zero(b@, i as int),
{
    if i < b.len() {
        b[i]
    } else {
        0
    }
}

/// Digit `p` of the five bytes `b0`..`b4`.
fn digit_of_group(b0: u8, b1: u8, b2: u8, b3: u8, b4: u8, p: usize) -> (r: u8)
    requires
        p < 8,
    ensures
        r == group_digit(b0, b1, b2, b3, b4, p as int),
{
    if p == 0 {
        b0 >> 3u8
    } else if p == 1 {
        ((b0 & 7u8) << 2u8) | (b1 >> 6u8)
    } else if p == 2 {
        (b1 >> 1u8) & 31u8
    } else if p == 3 {
        ((b1 & 1u8) << 4u8) | (b2 >> 4u8)
    } else if p == 4 {
        ((b2 & 15u8) << 1u8) | (b3 >> 7u8)
    } else if p == 5 {
        (b3 >> 2u8) & 31u8
    } else if p == 6 {
        ((b3 & 3u8) << 3u8) | (b4 >> 5u8)
    } else {
        b4 & 31u8
    }
}

/// Byte `q` of the eight digits `d0`..`d7`.
fn byte_of_group(
    d0: u8,
    d1: u8,
    d2: u8,
    d3: u8,
    d4: u8,
    d5: u8,
    d6: u8,
    d7: u8,
    q: usize,
) -> (r: u8)
    requires
        q < 5,
    ensures
        r == group_byte(d0, d1, d2, d3, d4, d5, d6, d7, q as int),
{
    if q == 0 {
        (d0 << 3u8) | (d1 >> 2u8)
    } else if q == 1 {
        (d1 << 6u8) | (d2 << 1u8) | (d3 >> 4u8)
    } else if q == 2 {
        (d3 << 4u8) | (d4 >> 1u8)
    } else if q == 3 {
        (d4 << 7u8) | (d5 << 2u8) | (d6 >> 3u8)
    } else {
        (d6 << 5u8) | d7
    }
}

/// The base32 digit of character `c`, if it is one.
fn digit_of_char(c: char) -> (r: Option<u8>)
    ensures
        r == char_digit(c),
{
    let x = c as u32;
    if 97 <= x && x <= 122 {
        Some((x - 97) as u8)
    } else if 50 <= x && x <= 55 {
        Some((x - 24) as u8)
    } else {
        None
    }
}

/// The 52 base32 digits of `b`.
fn encode_digits(b: &[u8]) -> (r: Vec<u8>)
    ensures
        r@ == digits_of(b@),
{
    let mut d: Vec<u8> = Vec::new();
    let mut j: usize = 0;
    while j < ADDR_DIGITS
        invariant
            j <= ADDR_DIGITS,
            d@ == digits_of(b@).subrange(0, j as int),
        decreases ADDR_DIGITS - j,
    {
        let s = 5 * (j / 8);
        let v = digit_of_group(
            at_or_zero(b, s),
            at_or_zero(b, s + 1),
            at_or_zero(b, s + 2),
            at_or_zero(b, s + 3),
            at_or_zero(b, s + 4),
            j % 8,
        );
        d.push(v);
        j += 1;
        assert(d@ =~= digits_of(b@).subrange(0, j as int));
    }
    assert(d@ =~= digits_of(b@));
    d
}

/// The 32 bytes that the digits `d` encode.
fn decode_digits(d: &[u8]) -> (r: [u8; 32])
    ensures
        r@ == bytes_of(d@),
{
    let mut b = [0u8; 32];
    let mut i: usize = 0;
    while i < 32
        invariant
            i <= 32,
            b@.len() == 32,
            forall|k: int| 0 <= k < i ==> b@[k] == byte_at(d@, k),
        decreases 32 - i,
    {
        let s = 8 * (i / 5);
        b[i] = byte_of_group(
            at_or_zero(d, s),
            at_or_zero(d, s + 1),
            at_or_zero(d, s + 2),
            at_or_zero(d, s + 3),
            at_or_zero(d, s + 4),
            at_or_zero(d, s + 5),
            at_or_zero(d, s + 6),
            at_or_zero(d, s + 7),
            i % 5,
        );
        i += 1;
    }
    assert(b@ =~= bytes_of(d@));
    b
}

impl I2pAddr {
    /// The address with identity `bytes`.
    pub fn from_bytes(bytes: [u8; 32]) -> (r: I2pAddr)
        ensures
            r.0@ == bytes@,
    {
        I2pAddr(bytes)
    }

    /// The address's 32 identity bytes.
    pub fn to_bytes(&self) -> (r: [u8; 32])
        ensures
            r@ == self.0@,
    {
        self.0
    }

    /// The text form of the address: 52 base32 digits, then `.b32.i2p`.
    pub fn to_string(&self) -> (r: String)
        ensures
            r@ == addr_text(self.0@),
    {
        let d = encode_digits(self.0.as_slice());
        proof {
            lemma_bytes_of_digits(self.0@);
        }
        let alphabet = "abcdefghijklmnopqrstuvwxyz234567";
        proof {
            reveal_strlit("abcdefghijklmnopqrstuvwxyz234567");
        }
        assert forall|i: int| 0 <= i < 32 implies alphabet@[i] == digit_char(i as u8) by {
            assert(alphabet@ == seq![
                'a', 'b', 'c', 'd', 'e', 'f', 'g', 'h', 'i', 'j', 'k', 'l', 'm', 'n', 'o', 'p',
                'q', 'r', 's', 't', 'u', 'v', 'w', 'x', 'y', 'z', '2', '3', '4', '5', '6', '7',
            ]);
        }
        let mut out = String::new();
        let mut j: usize = 0;
        while j < ADDR_DIGITS
            invariant
                j <= ADDR_DIGITS,
                d@ == digits_of(self.0@),
                canonical_digits(d@),
                alphabet@.len() == 32,
                forall|i: int| 0 <= i < 32 ==> alphabet@[i] == digit_char(i as u8),
                out@ == d@.subrange(0, j as int).map_values(|v: u8| digit_char(v)),
            decreases ADDR_DIGITS - j,
        {
            let v = d[j] as usize;
            out.append(alphabet.substring_char(v, v + 1));
            j += 1;
            assert(out@ =~= d@.subrange(0, j as int).map_values(|v: u8| digit_char(v)));
        }
        let suffix = ".b32.i2p";
        proof {
            reveal_strlit(".b32.i2p");
        }
        out.append(suffix);
        assert(d@.subrange(0, ADDR_DIGITS as int) =~= d@);
        assert(out@ =~= addr_text(self.0@));
        out
    }

    /// Parses the text form of an address; fails on any other text.
    pub fn from_str(s: &str) -> (r: Result<I2pAddr, ()>)
        ensures
            r is Ok <==> is_addr_text(s@),
            r is Ok ==> addr_text(r->Ok_0.0@) == s@,
    {
        if s.unicode_len() != ADDR_TEXT_LEN {
            return Err(());
        }
        let mut d: Vec<u8> = Vec::new();
        let mut j: usize = 0;
        while j < ADDR_DIGITS
            invariant
                j <= ADDR_DIGITS,
                s@.len() == ADDR_TEXT_LEN,
                d@.len() == j,
                forall|k: int| 0 <= k < j ==> char_digit(#[trigger] s@[k]) == Some(d@[k]),
            decreases ADDR_DIGITS - j,
        {
            match digit_of_char(s.get_char(j)) {
                Some(v) => d.push(v),
                None => return Err(()),
            }
            j += 1;
        }
        assert(char_digit(s@[51]) == Some(d@[51]));
        if d[51] & 15u8 != 0 {
            return Err(());
        }
        let suffix = ".b32.i2p";
        proof {
            reveal_strlit(".b32.i2p");
        }
        let mut k: usize = 0;
        while k < 8
            invariant
                k <= 8,
                s@.len() == ADDR_TEXT_LEN,
                suffix@ == b32_suffix(),
                forall|m: int| 0 <= m < k ==> s@[ADDR_DIGITS + m] == b32_suffix()[m],
            decreases 8 - k,
        {
            if s.get_char(ADDR_DIGITS + k) != suffix.get_char(k) {
                assert(s@.subrange(ADDR_DIGITS as int, ADDR_TEXT_LEN as int)[k as int]
                    != b32_suffix()[k as int]);
                return Err(());
            }
            k += 1;
        }
        assert(s@.subrange(ADDR_DIGITS as int, ADDR_TEXT_LEN as int) =~= b32_suffix());
        proof {
            lemma_parsed_text(s@, d@);
        }
        let bytes = decode_digits(d.as_slice());
        Ok(I2pAddr(bytes))
    }
}

impl std::str::FromStr for I2pAddr {
    type Err = ();

    fn from_str(s: &str) -> Result<I2pAddr, ()> {
        I2pAddr::from_str(s)
    }
}

} // verus!
