//! The base32 text form (RFC 4648 alphabet, no padding) of 64-bit
//! identifiers, taken as their 8 little-endian bytes.
use vstd::prelude::*;

verus! {

/// The integer whose big-endian bytes are the little-endian bytes of `x`.
pub open spec fn byte_swap(x: u64) -> u64 {
    ((x & 0xff) << 56u64) | (((x >> 8u64) & 0xff) << 48u64) | (((x >> 16u64) & 0xff) << 40u64) | (((x >> 24u64) & 0xff) << 32u64)
        | (((x >> 32u64) & 0xff) << 24u64) | (((x >> 40u64) & 0xff) << 16u64) | (((x >> 48u64) & 0xff) << 8u64) | ((x
        >> 56u64) & 0xff)
}

/// The 65 bits that the 13 characters encode: the bytes of `x`, then one zero bit.
pub open spec fn encoded_bits(x: u64) -> u128 {
    (byte_swap(x) as u128) << 1u128
}

/// The number of bits after the digit `k` (of 13).
pub open spec fn digit_shift(k: int) -> u128 {
    (5 * (12 - k)) as u128
}

/// The `k`-th 5-bit digit of `n`, from the most significant.
pub open spec fn digit_of(n: u128, k: int) -> u8 {
    ((n >> digit_shift(k)) & 31u128) as u8
}

/// The character of a 5-bit digit.
pub open spec fn digit_char(d: u8) -> char {
    if d < 26 {
        ((65 + d) as u8) as char
    } else {
        ((50 + d - 26) as u8) as char
    }
}

/// The digit of a character, if it is one of the alphabet.
pub open spec fn char_digit(c: char) -> Option<u8> {
    if 'A' <= c && c <= 'Z' {
        Some((c as u32 - 65) as u8)
    } else if '2' <= c && c <= '7' {
        Some((c as u32 - 50 + 26) as u8)
    } else {
        None
    }
}

/// The text form of `x`: 13 characters.
pub open spec fn encode_spec(x: u64) -> Seq<char> {
    Seq::new(13, |k: int| digit_char(digit_of(encoded_bits(x), k)))
}

/// The bits that 13 digits encode.
pub open spec fn digits_value(d: Seq<u8>) -> u128 {
    ((d[0] as u128) << 60u128) | ((d[1] as u128) << 55u128) | ((d[2] as u128) << 50u128) | ((d[3] as u128) << 45u128) | ((
    d[4] as u128) << 40u128) | ((d[5] as u128) << 35u128) | ((d[6] as u128) << 30u128) | ((d[7] as u128) << 25u128) | ((
    d[8] as u128) << 20u128) | ((d[9] as u128) << 15u128) | ((d[10] as u128) << 10u128) | ((d[11] as u128) << 5u128) | (d[12] as u128)
}

/// The identifier that a text form designates: 13 characters of the
/// alphabet whose trailing bit is zero.
pub open spec fn decode_spec(s: Seq<char>) -> Option<u64> {
    if s.len() == 13 && forall|k: int| 0 <= k < 13 ==> (#[trigger] char_digit(s[k])) is Some {
        let d = Seq::new(13, |k: int| char_digit(s[k]).unwrap());
        if d[12] % 2 == 0 {
            Some(byte_swap((digits_value(d) >> 1u128) as u64))
        } else {
            None
        }
    } else {
        None
    }
}

proof fn lemma_byte_swap_involutive(x: u64)
    ensures
        byte_swap(byte_swap(x)) == x,
{
    assert(byte_swap(byte_swap(x)) == x) by (bit_vector);
}

proof fn lemma_low_bits(m: u128)
    ensures
        m & 31u128 < 32u128,
{
    assert(m & 31u128 < 32u128) by (bit_vector);
}

proof fn lemma_char_digit(d: u8)
    requires
        d < 32,
    ensures
        char_digit(digit_char(d)) == Some(d),
{
}

proof fn lemma_digits_recombine(n: u128)
    requires
        n < 0x2_0000_0000_0000_0000u128,
    ensures
        ((((n >> 60u128) & 31u128) << 60u128) | (((n >> 55u128) & 31u128) << 55u128) | (((n >> 50u128) & 31u128) << 50u128) | (((n
            >> 45u128) & 31u128) << 45u128) | (((n >> 40u128) & 31u128) << 40u128) | (((n >> 35u128) & 31u128) << 35u128) | (((n
            >> 30u128) & 31u128) << 30u128) | (((n >> 25u128) & 31u128) << 25u128) | (((n >> 20u128) & 31u128) << 20u128) | (((n
            >> 15u128) & 31u128) << 15u128) | (((n >> 10u128) & 31u128) << 10u128) | (((n >> 5u128) & 31u128) << 5u128) | (n
            & 31u128)) == n,
{
    assert(((((n >> 60u128) & 31u128) << 60u128) | (((n >> 55u128) & 31u128) << 55u128) | (((n >> 50u128) & 31u128) << 50u128)
        | (((n >> 45u128) & 31u128) << 45u128) | (((n >> 40u128) & 31u128) << 40u128) | (((n >> 35u128) & 31u128) << 35u128) | (((n
        >> 30u128) & 31u128) << 30u128) | (((n >> 25u128) & 31u128) << 25u128) | (((n >> 20u128) & 31u128) << 20u128) | (((n
        >> 15u128) & 31u128) << 15u128) | (((n >> 10u128) & 31u128) << 10u128) | (((n >> 5u128) & 31u128) << 5u128) | (n & 31u128))
        == n) by (bit_vector)
        requires
            n < 0x2_0000_0000_0000_0000u128,
    ;
}

proof fn lemma_encoded_bits(x: u64)
    ensures
        encoded_bits(x) < 0x2_0000_0000_0000_0000u128,
        encoded_bits(x) & 1u128 == 0,
        (encoded_bits(x) >> 1u128) as u64 == byte_swap(x),
{
    let b = byte_swap(x);
    assert(((b as u128) << 1u128) < 0x2_0000_0000_0000_0000u128) by (bit_vector);
    assert(((b as u128) << 1u128) & 1u128 == 0) by (bit_vector);
    assert((((b as u128) << 1u128) >> 1u128) as u64 == b) by (bit_vector);
}

/// Reading back the text form of an identifier gives the identifier.
pub proof fn lemma_decode_encode(x: u64)
    ensures
        decode_spec(encode_spec(x)) == Some(x),
{
    let n = encoded_bits(x);
    let s = encode_spec(x);
    lemma_encoded_bits(x);
    assert forall|k: int| 0 <= k < 13 implies (#[trigger] char_digit(s[k])) == Some(digit_of(n, k)) by {
        lemma_low_bits(n >> digit_shift(k));
        lemma_char_digit(digit_of(n, k));
    }
    let d = Seq::new(13, |k: int| char_digit(s[k]).unwrap());
    assert forall|k: int| 0 <= k < 13 implies #[trigger] d[k] as u128 == (n >> digit_shift(k)) & 31u128 by {
        lemma_low_bits(n >> digit_shift(k));
    }
    assert(d[0] as u128 == (n >> 60u128) & 31u128);
    assert(d[1] as u128 == (n >> 55u128) & 31u128);
    assert(d[2] as u128 == (n >> 50u128) & 31u128);
    assert(d[3] as u128 == (n >> 45u128) & 31u128);
    assert(d[4] as u128 == (n >> 40u128) & 31u128);
    assert(d[5] as u128 == (n >> 35u128) & 31u128);
    assert(d[6] as u128 == (n >> 30u128) & 31u128);
    assert(d[7] as u128 == (n >> 25u128) & 31u128);
    assert(d[8] as u128 == (n >> 20u128) & 31u128);
    assert(d[9] as u128 == (n >> 15u128) & 31u128);
    assert(d[10] as u128 == (n >> 10u128) & 31u128);
    assert(d[11] as u128 == (n >> 5u128) & 31u128);
    assert(d[12] as u128 == (n >> 0u128) & 31u128);
    assert((n >> 0u128) == n) by (bit_vector);
    lemma_digits_recombine(n);
    assert(digits_value(d) == n);
    assert((n & 31u128) % 2 == 0) by (bit_vector)
        requires
            n & 1u128 == 0,
    ;
    lemma_byte_swap_involutive(x);
}

/// Appends `c` to `s`.
#[verifier::external_body]
pub(crate) fn push_char(s: &mut String, c: char)
    ensures
        final(s)@ == old(s)@.push(c),
{
    s.push(c)
}

/// The character of the digit `d`.
fn digit_to_char(d: u8) -> (c: char)
    requires
        d < 32,
    ensures
        c == digit_char(d),
{
    if d < 26 {
        (65 + d) as char
    } else {
        (50 + d - 26) as char
    }
}

/// The text form of `x`.
pub fn encode_u64(x: u64) -> (r: String)
    ensures
        r@ == encode_spec(x),
{
    let b: u64 = ((x & 0xff) << 56u64) | (((x >> 8u64) & 0xff) << 48u64) | (((x >> 16u64) & 0xff) << 40u64) | (((x >> 24u64)
        & 0xff) << 32u64) | (((x >> 32u64) & 0xff) << 24u64) | (((x >> 40u64) & 0xff) << 16u64) | (((x >> 48u64) & 0xff)
        << 8u64) | ((x >> 56u64) & 0xff);
    let n: u128 = (b as u128) << 1u128;
    assert(n == encoded_bits(x));
    let mut r = String::new();
    let mut k: u32 = 0;
    while k < 13
        invariant
            0 <= k <= 13,
            n == encoded_bits(x),
            r@ == encode_spec(x).take(k as int),
        decreases 13 - k,
    {
        let shift: u32 = 5 * (12 - k);
        let d: u8 = ((n >> shift) & 31u128) as u8;
        proof { lemma_low_bits(n >> shift); }
        assert(d == digit_of(n, k as int));
        let c = digit_to_char(d);
        push_char(&mut r, c);
        assert(r@ == encode_spec(x).take(k + 1));
        k = k + 1;
    }
    assert(encode_spec(x).take(13) == encode_spec(x));
    r
}

/// The digit of `c`, if it is one of the alphabet.
fn char_to_digit(c: char) -> (r: Option<u8>)
    ensures
        r == char_digit(c),
{
    if 'A' <= c && c <= 'Z' {
        Some((c as u32 - 65) as u8)
    } else if '2' <= c && c <= '7' {
        Some((c as u32 - 50 + 26) as u8)
    } else {
        None
    }
}

/// The identifier that the text `s` designates, if it is a text form.
pub fn decode_u64(s: &str) -> (r: Option<u64>)
    ensures
        r == decode_spec(s@),
{
    let len = s.unicode_len();
    if len != 13 {
        return None;
    }
    let mut d: Vec<u8> = Vec::new();
    let mut k: usize = 0;
    while k < 13
        invariant
            0 <= k <= 13,
            s@.len() == 13,
            d@.len() == k,
            forall|j: int| 0 <= j < k ==> char_digit(s@[j]) == Some(#[trigger] d@[j]),
        decreases 13 - k,
    {
        match char_to_digit(s.get_char(k)) {
            Some(v) => d.push(v),
            None => {
                assert(!(forall|j: int| 0 <= j < 13 ==> (#[trigger] char_digit(s@[j])) is Some)) by {
                    assert(char_digit(s@[k as int]) is None);
                }
                return None;
            },
        }
        k = k + 1;
    }
    let ghost ds = Seq::new(13, |j: int| char_digit(s@[j]).unwrap());
    assert(d@ =~= ds);
    if d[12] % 2 != 0 {
        return None;
    }
    let v: u128 = ((d[0] as u128) << 60u128) | ((d[1] as u128) << 55u128) | ((d[2] as u128) << 50u128) | ((d[3] as u128) << 45u128)
        | ((d[4] as u128) << 40u128) | ((d[5] as u128) << 35u128) | ((d[6] as u128) << 30u128) | ((d[7] as u128) << 25u128) | ((
    d[8] as u128) << 20u128) | ((d[9] as u128) << 15u128) | ((d[10] as u128) << 10u128) | ((d[11] as u128) << 5u128) | (d[12] as u128);
    assert(v == digits_value(ds));
    let y: u64 = (v >> 1u128) as u64;
    let x: u64 = ((y & 0xff) << 56u64) | (((y >> 8u64) & 0xff) << 48u64) | (((y >> 16u64) & 0xff) << 40u64) | (((y >> 24u64)
        & 0xff) << 32u64) | (((y >> 32u64) & 0xff) << 24u64) | (((y >> 40u64) & 0xff) << 16u64) | (((y >> 48u64) & 0xff)
        << 8u64) | ((y >> 56u64) & 0xff);
    Some(x)
}

} // verus!
