//! Fixed-width big-endian integer encoding, a 64-bit content digest, and
//! lower-case hexadecimal rendering. These are the building blocks of every
//! persisted record in the crate: blob keys are derived from digests, and
//! all multi-byte fields of persisted blobs are big-endian.

use vstd::prelude::*;

verus! {

/// Multiplier of the 64-bit FNV-1a digest round.
pub const DIGEST_PRIME: u64 = 0x100000001b3;

/// Byte `i` (0 = most significant) of `x` in big-endian order.
pub open spec fn u64_byte(x: u64, i: int) -> u8 {
    ((x >> (((7 - i) * 8) as u64)) & 0xff) as u8
}

/// The eight bytes of `x`, most significant first.
pub open spec fn u64_to_bytes(x: u64) -> Seq<u8> {
    Seq::new(8, |i: int| u64_byte(x, i))
}

/// The value read from eight big-endian bytes.
pub open spec fn u64_from_bytes(s: Seq<u8>) -> u64
    recommends
        s.len() == 8,
{
    (((s[0] as u64) << 56) | ((s[1] as u64) << 48) | ((s[2] as u64) << 40) | ((s[3] as u64) << 32)
        | ((s[4] as u64) << 24) | ((s[5] as u64) << 16) | ((s[6] as u64) << 8) | (s[7] as u64))
        as u64
}

/// Reading back the eight bytes of a value yields the value.
pub proof fn lemma_u64_bytes_round_trip(x: u64)
    ensures
        u64_from_bytes(u64_to_bytes(x)) == x,
{
    let s = u64_to_bytes(x);
    assert(s[0] == ((x >> 56) & 0xff) as u8);
    assert(s[1] == ((x >> 48) & 0xff) as u8);
    assert(s[2] == ((x >> 40) & 0xff) as u8);
    assert(s[3] == ((x >> 32) & 0xff) as u8);
    assert(s[4] == ((x >> 24) & 0xff) as u8);
    assert(s[5] == ((x >> 16) & 0xff) as u8);
    assert(s[6] == ((x >> 8) & 0xff) as u8);
    assert(s[7] == ((x >> 0) & 0xff) as u8);
    assert((((((x >> 56) & 0xff) as u8 as u64) << 56) | ((((x >> 48) & 0xff) as u8 as u64) << 48)
        | ((((x >> 40) & 0xff) as u8 as u64) << 40) | ((((x >> 32) & 0xff) as u8 as u64) << 32) | (
    (((x >> 24) & 0xff) as u8 as u64) << 24) | ((((x >> 16) & 0xff) as u8 as u64) << 16) | ((((x
        >> 8) & 0xff) as u8 as u64) << 8) | (((x >> 0) & 0xff) as u8 as u64)) as u64 == x)
        by (bit_vector);
}

/// Eight bytes read as a value write back to the same bytes.
pub proof fn lemma_u64_from_to(s: Seq<u8>)
    requires
        s.len() == 8,
    ensures
        u64_to_bytes(u64_from_bytes(s)) =~= s,
{
    let x = u64_from_bytes(s);
    let b0 = s[0];
    let b1 = s[1];
    let b2 = s[2];
    let b3 = s[3];
    let b4 = s[4];
    let b5 = s[5];
    let b6 = s[6];
    let b7 = s[7];
    assert(x == (((b0 as u64) << 56) | ((b1 as u64) << 48) | ((b2 as u64) << 40) | ((b3 as u64)
        << 32) | ((b4 as u64) << 24) | ((b5 as u64) << 16) | ((b6 as u64) << 8) | (b7 as u64))
        as u64);
    assert(((x >> 56) & 0xff) as u8 == b0 && ((x >> 48) & 0xff) as u8 == b1 && ((x >> 40) & 0xff)
        as u8 == b2 && ((x >> 32) & 0xff) as u8 == b3 && ((x >> 24) & 0xff) as u8 == b4 && ((x
        >> 16) & 0xff) as u8 == b5 && ((x >> 8) & 0xff) as u8 == b6 && ((x >> 0) & 0xff) as u8
        == b7) by (bit_vector)
        requires
            x == (((b0 as u64) << 56) | ((b1 as u64) << 48) | ((b2 as u64) << 40) | ((b3 as u64)
                << 32) | ((b4 as u64) << 24) | ((b5 as u64) << 16) | ((b6 as u64) << 8) | (
            b7 as u64)) as u64,
    ;
    assert forall|i: int| 0 <= i < 8 implies u64_to_bytes(x)[i] == s[i] by {
        assert(u64_to_bytes(x)[i] == u64_byte(x, i));
    }
}

/// Encode `x` as eight big-endian bytes.
pub fn u64_encode(x: u64) -> (r: Vec<u8>)
    ensures
        r@ == u64_to_bytes(x),
{
    let mut r: Vec<u8> = Vec::new();
    r.push(((x >> 56u64) & 0xff) as u8);
    r.push(((x >> 48u64) & 0xff) as u8);
    r.push(((x >> 40u64) & 0xff) as u8);
    r.push(((x >> 32u64) & 0xff) as u8);
    r.push(((x >> 24u64) & 0xff) as u8);
    r.push(((x >> 16u64) & 0xff) as u8);
    r.push(((x >> 8u64) & 0xff) as u8);
    r.push(((x >> 0u64) & 0xff) as u8);
    proof {
        assert(r@ =~= u64_to_bytes(x));
    }
    r
}

/// Decode eight big-endian bytes.
pub fn u64_decode(b: &[u8]) -> (r: u64)
    requires
        b@.len() == 8,
    ensures
        r == u64_from_bytes(b@),
{
    ((b[0] as u64) << 56) | ((b[1] as u64) << 48) | ((b[2] as u64) << 40) | ((b[3] as u64) << 32)
        | ((b[4] as u64) << 24) | ((b[5] as u64) << 16) | ((b[6] as u64) << 8) | (b[7] as u64)
}

/// Byte `i` (0 = most significant) of `x` in big-endian order.
pub open spec fn u32_byte(x: u32, i: int) -> u8 {
    ((x >> (((3 - i) * 8) as u32)) & 0xff) as u8
}

/// The four bytes of `x`, most significant first.
pub open spec fn u32_to_bytes(x: u32) -> Seq<u8> {
    Seq::new(4, |i: int| u32_byte(x, i))
}

/// The value read from four big-endian bytes.
pub open spec fn u32_from_bytes(s: Seq<u8>) -> u32
    recommends
        s.len() == 4,
{
    (((s[0] as u32) << 24) | ((s[1] as u32) << 16) | ((s[2] as u32) << 8) | (s[3] as u32)) as u32
}

/// Reading back the four bytes of a value yields the value.
pub proof fn lemma_u32_bytes_round_trip(x: u32)
    ensures
        u32_from_bytes(u32_to_bytes(x)) == x,
{
    let s = u32_to_bytes(x);
    assert(s[0] == ((x >> 24) & 0xff) as u8);
    assert(s[1] == ((x >> 16) & 0xff) as u8);
    assert(s[2] == ((x >> 8) & 0xff) as u8);
    assert(s[3] == ((x >> 0) & 0xff) as u8);
    assert((((((x >> 24) & 0xff) as u8 as u32) << 24) | ((((x >> 16) & 0xff) as u8 as u32) << 16)
        | ((((x >> 8) & 0xff) as u8 as u32) << 8) | (((x >> 0) & 0xff) as u8 as u32)) as u32 == x)
        by (bit_vector);
}

/// Encode `x` as four big-endian bytes.
pub fn u32_encode(x: u32) -> (r: Vec<u8>)
    ensures
        r@ == u32_to_bytes(x),
{
    let mut r: Vec<u8> = Vec::new();
    r.push(((x >> 24u32) & 0xff) as u8);
    r.push(((x >> 16u32) & 0xff) as u8);
    r.push(((x >> 8u32) & 0xff) as u8);
    r.push(((x >> 0u32) & 0xff) as u8);
    proof {
        assert(r@ =~= u32_to_bytes(x));
    }
    r
}

/// Decode four big-endian bytes.
pub fn u32_decode(b: &[u8]) -> (r: u32)
    requires
        b@.len() == 4,
    ensures
        r == u32_from_bytes(b@),
{
    ((b[0] as u32) << 24) | ((b[1] as u32) << 16) | ((b[2] as u32) << 8) | (b[3] as u32)
}

/// One round of the digest: mix a byte into the running state.
pub open spec fn digest_round(h: u64, byte: u8) -> u64 {
    vstd::wrapping::u64_specs::wrapping_mul(h ^ (byte as u64), DIGEST_PRIME)
}

/// FNV-1a style digest of `s` continued from running state `h`.
pub open spec fn digest_from(s: Seq<u8>, h: u64) -> u64
    decreases s.len(),
{
    if s.len() == 0 {
        h
    } else {
        digest_from(s.drop_first(), digest_round(h, s[0]))
    }
}

/// Digest of `data` started from the seed of one digest family.
///
/// Distinct seeds give the independent content-derived naming schemes the
/// store maintains; within one scheme the digest is a pure function of the
/// bytes, so re-storing identical content always derives identical names.
pub fn digest(data: &[u8], seed: u64) -> (r: u64)
    ensures
        r == digest_from(data@, seed),
{
    let mut h: u64 = seed;
    let mut i: usize = 0;
    proof {
        assert(data@.subrange(0, data@.len() as int) =~= data@);
    }
    while i < data.len()
        invariant
            0 <= i <= data@.len(),
            digest_from(data@, seed) == digest_from(data@.subrange(i as int, data@.len() as int), h),
        decreases data@.len() - i,
    {
        proof {
            let rest = data@.subrange(i as int, data@.len() as int);
            assert(rest.drop_first() =~= data@.subrange(i as int + 1, data@.len() as int));
        }
        h = (h ^ (data[i] as u64)).wrapping_mul(DIGEST_PRIME);
        i = i + 1;
    }
    proof {
        assert(data@.subrange(data@.len() as int, data@.len() as int) =~= Seq::<u8>::empty());
    }
    h
}

/// The lower-case hexadecimal character of one digit value.
pub open spec fn hex_char(d: int) -> char {
    if d == 0 {
        '0'
    } else if d == 1 {
        '1'
    } else if d == 2 {
        '2'
    } else if d == 3 {
        '3'
    } else if d == 4 {
        '4'
    } else if d == 5 {
        '5'
    } else if d == 6 {
        '6'
    } else if d == 7 {
        '7'
    } else if d == 8 {
        '8'
    } else if d == 9 {
        '9'
    } else if d == 10 {
        'a'
    } else if d == 11 {
        'b'
    } else if d == 12 {
        'c'
    } else if d == 13 {
        'd'
    } else if d == 14 {
        'e'
    } else {
        'f'
    }
}

/// The sixteen hexadecimal characters of `x`, most significant digit first.
pub open spec fn u64_hex_seq(x: u64) -> Seq<char> {
    Seq::new(16, |i: int| hex_char(((x >> (((15 - i) * 4) as u64)) & 0xf) as int))
}

/// The one-character string of a single hexadecimal digit.
fn hex_digit_str(d: u8) -> (r: &'static str)
    requires
        d < 16,
    ensures
        r@ =~= seq![hex_char(d as int)],
{
    proof {
        reveal_strlit("0");
        reveal_strlit("1");
        reveal_strlit("2");
        reveal_strlit("3");
        reveal_strlit("4");
        reveal_strlit("5");
        reveal_strlit("6");
        reveal_strlit("7");
        reveal_strlit("8");
        reveal_strlit("9");
        reveal_strlit("a");
        reveal_strlit("b");
        reveal_strlit("c");
        reveal_strlit("d");
        reveal_strlit("e");
        reveal_strlit("f");
    }
    match d {
        0 => "0",
        1 => "1",
        2 => "2",
        3 => "3",
        4 => "4",
        5 => "5",
        6 => "6",
        7 => "7",
        8 => "8",
        9 => "9",
        10 => "a",
        11 => "b",
        12 => "c",
        13 => "d",
        14 => "e",
        _ => "f",
    }
}

/// Render `x` as sixteen lower-case hexadecimal characters.
pub fn u64_hex(x: u64) -> (r: String)
    ensures
        r@ == u64_hex_seq(x),
{
    let mut r = String::new();
    let mut i: usize = 0;
    while i < 16
        invariant
            0 <= i <= 16,
            r@ =~= u64_hex_seq(x).subrange(0, i as int),
        decreases 16 - i,
    {
        let sh: u64 = 60 - 4 * (i as u64);
        proof {
            lemma_nibble_range(x, sh);
        }
        let d: u8 = ((x >> sh) & 0xf) as u8;
        let s = hex_digit_str(d);
        r.append(s);
        proof {
            assert((((15 - i as int) * 4) as u64) == sh);
            assert(u64_hex_seq(x)[i as int] == hex_char(((x >> sh) & 0xf) as int));
            assert(hex_char(d as int) == u64_hex_seq(x)[i as int]);
            assert(r@ =~= u64_hex_seq(x).subrange(0, i as int + 1));
        }
        i = i + 1;
    }
    proof {
        assert(u64_hex_seq(x).subrange(0, 16) =~= u64_hex_seq(x));
    }
    r
}

/// Equal hexadecimal characters come from equal digit values.
proof fn lemma_hex_char_injective(x: int, y: int)
    requires
        0 <= x < 16,
        0 <= y < 16,
        hex_char(x) == hex_char(y),
    ensures
        x == y,
{
}

/// The nibble of `x` selected by shift `sh` is a digit value.
proof fn lemma_nibble_range(x: u64, sh: u64)
    ensures
        0 <= ((x >> sh) & 0xf) < 16,
{
    assert((x >> sh) & 0xf < 16) by (bit_vector);
}

/// One hexadecimal digit of `a` and `b` agrees when the renderings agree.
proof fn lemma_hex_digit_eq(a: u64, b: u64, i: int, sh: u64)
    requires
        u64_hex_seq(a) == u64_hex_seq(b),
        0 <= i < 16,
        sh == (15 - i) * 4,
    ensures
        (a >> sh) & 0xf == (b >> sh) & 0xf,
{
    assert((((15 - i) * 4) as u64) == sh);
    assert(u64_hex_seq(a)[i] == hex_char(((a >> sh) & 0xf) as int));
    assert(u64_hex_seq(b)[i] == hex_char(((b >> sh) & 0xf) as int));
    lemma_nibble_range(a, sh);
    lemma_nibble_range(b, sh);
    lemma_hex_char_injective(((a >> sh) & 0xf) as int, ((b >> sh) & 0xf) as int);
}

/// Hexadecimal rendering is injective: the digits determine the value.
pub proof fn lemma_u64_hex_injective(a: u64, b: u64)
    requires
        u64_hex_seq(a) == u64_hex_seq(b),
    ensures
        a == b,
{
    lemma_hex_digit_eq(a, b, 0, 60);
    lemma_hex_digit_eq(a, b, 1, 56);
    lemma_hex_digit_eq(a, b, 2, 52);
    lemma_hex_digit_eq(a, b, 3, 48);
    lemma_hex_digit_eq(a, b, 4, 44);
    lemma_hex_digit_eq(a, b, 5, 40);
    lemma_hex_digit_eq(a, b, 6, 36);
    lemma_hex_digit_eq(a, b, 7, 32);
    lemma_hex_digit_eq(a, b, 8, 28);
    lemma_hex_digit_eq(a, b, 9, 24);
    lemma_hex_digit_eq(a, b, 10, 20);
    lemma_hex_digit_eq(a, b, 11, 16);
    lemma_hex_digit_eq(a, b, 12, 12);
    lemma_hex_digit_eq(a, b, 13, 8);
    lemma_hex_digit_eq(a, b, 14, 4);
    lemma_hex_digit_eq(a, b, 15, 0);
    assert(((a >> 60) & 0xf == (b >> 60) & 0xf && (a >> 56) & 0xf == (b >> 56) & 0xf && (a >> 52)
        & 0xf == (b >> 52) & 0xf && (a >> 48) & 0xf == (b >> 48) & 0xf && (a >> 44) & 0xf == (b
        >> 44) & 0xf && (a >> 40) & 0xf == (b >> 40) & 0xf && (a >> 36) & 0xf == (b >> 36) & 0xf
        && (a >> 32) & 0xf == (b >> 32) & 0xf && (a >> 28) & 0xf == (b >> 28) & 0xf && (a >> 24)
        & 0xf == (b >> 24) & 0xf && (a >> 20) & 0xf == (b >> 20) & 0xf && (a >> 16) & 0xf == (b
        >> 16) & 0xf && (a >> 12) & 0xf == (b >> 12) & 0xf && (a >> 8) & 0xf == (b >> 8) & 0xf && (
    a >> 4) & 0xf == (b >> 4) & 0xf && (a >> 0) & 0xf == (b >> 0) & 0xf) ==> a == b)
        by (bit_vector);
}

} // verus!
