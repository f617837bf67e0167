//! Byte-level building blocks of the wire format: little-endian
//! integer fields, the NaN test on a double's bit pattern, the bit
//! pattern of a small integer as a double, and UTF-8 validity.

use vstd::prelude::*;

verus! {

/// Whether a 64-bit pattern encodes an IEEE-754 NaN: exponent bits all
/// ones and a non-zero mantissa.
pub open spec fn is_nan_bits(bits: u64) -> bool {
    (bits >> 52) & 0x7FF == 0x7FF && bits & 0x000F_FFFF_FFFF_FFFF != 0
}

/// The four little-endian bytes of a 32-bit integer.
pub open spec fn u32_le(x: u32) -> Seq<u8> {
    seq![
        (x & 0xFF) as u8,
        ((x >> 8) & 0xFF) as u8,
        ((x >> 16) & 0xFF) as u8,
        ((x >> 24) & 0xFF) as u8,
    ]
}

/// The 32-bit integer assembled from four little-endian bytes.
pub open spec fn u32_of_le(b0: u8, b1: u8, b2: u8, b3: u8) -> u32 {
    (b0 as u32) | ((b1 as u32) << 8) | ((b2 as u32) << 16) | ((b3 as u32) << 24)
}

/// The eight little-endian bytes of a 64-bit integer.
pub open spec fn u64_le(x: u64) -> Seq<u8> {
    seq![
        (x & 0xFF) as u8,
        ((x >> 8) & 0xFF) as u8,
        ((x >> 16) & 0xFF) as u8,
        ((x >> 24) & 0xFF) as u8,
        ((x >> 32) & 0xFF) as u8,
        ((x >> 40) & 0xFF) as u8,
        ((x >> 48) & 0xFF) as u8,
        ((x >> 56) & 0xFF) as u8,
    ]
}

/// The 64-bit integer assembled from eight little-endian bytes.
pub open spec fn u64_of_le(
    b0: u8,
    b1: u8,
    b2: u8,
    b3: u8,
    b4: u8,
    b5: u8,
    b6: u8,
    b7: u8,
) -> u64 {
    (b0 as u64) | ((b1 as u64) << 8) | ((b2 as u64) << 16) | ((b3 as u64) << 24) | ((b4 as u64)
        << 32) | ((b5 as u64) << 40) | ((b6 as u64) << 48) | ((b7 as u64) << 56)
}

/// Reassembling the four little-endian bytes of `x` gives back `x`.
pub proof fn lemma_u32_le_round_trip(x: u32)
    ensures
        u32_of_le(
            (x & 0xFF) as u8,
            ((x >> 8) & 0xFF) as u8,
            ((x >> 16) & 0xFF) as u8,
            ((x >> 24) & 0xFF) as u8,
        ) == x,
{
    assert((((x & 0xFF) as u8) as u32) | ((((x >> 8) & 0xFF) as u8) as u32) << 8 | ((((x >> 16)
        & 0xFF) as u8) as u32) << 16 | ((((x >> 24) & 0xFF) as u8) as u32) << 24 == x)
        by (bit_vector);
}

/// Reassembling the eight little-endian bytes of `x` gives back `x`.
pub proof fn lemma_u64_le_round_trip(x: u64)
    ensures
        u64_of_le(
            (x & 0xFF) as u8,
            ((x >> 8) & 0xFF) as u8,
            ((x >> 16) & 0xFF) as u8,
            ((x >> 24) & 0xFF) as u8,
            ((x >> 32) & 0xFF) as u8,
            ((x >> 40) & 0xFF) as u8,
            ((x >> 48) & 0xFF) as u8,
            ((x >> 56) & 0xFF) as u8,
        ) == x,
{
    assert((((x & 0xFF) as u8) as u64) | ((((x >> 8) & 0xFF) as u8) as u64) << 8 | ((((x >> 16)
        & 0xFF) as u8) as u64) << 16 | ((((x >> 24) & 0xFF) as u8) as u64) << 24 | ((((x >> 32)
        & 0xFF) as u8) as u64) << 32 | ((((x >> 40) & 0xFF) as u8) as u64) << 40 | ((((x >> 48)
        & 0xFF) as u8) as u64) << 48 | ((((x >> 56) & 0xFF) as u8) as u64) << 56 == x)
        by (bit_vector);
}

/// The floor of the base-2 logarithm of a positive integer.
pub open spec fn floor_log2(n: u64) -> nat
    decreases n,
{
    if n <= 1 {
        0
    } else {
        1 + floor_log2(n / 2)
    }
}

/// The IEEE-754 bit pattern of the double equal to the integer `i`,
/// for `1 <= i <= 2^32`: biased exponent `1023 + floor(log2 i)` and the
/// bits of `i` below its leading one, left-aligned in the mantissa.
pub open spec fn f64_index_bits(i: u64) -> u64
    recommends
        1 <= i <= 0x1_0000_0000,
{
    let e = floor_log2(i);
    (((1023 + e) as u64) << 52) | (((i - (1u64 << (e as u64))) as u64) << ((52 - e) as u64))
}

/// Bounds on `floor_log2` over the index range the encoder scans:
/// `2^floor_log2(n)` is at most `n`, and the exponent fits a double's
/// unbiased exponent range for table indices.
pub proof fn lemma_floor_log2_bound(n: u64)
    requires
        1 <= n <= 0x1_0000_0000,
    ensures
        (1u64 << (floor_log2(n) as u64)) <= n,
        floor_log2(n) <= 32,
    decreases n,
{
    if n == 1 {
        assert(1u64 << 0u64 == 1) by (bit_vector);
    } else {
        lemma_floor_log2_bound(n / 2);
        let e = floor_log2(n / 2) as u64;
        assert((1u64 << e) <= n / 2 && e <= 32 ==> (1u64 << (e + 1)) <= n && ((1u64 << (e + 1))
            <= n && n <= 0x1_0000_0000 ==> e + 1 <= 32)) by (bit_vector);
    }
}

/// Computes `floor_log2`.
pub fn floor_log2_exec(n: u64) -> (r: u64)
    requires
        1 <= n <= 0x1_0000_0000,
    ensures
        r == floor_log2(n),
{
    proof {
        lemma_floor_log2_bound(n);
    }
    let mut e: u64 = 0;
    let mut m: u64 = n;
    while m >= 2
        invariant
            1 <= m,
            floor_log2(n) == e + floor_log2(m),
            e <= floor_log2(n) <= 32,
        decreases m,
    {
        m = m / 2;
        e = e + 1;
    }
    e
}

/// Computes `f64_index_bits`.
pub fn f64_index_bits_exec(i: u64) -> (r: u64)
    requires
        1 <= i <= 0x1_0000_0000,
    ensures
        r == f64_index_bits(i),
{
    let e = floor_log2_exec(i);
    proof {
        lemma_floor_log2_bound(i);
    }
    ((1023 + e) << 52u64) | ((i - (1u64 << e)) << (52 - e))
}

/// Whether a byte sequence is valid UTF-8, by the shortest-form rules:
/// one-byte ASCII, and two- to four-byte sequences whose lead byte and
/// continuation ranges exclude overlong forms, surrogates, and code
/// points above U+10FFFF.
pub open spec fn is_utf8(s: Seq<u8>) -> bool
    decreases s.len(),
{
    if s.len() == 0 {
        true
    } else if s[0] < 0x80 {
        is_utf8(s.skip(1))
    } else if 0xC2 <= s[0] && s[0] <= 0xDF {
        s.len() >= 2 && is_cont(s[1]) && is_utf8(s.skip(2))
    } else if s[0] == 0xE0 {
        s.len() >= 3 && 0xA0 <= s[1] && s[1] <= 0xBF && is_cont(s[2]) && is_utf8(s.skip(3))
    } else if 0xE1 <= s[0] && s[0] <= 0xEC {
        s.len() >= 3 && is_cont(s[1]) && is_cont(s[2]) && is_utf8(s.skip(3))
    } else if s[0] == 0xED {
        s.len() >= 3 && 0x80 <= s[1] && s[1] <= 0x9F && is_cont(s[2]) && is_utf8(s.skip(3))
    } else if 0xEE <= s[0] && s[0] <= 0xEF {
        s.len() >= 3 && is_cont(s[1]) && is_cont(s[2]) && is_utf8(s.skip(3))
    } else if s[0] == 0xF0 {
        s.len() >= 4 && 0x90 <= s[1] && s[1] <= 0xBF && is_cont(s[2]) && is_cont(s[3]) && is_utf8(
            s.skip(4),
        )
    } else if 0xF1 <= s[0] && s[0] <= 0xF3 {
        s.len() >= 4 && is_cont(s[1]) && is_cont(s[2]) && is_cont(s[3]) && is_utf8(s.skip(4))
    } else if s[0] == 0xF4 {
        s.len() >= 4 && 0x80 <= s[1] && s[1] <= 0x8F && is_cont(s[2]) && is_cont(s[3]) && is_utf8(
            s.skip(4),
        )
    } else {
        false
    }
}

/// Whether a byte is a UTF-8 continuation byte.
pub open spec fn is_cont(b: u8) -> bool {
    0x80 <= b && b <= 0xBF
}

/// Checks a slice for UTF-8 validity.
pub fn check_utf8(s: &[u8], from: usize) -> (r: bool)
    requires
        from <= s@.len(),
    ensures
        r == is_utf8(s@.skip(from as int)),
    decreases s@.len() - from,
{
    let n = s.len();
    if from == n {
        return true;
    }
    proof {
        let t = s@.skip(from as int);
        if from + 1 <= n {
            assert(t.skip(1) =~= s@.skip(from + 1));
        }
        if from + 2 <= n {
            assert(t.skip(2) =~= s@.skip(from + 2));
        }
        if from + 3 <= n {
            assert(t.skip(3) =~= s@.skip(from + 3));
        }
        if from + 4 <= n {
            assert(t.skip(4) =~= s@.skip(from + 4));
        }
    }
    let b0 = s[from];
    if b0 < 0x80 {
        check_utf8(s, from + 1)
    } else if 0xC2 <= b0 && b0 <= 0xDF {
        n - from >= 2 && cont(s[from + 1]) && check_utf8(s, from + 2)
    } else if b0 == 0xE0 {
        n - from >= 3 && 0xA0 <= s[from + 1] && s[from + 1] <= 0xBF && cont(s[from + 2])
            && check_utf8(s, from + 3)
    } else if 0xE1 <= b0 && b0 <= 0xEC {
        n - from >= 3 && cont(s[from + 1]) && cont(s[from + 2]) && check_utf8(s, from + 3)
    } else if b0 == 0xED {
        n - from >= 3 && 0x80 <= s[from + 1] && s[from + 1] <= 0x9F && cont(s[from + 2])
            && check_utf8(s, from + 3)
    } else if 0xEE <= b0 && b0 <= 0xEF {
        n - from >= 3 && cont(s[from + 1]) && cont(s[from + 2]) && check_utf8(s, from + 3)
    } else if b0 == 0xF0 {
        n - from >= 4 && 0x90 <= s[from + 1] && s[from + 1] <= 0xBF && cont(s[from + 2]) && cont(
            s[from + 3],
        ) && check_utf8(s, from + 4)
    } else if 0xF1 <= b0 && b0 <= 0xF3 {
        n - from >= 4 && cont(s[from + 1]) && cont(s[from + 2]) && cont(s[from + 3]) && check_utf8(
            s,
            from + 4,
        )
    } else if b0 == 0xF4 {
        n - from >= 4 && 0x80 <= s[from + 1] && s[from + 1] <= 0x8F && cont(s[from + 2]) && cont(
            s[from + 3],
        ) && check_utf8(s, from + 4)
    } else {
        false
    }
}

/// Whether a byte is a UTF-8 continuation byte.
fn cont(b: u8) -> (r: bool)
    ensures
        r == is_cont(b),
{
    0x80 <= b && b <= 0xBF
}

} // verus!
