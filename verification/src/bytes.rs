//! Fixed-width integers in byte sequences.
use vstd::prelude::*;

verus! {

/// The big-endian 32-bit word at `off`.
pub open spec fn be_u32(s: Seq<u8>, off: int) -> u32 {
    (s[off] * 0x100_0000 + s[off + 1] * 0x1_0000 + s[off + 2] * 0x100 + s[off + 3]) as u32
}

/// The big-endian 16-bit word at `off`.
pub open spec fn be_u16(s: Seq<u8>, off: int) -> u16 {
    (s[off] * 0x100 + s[off + 1]) as u16
}

/// The little-endian 32-bit word at `off`.
pub open spec fn le_u32(s: Seq<u8>, off: int) -> u32 {
    (s[off] + s[off + 1] * 0x100 + s[off + 2] * 0x1_0000 + s[off + 3] * 0x100_0000) as u32
}

/// Two's complement reading of a 32-bit word.
pub open spec fn signed32(v: u32) -> i32 {
    if v < 0x8000_0000 {
        v as i32
    } else {
        (v - 0x1_0000_0000) as i32
    }
}

/// Two's complement reading of a 16-bit word.
pub open spec fn signed16(v: u16) -> i16 {
    if v < 0x8000 {
        v as i16
    } else {
        (v - 0x1_0000) as i16
    }
}

/// The four bytes of `x`, most significant first.
pub open spec fn be32(x: u32) -> Seq<u8> {
    seq![
        (x / 0x100_0000) as u8,
        (x / 0x1_0000 % 0x100) as u8,
        (x / 0x100 % 0x100) as u8,
        (x % 0x100) as u8,
    ]
}

/// The two bytes of `x`, most significant first.
pub open spec fn be16(x: u16) -> Seq<u8> {
    seq![(x / 0x100) as u8, (x % 0x100) as u8]
}

/// The four bytes of `x`, least significant first.
pub open spec fn le32(x: u32) -> Seq<u8> {
    seq![
        (x % 0x100) as u8,
        (x / 0x100 % 0x100) as u8,
        (x / 0x1_0000 % 0x100) as u8,
        (x / 0x100_0000) as u8,
    ]
}

/// The unsigned word with the same bits as `x`.
pub open spec fn unsigned16(x: i16) -> u16 {
    if x >= 0 {
        x as u16
    } else {
        (x + 0x1_0000) as u16
    }
}

/// Reading back a big-endian word gives the word that was written.
pub proof fn lemma_be32_round_trip(x: u32)
    ensures
        be_u32(be32(x), 0) == x,
{
}

/// Reading back a little-endian word gives the word that was written.
pub proof fn lemma_le32_round_trip(x: u32)
    ensures
        le_u32(le32(x), 0) == x,
{
}

/// The low 32 bits of a 64-bit value.
pub open spec fn low32(x: u64) -> u32 {
    (x % 0x1_0000_0000) as u32
}

/// The number that the `n` bytes at `off` are the digits of, the highest first.
pub open spec fn number(d: Seq<u8>, off: int, n: nat) -> int
    decreases n,
{
    if n == 0 {
        0
    } else {
        number(d, off, (n - 1) as nat) * 256 + d[off + n - 1]
    }
}

/// The number that the `n` bytes at `off` are the digits of, the lowest first.
pub open spec fn number_le(d: Seq<u8>, off: int, n: nat) -> int
    decreases n,
{
    if n == 0 {
        0
    } else {
        d[off] + 256 * number_le(d, off + 1, (n - 1) as nat)
    }
}

/// Words are read by their bytes, and by two's complement where they are signed.
pub proof fn lemma_words(d: Seq<u8>, off: int)
    ensures
        be_u32(d, off) == number(d, off, 4),
        be_u16(d, off) == number(d, off, 2),
        le_u32(d, off) == number_le(d, off, 4),
        signed32(be_u32(d, off)) == (if d[off] < 0x80 {
            number(d, off, 4)
        } else {
            number(d, off, 4) - 0x1_0000_0000
        }),
        signed16(be_u16(d, off)) == (if d[off] < 0x80 {
            number(d, off, 2)
        } else {
            number(d, off, 2) - 0x1_0000
        }),
{
    reveal_with_fuel(number, 5);
    reveal_with_fuel(number_le, 5);
}

/// Words are written by their bytes.
pub proof fn lemma_words_written(x: u32, y: u16, z: i16)
    ensures
        be32(x).len() == 4,
        number(be32(x), 0, 4) == x,
        le32(x).len() == 4,
        number_le(le32(x), 0, 4) == x,
        be16(y).len() == 2,
        number(be16(y), 0, 2) == y,
        number(be16(unsigned16(z)), 0, 2) == (z as int) % 0x1_0000,
{
    lemma_words(be32(x), 0);
    lemma_words(le32(x), 0);
    lemma_words(be16(y), 0);
    lemma_words(be16(unsigned16(z)), 0);
    lemma_be32_round_trip(x);
    lemma_le32_round_trip(x);
}

/// Cutting a 64-bit value leaves its low 32 bits, and a 32-bit value as it is.
pub proof fn lemma_low32(x: u64)
    ensures
        (x - low32(x)) % 0x1_0000_0000 == 0,
        x <= u32::MAX ==> low32(x) == x,
{
}

/// Takes the low 32 bits of a 64-bit value.
pub fn low_word(x: u64) -> (r: u32)
    ensures
        r == low32(x),
{
    (x % 0x1_0000_0000) as u32
}

/// Reads the big-endian 32-bit word at `off`.
pub fn read_be_u32(data: &[u8], off: usize) -> (r: u32)
    requires
        off + 4 <= data@.len(),
    ensures
        r == be_u32(data@, off as int),
{
    data[off] as u32 * 0x100_0000 + data[off + 1] as u32 * 0x1_0000 + data[off + 2] as u32 * 0x100
        + data[off + 3] as u32
}

/// Reads the big-endian 16-bit word at `off`.
pub fn read_be_u16(data: &[u8], off: usize) -> (r: u16)
    requires
        off + 2 <= data@.len(),
    ensures
        r == be_u16(data@, off as int),
{
    data[off] as u16 * 0x100 + data[off + 1] as u16
}

/// Reads the big-endian signed 32-bit word at `off`.
pub fn read_be_i32(data: &[u8], off: usize) -> (r: i32)
    requires
        off + 4 <= data@.len(),
    ensures
        r == signed32(be_u32(data@, off as int)),
{
    let v: u32 = read_be_u32(data, off);
    if v < 0x8000_0000 {
        v as i32
    } else {
        (v as i64 - 0x1_0000_0000) as i32
    }
}

/// Reads the big-endian signed 16-bit word at `off`.
pub fn read_be_i16(data: &[u8], off: usize) -> (r: i16)
    requires
        off + 2 <= data@.len(),
    ensures
        r == signed16(be_u16(data@, off as int)),
{
    let v: u16 = read_be_u16(data, off);
    if v < 0x8000 {
        v as i16
    } else {
        (v as i32 - 0x1_0000) as i16
    }
}

/// Reads the little-endian 32-bit word at `off`.
pub fn word_le(data: &[u8], off: usize) -> (r: u32)
    requires
        off + 4 <= data@.len(),
    ensures
        r == le_u32(data@, off as int),
{
    data[off] as u32 + data[off + 1] as u32 * 0x100 + data[off + 2] as u32 * 0x1_0000
        + data[off + 3] as u32 * 0x100_0000
}

/// Two to the power of `n`.
pub fn power_of_two(n: u64) -> (r: u64)
    requires
        n < 64,
    ensures
        r == vstd::arithmetic::power2::pow2(n as nat),
{
    proof {
        vstd::bits::lemma_u64_pow2_no_overflow(n as nat);
        vstd::bits::lemma_u64_shl_is_mul(1, n);
    }
    1u64 << n
}

} // verus!
