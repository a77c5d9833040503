//! Bit interleaving of a pair of coordinates into a Morton code.

use vstd::prelude::*;
use vstd::arithmetic::power2::{lemma2_to64, lemma_pow2_strictly_increases, pow2};
use vstd::bits::lemma_u32_shl_is_mul;

verus! {

/// Number of bits in one coordinate component.
pub const COORD_BITS: u32 = 8;

/// The bits of `v` moved apart: bit `i` of `v` is bit `2 * i` of the result,
/// and every odd bit of the result is clear.
pub open spec fn spread(v: u8) -> u16 {
    let w = v as u16;
    (w & 0x01) | ((w & 0x02) << 1) | ((w & 0x04) << 2) | ((w & 0x08) << 3)
        | ((w & 0x10) << 4) | ((w & 0x20) << 5) | ((w & 0x40) << 6) | ((w & 0x80) << 7)
}

/// The Morton code of `(x, y)`: bit `i` of `x` is bit `2 * i + 1` of the code
/// and bit `i` of `y` is bit `2 * i`.
pub open spec fn interleave(x: u8, y: u8) -> u16 {
    (spread(x) << 1) | spread(y)
}

/// The even bits of `code` moved together: bit `2 * i` of `code` is bit `i`
/// of the result.
pub open spec fn gather(code: u16) -> u8 {
    ((code & 0x0001) | ((code & 0x0004) >> 1) | ((code & 0x0010) >> 2) | ((code & 0x0040) >> 3)
        | ((code & 0x0100) >> 4) | ((code & 0x0400) >> 5) | ((code & 0x1000) >> 6)
        | ((code & 0x4000) >> 7)) as u8
}

/// The Morton code of a cell.
pub open spec fn code_of(cell: (u8, u8)) -> u16 {
    interleave(cell.0, cell.1)
}

/// The pair of coordinates whose Morton code is `code`.
pub open spec fn deinterleave(code: u16) -> (u8, u8) {
    (gather(code >> 1), gather(code))
}

/// The two-bit group of `code` that starts at bit `shift`.
pub open spec fn bit_group(code: u16, shift: u32) -> u16 {
    (code >> shift) & 0b11
}

/// Calls `morton_encoding::morton_encode` on the array `[x, y]`. For two
/// `u8` coordinates that function widens each to `u16`, moves its bits apart
/// so that a zero separates each pair of neighbours, and returns the first
/// shifted left by one, or-ed with the second. The contract states that
/// result; it is not proved here.
#[verifier::external_body]
fn morton_encode_pair(x: u8, y: u8) -> (code: u16)
    ensures
        code == interleave(x, y),
{
    morton_encoding::morton_encode([x, y])
}

/// The Morton code of the cell `(x, y)`.
pub fn encode(x: u8, y: u8) -> (code: u16)
    ensures
        code == interleave(x, y),
        deinterleave(code) == (x, y),
        forall|i: u32| i < COORD_BITS ==> #[trigger] bit_group(code, (2 * i) as u32) == pair_of_bits(x, y, i),
{
    proof {
        lemma_deinterleave_interleave(x, y);
        assert forall|i: u32| i < COORD_BITS implies #[trigger] bit_group(
            interleave(x, y),
            (2 * i) as u32,
        ) == pair_of_bits(x, y, i) by {
            lemma_group_is_pair_of_bits(x, y, i);
        }
    }
    morton_encode_pair(x, y)
}

/// Bit `i` of `x` above bit `i` of `y`, as a number below four.
pub open spec fn pair_of_bits(x: u8, y: u8, i: u32) -> u16 {
    ((((x >> i) & 1) << 1) | ((y >> i) & 1)) as u16
}

/// The two-bit group of `code` that starts at bit `shift`; zero when `shift`
/// is past the last bit.
pub fn group_at(code: u16, shift: u32) -> (group: u16)
    ensures
        group == bit_group(code, shift),
        group < 4,
{
    if shift < 16 {
        let group: u16 = (code >> shift) & 0b11;
        assert(((code >> shift) & 0b11) < 4) by (bit_vector);
        group
    } else {
        assert(((code >> shift) & 0b11) == 0) by (bit_vector)
            requires
                shift >= 16,
        ;
        0
    }
}

/// Decoding a code gives back the pair that was encoded.
pub proof fn lemma_deinterleave_interleave(x: u8, y: u8)
    ensures
        deinterleave(interleave(x, y)) == (x, y),
{
    assert(gather(interleave(x, y) >> 1) == x) by (bit_vector);
    assert(gather(interleave(x, y)) == y) by (bit_vector);
}

/// Encoding the pair decoded from a code gives back the code.
pub proof fn lemma_interleave_deinterleave(code: u16)
    ensures
        interleave(deinterleave(code).0, deinterleave(code).1) == code,
{
    assert(interleave(gather(code >> 1), gather(code)) == code) by (bit_vector);
}

/// Each two-bit group of a code holds one bit of `x` above the same bit of
/// `y`.
pub proof fn lemma_group_is_pair_of_bits(x: u8, y: u8, i: u32)
    requires
        i < COORD_BITS,
    ensures
        bit_group(interleave(x, y), (2 * i) as u32) == pair_of_bits(x, y, i),
{
    let shift = (2 * i) as u32;
    assert(bit_group(interleave(x, y), shift) == pair_of_bits(x, y, i)) by (bit_vector)
        requires
            i < 8,
            shift == 2 * i,
    ;
}

/// Cells with the same code are the same cell.
pub proof fn lemma_code_injective(a: (u8, u8), b: (u8, u8))
    requires
        code_of(a) == code_of(b),
    ensures
        a == b,
{
    lemma_deinterleave_interleave(a.0, a.1);
    lemma_deinterleave_interleave(b.0, b.1);
}

/// One shifted left by `n` is two to the power `n`, as far as a code has
/// bits.
pub proof fn lemma_shift_is_pow2(n: u32)
    requires
        n <= 2 * COORD_BITS,
    ensures
        (1u32 << n) == pow2(n as nat),
        pow2(n as nat) <= 0x10000,
{
    lemma2_to64();
    if n < 16 {
        lemma_pow2_strictly_increases(n as nat, 16);
    }
    lemma_u32_shl_is_mul(1, n);
}

/// Both coordinates are below two to the power `bits` exactly when the code
/// is below four to the power `bits`: the codes of a grid with `bits` bits
/// per component are the numbers of `2 * bits` bits.
pub proof fn lemma_code_range(x: u8, y: u8, bits: u32)
    requires
        bits <= COORD_BITS,
    ensures
        (x < pow2(bits as nat) && y < pow2(bits as nat)) <==> interleave(x, y) < pow2(
            (2 * bits) as nat,
        ),
{
    let width = (2 * bits) as u32;
    lemma_shift_is_pow2(bits);
    lemma_shift_is_pow2(width);
    assert(((x as u32) < (1u32 << bits) && (y as u32) < (1u32 << bits)) <==> (interleave(x, y) as u32)
        < (1u32 << width)) by (bit_vector)
        requires
            bits <= 8,
            width == 2 * bits,
    ;
}

} // verus!
