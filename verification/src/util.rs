//! Sizes: widths, paddings, and the length of varints.

use crate::constant::{FRS_PER_QUAD, IN_BYTES_PER_QUAD, NODE_SIZE};
use vstd::arithmetic::power2::{
    lemma2_to64, lemma2_to64_rest, lemma_pow2_adds, lemma_pow2_pos,
    lemma_pow2_strictly_increases, lemma_pow2_unfold, pow2,
};
use vstd::prelude::*;

verus! {

const BYTES_PER_NODE: u64 = NODE_SIZE as u64;

/// The largest payload size whose zero-padded size still fits in 64 bits: 127 * 2^57.
pub const MAX_PADDABLE_SIZE: u64 = 0xfe00_0000_0000_0000;

/// The smallest power of two that is not below `n`.
pub open spec fn ceil_pow2(n: nat) -> nat
    decreases n,
{
    if n <= 1 {
        1
    } else {
        2 * ceil_pow2(((n + 1) / 2) as nat)
    }
}

/// The number of 127-byte quads needed to hold `payload_size` bytes; a quad
/// at least, since an empty payload is padded to one.
pub open spec fn quad_count(payload_size: nat) -> nat {
    if payload_size == 0 {
        1
    } else {
        ((payload_size + 126) / 127) as nat
    }
}

/// The number of field elements at the base of the tree for a payload of the given size.
pub open spec fn width_of(payload_size: nat) -> nat {
    4 * ceil_pow2(quad_count(payload_size))
}

/// The number of zero bytes to append to a payload of the given size.
pub open spec fn zero_padding_of(payload_size: nat) -> int {
    127 * ceil_pow2(quad_count(payload_size)) - payload_size
}

/// The bytes of `value` as an unsigned varint: seven bits a byte, lowest
/// first, the high bit set on every byte but the last.
pub open spec fn varint(value: nat) -> Seq<u8>
    decreases value,
{
    if value < 128 {
        seq![value as u8]
    } else {
        seq![(value % 128 + 128) as u8] + varint(value / 128)
    }
}

/// `ceil_pow2(n)` lies in `[n, 2n)` and is a power of two.
pub proof fn lemma_ceil_pow2_bounds(n: nat)
    ensures
        n <= ceil_pow2(n),
        1 <= ceil_pow2(n),
        n >= 1 ==> ceil_pow2(n) < 2 * n,
        exists|k: nat| ceil_pow2(n) == pow2(k),
    decreases n,
{
    if n <= 1 {
        lemma2_to64();
        assert(ceil_pow2(n) == pow2(0));
    } else {
        let half = ((n + 1) / 2) as nat;
        lemma_ceil_pow2_bounds(half);
        let k = choose|k: nat| ceil_pow2(half) == pow2(k);
        lemma_pow2_unfold(k + 1);
        assert(ceil_pow2(n) == pow2(k + 1));
    }
}

/// `ceil_pow2` never decreases.
pub proof fn lemma_ceil_pow2_monotone(a: nat, b: nat)
    requires
        a <= b,
    ensures
        ceil_pow2(a) <= ceil_pow2(b),
    decreases b,
{
    if b <= 1 {
    } else if a <= 1 {
        lemma_ceil_pow2_bounds(b);
    } else {
        lemma_ceil_pow2_monotone(((a + 1) / 2) as nat, ((b + 1) / 2) as nat);
    }
}

/// A power of two is its own ceiling.
pub proof fn lemma_ceil_pow2_of_pow2(k: nat)
    ensures
        ceil_pow2(pow2(k)) == pow2(k),
    decreases k,
{
    lemma2_to64();
    if k == 0 {
    } else {
        lemma_pow2_unfold(k);
        lemma_ceil_pow2_of_pow2((k - 1) as nat);
        lemma_pow2_pos((k - 1) as nat);
        assert((pow2(k) + 1) / 2 == pow2((k - 1) as nat));
    }
}

/// Every varint of a 64-bit value has between one and ten bytes.
pub proof fn lemma_varint_len(value: nat)
    ensures
        1 <= varint(value).len(),
        value <= u64::MAX ==> varint(value).len() <= 10,
        value < 128 <==> varint(value).len() == 1,
{
    reveal_with_fuel(varint, 11);
}

/// A varint takes a byte for every seven bits of its value: it has `k`
/// bytes or fewer just when the value is below `2^(7k)`.
pub proof fn lemma_varint_len_is_bits(value: nat, k: nat)
    requires
        k >= 1,
    ensures
        varint(value).len() <= k <==> value < pow2(7 * k),
    decreases k,
{
    lemma2_to64();
    if k == 1 {
        lemma_varint_len(value);
    } else {
        lemma_pow2_adds(7, (7 * (k - 1)) as nat);
        if value < 128 {
            lemma_pow2_strictly_increases(7, 7 * k);
        } else {
            lemma_varint_len_is_bits(value / 128, (k - 1) as nat);
            let limit = pow2((7 * (k - 1)) as nat);
            assert(value / 128 < limit <==> value < 128 * limit);
        }
    }
}

/// Payloads up to the largest paddable size need no more than 2^57 quads
/// after rounding.
pub proof fn lemma_quads_within(payload_size: nat)
    requires
        payload_size <= MAX_PADDABLE_SIZE,
    ensures
        ceil_pow2(quad_count(payload_size)) <= 0x200_0000_0000_0000,
{
    lemma2_to64_rest();
    lemma_ceil_pow2_of_pow2(57);
    lemma_ceil_pow2_monotone(quad_count(payload_size), pow2(57));
}

/// The zero padding of a payload is no less than nothing, and fits in 64
/// bits with the payload.
pub proof fn lemma_padding_fits(payload_size: nat)
    ensures
        0 <= zero_padding_of(payload_size),
        payload_size <= MAX_PADDABLE_SIZE ==> zero_padding_of(payload_size) + payload_size
            <= MAX_PADDABLE_SIZE,
{
    lemma_ceil_pow2_bounds(quad_count(payload_size));
    if payload_size <= MAX_PADDABLE_SIZE {
        lemma_quads_within(payload_size);
    }
}

/// The smallest power of two that is not below `n`.
pub fn ceil_power_of_two(n: u64) -> (p: u64)
    requires
        n <= 0x8000_0000_0000_0000,
    ensures
        p == ceil_pow2(n as nat),
{
    let mut rest: u64 = n;
    let mut p: u64 = 1;
    proof {
        lemma2_to64_rest();
        lemma_ceil_pow2_of_pow2(63);
        lemma_ceil_pow2_monotone(n as nat, pow2(63));
        assert(1 * ceil_pow2(n as nat) == ceil_pow2(n as nat));
    }
    while rest > 1
        invariant
            p * ceil_pow2(rest as nat) == ceil_pow2(n as nat),
            ceil_pow2(n as nat) <= 0x8000_0000_0000_0000,
            p >= 1,
        decreases rest,
    {
        let ghost before = rest;
        rest = rest / 2 + rest % 2;
        proof {
            assert(rest == (before + 1) / 2);
            lemma_ceil_pow2_bounds(rest as nat);
            assert(p * ceil_pow2(before as nat) == (2 * p) * ceil_pow2(rest as nat))
                by (nonlinear_arith)
                requires
                    ceil_pow2(before as nat) == 2 * ceil_pow2(rest as nat),
            ;
            assert(2 * p <= (2 * p) * ceil_pow2(rest as nat)) by (nonlinear_arith)
                requires
                    1 <= ceil_pow2(rest as nat),
                    p >= 1,
            ;
        }
        p = p * 2;
    }
    assert(p == ceil_pow2(n as nat)) by (nonlinear_arith)
        requires
            p * ceil_pow2(rest as nat) == ceil_pow2(n as nat),
            ceil_pow2(rest as nat) == 1,
    ;
    p
}

/// The size in bytes of a piece whose tree has the given height.
pub fn from_height(height: u32) -> (size: u64)
    requires
        height <= 58,
    ensures
        size == pow2(height as nat) * 32,
{
    let mut size: u64 = BYTES_PER_NODE;
    let mut level: u32 = 0;
    proof {
        lemma2_to64();
        lemma2_to64_rest();
    }
    while level < height
        invariant
            level <= height <= 58,
            size == pow2(level as nat) * 32,
            pow2(58) == 0x400_0000_0000_0000,
        decreases height - level,
    {
        proof {
            lemma_pow2_unfold((level + 1) as nat);
            if level + 1 < 58 {
                lemma_pow2_strictly_increases((level + 1) as nat, 58);
            }
        }
        size = size * 2;
        level += 1;
    }
    size
}

/// The number of zero bytes that must follow a payload of this size before
/// it can be Fr32 padded.
pub fn required_zero_padding(payload_size: u64) -> (padding: u64)
    requires
        payload_size <= MAX_PADDABLE_SIZE,
    ensures
        padding == zero_padding_of(payload_size as nat),
{
    let width = required_width(payload_size);
    proof {
        lemma_quads_within(payload_size as nat);
        lemma_ceil_pow2_bounds(quad_count(payload_size as nat));
    }
    assert(IN_BYTES_PER_QUAD == 127 && FRS_PER_QUAD == 4);
    let padded_size = width / FRS_PER_QUAD as u64 * IN_BYTES_PER_QUAD as u64;
    padded_size - payload_size
}

/// The number of leaves, counted in field elements, that a payload of this
/// size needs: four for each quad, the quads rounded up to a power of two.
pub fn required_width(payload_size: u64) -> (width: u64)
    ensures
        width == width_of(payload_size as nat),
{
    assert(IN_BYTES_PER_QUAD == 127 && FRS_PER_QUAD == 4);
    let quads: u64 = if payload_size == 0 {
        1
    } else {
        payload_size / IN_BYTES_PER_QUAD as u64 + if payload_size % IN_BYTES_PER_QUAD as u64 > 0 {
            1u64
        } else {
            0u64
        }
    };
    assert(quads == quad_count(payload_size as nat));
    proof {
        lemma_ceil_pow2_bounds(quads as nat);
    }
    ceil_power_of_two(quads) * FRS_PER_QUAD as u64
}

/// The number of bytes that `value` takes as a varint.
pub fn varint_estimate(value: u64) -> (n: usize)
    ensures
        n == varint(value as nat).len(),
        1 <= n <= 10,
{
    let mut n: usize = 1;
    let mut rest: u64 = value;
    proof {
        lemma_varint_len(value as nat);
    }
    while rest >= 128
        invariant
            1 <= n,
            n - 1 + varint(rest as nat).len() == varint(value as nat).len(),
            varint(value as nat).len() <= 10,
        decreases rest,
    {
        proof {
            lemma_varint_len((rest / 128) as nat);
        }
        rest = rest / 128;
        n += 1;
    }
    n
}

} // verus!
