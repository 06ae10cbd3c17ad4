//! Fr32 padding: two zero bits after every 254 bits of payload, so that
//! every 32 bytes of the result are a field element; and its inverse.

use crate::constant::MIN_PAYLOAD_SIZE;
use crate::util::{
    ceil_pow2, ceil_power_of_two, lemma_ceil_pow2_bounds, lemma_quads_within, quad_count,
    MAX_PADDABLE_SIZE,
};
use vstd::prelude::*;

verus! {

const IN_BYTES_PER_QUAD: u64 = crate::constant::IN_BYTES_PER_QUAD as u64;

const OUT_BYTES_PER_QUAD: u64 = crate::constant::OUT_BYTES_PER_QUAD as u64;

/// The largest payload size whose piece size still fits in 64 bits: 127 * 2^56.
pub const MAX_PIECE_PAYLOAD: u64 = 0x7f00_0000_0000_0000;

/// The smallest supported size a payload of `payload_size` bytes is zero
/// padded to: a power of two quads, and no less than the minimum payload.
pub open spec fn zero_padded_size_of(payload_size: nat) -> nat {
    let size = if payload_size < 65 {
        65
    } else {
        payload_size
    };
    127 * ceil_pow2(quad_count(size))
}

/// The smallest supported payload size, a power of two of quads, that holds
/// `payload_size` bytes.
pub fn to_zero_padded_size(payload_size: u64) -> (padded: u64)
    requires
        payload_size <= MAX_PADDABLE_SIZE,
    ensures
        padded == zero_padded_size_of(payload_size as nat),
        padded >= payload_size,
{
    assert(MIN_PAYLOAD_SIZE == 65 && IN_BYTES_PER_QUAD == 127);
    let size: u64 = if payload_size < MIN_PAYLOAD_SIZE {
        MIN_PAYLOAD_SIZE
    } else {
        payload_size
    };
    let quads: u64 = size / IN_BYTES_PER_QUAD + if size % IN_BYTES_PER_QUAD > 0 {
        1u64
    } else {
        0u64
    };
    assert(quads == quad_count(size as nat));
    proof {
        lemma_quads_within(size as nat);
        lemma_ceil_pow2_bounds(quads as nat);
    }
    ceil_power_of_two(quads) * IN_BYTES_PER_QUAD
}

/// The size of the piece that a payload of `size` bytes fills once it is
/// zero padded and then Fr32 padded.
pub fn to_piece_size(size: u64) -> (piece_size: u64)
    requires
        size <= MAX_PIECE_PAYLOAD,
    ensures
        piece_size == zero_padded_size_of(size as nat) * 256 / 254,
{
    assert(OUT_BYTES_PER_QUAD == 128 && IN_BYTES_PER_QUAD == 127);
    let padded = to_zero_padded_size(size);
    proof {
        let limit: nat = if size < 65 {
            65
        } else {
            size as nat
        };
        let quads = ceil_pow2(quad_count(limit));
        vstd::arithmetic::power2::lemma2_to64_rest();
        crate::util::lemma_ceil_pow2_of_pow2(56);
        assert(quad_count(limit) <= 0x100_0000_0000_0000);
        crate::util::lemma_ceil_pow2_monotone(
            quad_count(limit),
            vstd::arithmetic::power2::pow2(56),
        );
        assert(padded == 127 * quads);
        assert(padded / 127 == quads);
        assert((127 * quads) * 256 / 254 == 128 * quads);
    }
    (padded / IN_BYTES_PER_QUAD) * OUT_BYTES_PER_QUAD
}

/// The number of payload bytes that fit in `size` bytes of Fr32 padded data.
pub fn from_piece_size(size: u64) -> (payload_size: u64)
    ensures
        payload_size == size * 254 / 256,
{
    assert(OUT_BYTES_PER_QUAD == 128 && IN_BYTES_PER_QUAD == 127);
    (size / OUT_BYTES_PER_QUAD) * IN_BYTES_PER_QUAD + (size % OUT_BYTES_PER_QUAD)
        * IN_BYTES_PER_QUAD / OUT_BYTES_PER_QUAD
}

/// Byte `j` of the 128-byte quad that the 127 bytes of `quad` are padded to.
///
/// Each 32-byte slot holds 254 bits of payload and then two zero bits: slot
/// `k` takes its bytes from the input shifted left by `2k` bits across byte
/// boundaries, and the top two bits of its last byte are cleared.
pub open spec fn pad_byte(quad: Seq<u8>, j: int) -> u8 {
    let raw: u8 = if j < 32 {
        quad[j]
    } else if j < 64 {
        (quad[j] << 2) | (quad[j - 1] >> 6)
    } else if j < 96 {
        (quad[j] << 4) | (quad[j - 1] >> 4)
    } else if j < 127 {
        (quad[j] << 6) | (quad[j - 1] >> 2)
    } else {
        quad[126] >> 2
    };
    if j % 32 == 31 && j < 127 {
        raw & 0x3f
    } else {
        raw
    }
}

/// The 128 bytes that a 127-byte quad is padded to.
pub open spec fn pad_quad_of(quad: Seq<u8>) -> Seq<u8> {
    Seq::new(128, |j: int| pad_byte(quad, j))
}

/// Pads the quad that starts at `offset` in `source`.
pub fn pad_quad(source: &[u8], offset: usize) -> (padded: [u8; 128])
    requires
        offset + 127 <= source@.len(),
    ensures
        padded@ == pad_quad_of(source@.subrange(offset as int, offset + 127)),
{
    let ghost quad = source@.subrange(offset as int, offset + 127);
    let length = source.len();
    let mut buffer = [0u8; 128];
    let mut i: usize = 0;
    while i < 32
        invariant
            i <= 32,
            offset + 127 <= length == source@.len(),
            quad == source@.subrange(offset as int, offset + 127),
            forall|j: int| 0 <= j < i ==> buffer@[j] == quad[j],
        decreases 32 - i,
    {
        buffer[i] = source[offset + i];
        i += 1;
    }
    buffer[31] = buffer[31] & 0b00111111;
    while i < 64
        invariant
            32 <= i <= 64,
            offset + 127 <= length == source@.len(),
            quad == source@.subrange(offset as int, offset + 127),
            forall|j: int| 0 <= j < 32 ==> buffer@[j] == pad_byte(quad, j),
            forall|j: int| 32 <= j < i ==> buffer@[j] == (quad[j] << 2) | (quad[j - 1] >> 6),
        decreases 64 - i,
    {
        buffer[i] = (source[offset + i] << 2) | (source[offset + i - 1] >> 6);
        i += 1;
    }
    buffer[63] = buffer[63] & 0b00111111;
    while i < 96
        invariant
            64 <= i <= 96,
            offset + 127 <= length == source@.len(),
            quad == source@.subrange(offset as int, offset + 127),
            forall|j: int| 0 <= j < 64 ==> buffer@[j] == pad_byte(quad, j),
            forall|j: int| 64 <= j < i ==> buffer@[j] == (quad[j] << 4) | (quad[j - 1] >> 4),
        decreases 96 - i,
    {
        buffer[i] = (source[offset + i] << 4) | (source[offset + i - 1] >> 4);
        i += 1;
    }
    buffer[95] = buffer[95] & 0b00111111;
    while i < 127
        invariant
            96 <= i <= 127,
            offset + 127 <= length == source@.len(),
            quad == source@.subrange(offset as int, offset + 127),
            forall|j: int| 0 <= j < 96 ==> buffer@[j] == pad_byte(quad, j),
            forall|j: int| 96 <= j < i ==> buffer@[j] == (quad[j] << 6) | (quad[j - 1] >> 2),
        decreases 127 - i,
    {
        buffer[i] = (source[offset + i] << 6) | (source[offset + i - 1] >> 2);
        i += 1;
    }
    buffer[127] = source[offset + 126] >> 2;
    assert(buffer@ =~= pad_quad_of(quad));
    buffer
}

/// Byte `i` of the 127 bytes that the 128-byte padded quad `quad` is
/// unpadded to: the mirror of `pad_byte`, each slot shifted back right and
/// merged with the low bits of the byte after it.
pub open spec fn unpad_byte(quad: Seq<u8>, i: int) -> u8 {
    if i < 31 {
        quad[i]
    } else if i == 31 {
        quad[31] | (quad[32] << 6)
    } else if i < 63 {
        (quad[i] >> 2) | (quad[i + 1] << 6)
    } else if i == 63 {
        (quad[63] >> 2) ^ (quad[64] << 4)
    } else if i < 95 {
        (quad[i] >> 4) | (quad[i + 1] << 4)
    } else if i == 95 {
        (quad[95] >> 4) ^ (quad[96] << 2)
    } else {
        (quad[i] >> 6) | (quad[i + 1] << 2)
    }
}

/// The 127 bytes that a padded 128-byte quad is unpadded to.
pub open spec fn unpad_quad_of(quad: Seq<u8>) -> Seq<u8> {
    Seq::new(127, |i: int| unpad_byte(quad, i))
}

/// Quad number `n` of `source`, where a quad has `size` bytes.
pub open spec fn quad_at(source: Seq<u8>, n: int, size: int) -> Seq<u8> {
    source.subrange(n * size, n * size + size)
}

/// The Fr32 padding of the whole quads of `source`, quad by quad.
pub open spec fn padded(source: Seq<u8>) -> Seq<u8> {
    Seq::new(
        (source.len() / 127 * 128) as nat,
        |j: int| pad_byte(quad_at(source, j / 128, 127), j % 128),
    )
}

/// What the whole padded quads of `source` are unpadded to, quad by quad.
pub open spec fn unpadded(source: Seq<u8>) -> Seq<u8> {
    Seq::new(
        (source.len() / 128 * 127) as nat,
        |i: int| unpad_byte(quad_at(source, i / 127, 128), i % 127),
    )
}

/// Fr32 pads `source` into the front of `output` and returns the number of
/// payload bytes that were padded. The source has to be of a supported
/// zero-padded size already.
pub fn pad(source: &[u8], output: &mut [u8]) -> (result: Result<usize, ()>)
    requires
        source@.len() == zero_padded_size_of(source@.len()),
        old(output)@.len() >= source@.len() / 127 * 128,
    ensures
        result == Ok::<usize, ()>(source@.len() as usize),
        final(output)@.len() == old(output)@.len(),
        final(output)@.subrange(0, (source@.len() / 127 * 128) as int) == padded(source@),
        forall|j: int|
            source@.len() / 127 * 128 <= j < old(output)@.len() ==> final(output)@[j] == old(
                output,
            )@[j],
{
    let size: usize = source.len();
    let capacity: usize = output.len();
    let quads: usize = size / 127;
    let mut n: usize = 0;
    while n < quads
        invariant
            n <= quads == size / 127,
            size == source@.len(),
            capacity == output@.len() == old(output)@.len(),
            capacity >= quads * 128,
            forall|j: int| 0 <= j < n * 128 ==> output@[j] == padded(source@)[j],
            forall|j: int| n * 128 <= j < capacity ==> output@[j] == old(output)@[j],
        decreases quads - n,
    {
        let read_offset: usize = n * 127;
        let write_offset: usize = n * 128;
        let quad = pad_quad(source, read_offset);
        let mut i: usize = 0;
        while i < 128
            invariant
                i <= 128,
                n < quads,
                write_offset == n * 128,
                capacity == output@.len() == old(output)@.len(),
                capacity >= quads * 128,
                quad@ == pad_quad_of(quad_at(source@, n as int, 127)),
                forall|j: int| 0 <= j < n * 128 ==> output@[j] == padded(source@)[j],
                forall|j: int| 0 <= j < i ==> output@[write_offset + j] == quad@[j],
                forall|j: int| n * 128 + i <= j < capacity ==> output@[j] == old(output)@[j],
            decreases 128 - i,
        {
            output[write_offset + i] = quad[i];
            i += 1;
        }
        assert forall|j: int| 0 <= j < (n + 1) * 128 implies output@[j] == padded(source@)[j] by {
            if j >= n * 128 {
                assert(j / 128 == n && j % 128 == j - n * 128);
                assert(output@[write_offset + (j - n * 128)] == quad@[j - n * 128]);
            }
        }
        n += 1;
    }
    assert(output@.subrange(0, (source@.len() / 127 * 128) as int) =~= padded(source@));
    Ok(size)
}

/// Removes the Fr32 padding of the whole 128-byte quads of `source`, writes
/// the payload to the front of `out`, and returns the number of payload bytes
/// that `source` has room for.
pub fn unpad(source: &[u8], out: &mut [u8]) -> (result: Result<usize, ()>)
    requires
        old(out)@.len() >= source@.len() / 128 * 127,
    ensures
        result == Ok::<usize, ()>((source@.len() * 254 / 256) as usize),
        final(out)@.len() == old(out)@.len(),
        final(out)@.subrange(0, (source@.len() / 128 * 127) as int) == unpadded(source@),
        forall|j: int|
            source@.len() / 128 * 127 <= j < old(out)@.len() ==> final(out)@[j] == old(out)@[j],
{
    let size: usize = source.len();
    let capacity: usize = out.len();
    let chunks: usize = size / 128;
    let mut chunk: usize = 0;
    while chunk < chunks
        invariant
            chunk <= chunks == size / 128,
            size == source@.len(),
            capacity == out@.len() == old(out)@.len(),
            capacity >= chunks * 127,
            forall|j: int| 0 <= j < chunk * 127 ==> out@[j] == unpadded(source@)[j],
            forall|j: int| chunk * 127 <= j < capacity ==> out@[j] == old(out)@[j],
        decreases chunks - chunk,
    {
        let in_off: usize = chunk * 128;
        let out_off: usize = chunk * 127;
        let ghost quad = quad_at(source@, chunk as int, 128);
        let mut i: usize = 0;
        while i < 127
            invariant
                i <= 127,
                chunk < chunks == size / 128,
                size == source@.len(),
                in_off == chunk * 128,
                out_off == chunk * 127,
                capacity == out@.len() == old(out)@.len(),
                capacity >= chunks * 127,
                quad == quad_at(source@, chunk as int, 128),
                forall|j: int| 0 <= j < chunk * 127 ==> out@[j] == unpadded(source@)[j],
                forall|j: int| 0 <= j < i ==> out@[out_off + j] == unpad_byte(quad, j),
                forall|j: int| chunk * 127 + i <= j < capacity ==> out@[j] == old(out)@[j],
            decreases 127 - i,
        {
            let at: u8 = source[in_off + i];
            let next: u8 = source[in_off + i + 1];
            assert(at == quad[i as int] && next == quad[i + 1]);
            let byte: u8 = if i < 31 {
                at
            } else if i == 31 {
                at | (next << 6)
            } else if i < 63 {
                (at >> 2) | (next << 6)
            } else if i == 63 {
                (at >> 2) ^ (next << 4)
            } else if i < 95 {
                (at >> 4) | (next << 4)
            } else if i == 95 {
                (at >> 4) ^ (next << 2)
            } else {
                (at >> 6) | (next << 2)
            };
            out[out_off + i] = byte;
            i += 1;
        }
        assert forall|j: int| 0 <= j < (chunk + 1) * 127 implies out@[j] == unpadded(source@)[j] by {
            if j >= chunk * 127 {
                assert(j / 127 == chunk && j % 127 == j - chunk * 127);
                assert(out@[out_off + (j - chunk * 127)] == unpad_byte(quad, j - chunk * 127));
            }
        }
        chunk += 1;
    }
    assert(out@.subrange(0, (source@.len() / 128 * 127) as int) =~= unpadded(source@));
    Ok(size / 128 * 127 + size % 128 * 127 / 128)
}

/// Whether every 32-byte slot of `data` is a field element: the top two
/// bits of its last byte are zero.
pub open spec fn slots_are_field_elements(data: Seq<u8>) -> bool {
    forall|j: int| 0 <= j < data.len() && j % 32 == 31 ==> #[trigger] data[j] & 0xc0 == 0
}

/// The bit identities by which shifting back undoes shifting forth, for a
/// byte `b` between its neighbours `a` and `c`.
proof fn lemma_unshift_bits(a: u8, b: u8, c: u8)
    by (bit_vector)
    ensures
        ((b & 0x3f) | (((c << 2) | (b >> 6)) << 6)) == b,
        ((((b << 2) | (a >> 6)) >> 2) | (((c << 2) | (b >> 6)) << 6)) == b,
        ((((b << 2) | (a >> 6)) >> 2) | ((((c << 2) | (b >> 6)) & 0x3f) << 6)) == b,
        (((((b << 2) | (a >> 6)) & 0x3f) >> 2) ^ (((c << 4) | (b >> 4)) << 4)) == b,
        ((((b << 4) | (a >> 4)) >> 4) | (((c << 4) | (b >> 4)) << 4)) == b,
        ((((b << 4) | (a >> 4)) >> 4) | ((((c << 4) | (b >> 4)) & 0x3f) << 4)) == b,
        (((((b << 4) | (a >> 4)) & 0x3f) >> 4) ^ (((c << 6) | (b >> 2)) << 2)) == b,
        ((((b << 6) | (a >> 2)) >> 6) | (((c << 6) | (b >> 2)) << 2)) == b,
        ((((b << 6) | (a >> 2)) >> 6) | ((b >> 2) << 2)) == b,
{
}

/// The bit identities by which shifting forth undoes shifting back, for a
/// byte `b` between its neighbours `a` and `c`, where the bytes that end a
/// slot have their top two bits clear.
proof fn lemma_reshift_bits(a: u8, b: u8, c: u8)
    by (bit_vector)
    ensures
        b & 0xc0 == 0 ==> ((b | (c << 6)) & 0x3f) == b,
        a & 0xc0 == 0 ==> ((((b >> 2) | (c << 6)) << 2) | ((a | (b << 6)) >> 6)) == b,
        ((((b >> 2) | (c << 6)) << 2) | (((a >> 2) | (b << 6)) >> 6)) == b,
        b & 0xc0 == 0 ==> (((((b >> 2) ^ (c << 4)) << 2) | (((a >> 2) | (b << 6)) >> 6)) & 0x3f)
            == b,
        a & 0xc0 == 0 ==> ((((b >> 4) | (c << 4)) << 4) | (((a >> 2) ^ (b << 4)) >> 4)) == b,
        ((((b >> 4) | (c << 4)) << 4) | (((a >> 4) | (b << 4)) >> 4)) == b,
        b & 0xc0 == 0 ==> (((((b >> 4) ^ (c << 2)) << 4) | (((a >> 4) | (b << 4)) >> 4)) & 0x3f)
            == b,
        a & 0xc0 == 0 ==> ((((b >> 6) | (c << 2)) << 6) | (((a >> 4) ^ (b << 2)) >> 2)) == b,
        ((((b >> 6) | (c << 2)) << 6) | (((a >> 6) | (b << 2)) >> 2)) == b,
        b & 0xc0 == 0 ==> (((a >> 6) | (b << 2)) >> 2) == b,
{
}

/// Every slot of a padded quad is a field element.
pub proof fn lemma_pad_quad_slots(quad: Seq<u8>)
    requires
        quad.len() == 127,
    ensures
        pad_quad_of(quad).len() == 128,
        slots_are_field_elements(pad_quad_of(quad)),
{
    let p = pad_quad_of(quad);
    assert forall|j: int| 0 <= j < p.len() && j % 32 == 31 implies #[trigger] p[j] & 0xc0 == 0 by {
        let byte = p[j];
        if j < 127 {
            let raw: u8 = if j < 32 {
                quad[j]
            } else if j < 64 {
                (quad[j] << 2) | (quad[j - 1] >> 6)
            } else {
                (quad[j] << 4) | (quad[j - 1] >> 4)
            };
            assert(byte == raw & 0x3f);
            assert((raw & 0x3f) & 0xc0 == 0) by (bit_vector);
        } else {
            let last = quad[126];
            assert(byte == last >> 2);
            assert((last >> 2) & 0xc0 == 0) by (bit_vector);
        }
    }
}

/// Unpadding a padded quad gives the quad back.
pub proof fn lemma_unpad_pad_quad(quad: Seq<u8>)
    requires
        quad.len() == 127,
    ensures
        unpad_quad_of(pad_quad_of(quad)) == quad,
{
    let p = pad_quad_of(quad);
    let u = unpad_quad_of(p);
    assert forall|i: int| 0 <= i < 127 implies u[i] == quad[i] by {
        let a: u8 = if i > 0 {
            quad[i - 1]
        } else {
            0
        };
        let b: u8 = quad[i];
        let c: u8 = if i < 126 {
            quad[i + 1]
        } else {
            0
        };
        lemma_unshift_bits(a, b, c);
        assert(p[i] == pad_byte(quad, i));
        assert(p[i + 1] == pad_byte(quad, i + 1));
    }
    assert(u =~= quad);
}

/// Padding an unpadded quad gives the quad back, provided its slots were
/// field elements.
pub proof fn lemma_pad_unpad_quad(quad: Seq<u8>)
    requires
        quad.len() == 128,
        slots_are_field_elements(quad),
    ensures
        pad_quad_of(unpad_quad_of(quad)) == quad,
{
    let u = unpad_quad_of(quad);
    let p = pad_quad_of(u);
    assert(quad[31] & 0xc0 == 0 && quad[63] & 0xc0 == 0 && quad[95] & 0xc0 == 0 && quad[127] & 0xc0
        == 0);
    assert forall|j: int| 0 <= j < 128 implies p[j] == quad[j] by {
        let a: u8 = if j > 0 {
            quad[j - 1]
        } else {
            0
        };
        let b: u8 = quad[j];
        let c: u8 = if j < 127 {
            quad[j + 1]
        } else {
            0
        };
        lemma_reshift_bits(a, b, c);
        if j < 127 {
            assert(u[j] == unpad_byte(quad, j));
        }
        if j > 0 {
            assert(u[j - 1] == unpad_byte(quad, j - 1));
        }
    }
    assert(p =~= quad);
}

/// Quad `k` of a padded buffer is the padding of quad `k` of its source.
proof fn lemma_padded_quad(source: Seq<u8>, k: int)
    requires
        0 <= k < source.len() / 127,
    ensures
        quad_at(source, k, 127).len() == 127,
        quad_at(padded(source), k, 128) == pad_quad_of(quad_at(source, k, 127)),
{
    let p = padded(source);
    let q = quad_at(p, k, 128);
    assert(k * 128 + 128 <= p.len()) by (nonlinear_arith)
        requires
            0 <= k < source.len() / 127,
            p.len() == source.len() / 127 * 128,
    ;
    assert(k * 127 + 127 <= source.len()) by (nonlinear_arith)
        requires
            0 <= k < source.len() / 127,
    ;
    assert forall|j: int| 0 <= j < 128 implies q[j] == pad_byte(quad_at(source, k, 127), j) by {
        assert(q[j] == p[k * 128 + j]);
        assert((k * 128 + j) / 128 == k && (k * 128 + j) % 128 == j);
    }
    assert(q =~= pad_quad_of(quad_at(source, k, 127)));
}

/// Quad `k` of an unpadded buffer is what quad `k` of its source unpads to.
proof fn lemma_unpadded_quad(source: Seq<u8>, k: int)
    requires
        0 <= k < source.len() / 128,
    ensures
        quad_at(source, k, 128).len() == 128,
        quad_at(unpadded(source), k, 127) == unpad_quad_of(quad_at(source, k, 128)),
{
    let u = unpadded(source);
    let q = quad_at(u, k, 127);
    assert(k * 127 + 127 <= u.len()) by (nonlinear_arith)
        requires
            0 <= k < source.len() / 128,
            u.len() == source.len() / 128 * 127,
    ;
    assert(k * 128 + 128 <= source.len()) by (nonlinear_arith)
        requires
            0 <= k < source.len() / 128,
    ;
    assert forall|i: int| 0 <= i < 127 implies q[i] == unpad_byte(quad_at(source, k, 128), i) by {
        assert(q[i] == u[k * 127 + i]);
        assert((k * 127 + i) / 127 == k && (k * 127 + i) % 127 == i);
    }
    assert(q =~= unpad_quad_of(quad_at(source, k, 128)));
}

/// Every slot of a padded buffer is a field element.
pub proof fn lemma_padded_slots(source: Seq<u8>)
    ensures
        padded(source).len() == source.len() / 127 * 128,
        slots_are_field_elements(padded(source)),
{
    let p = padded(source);
    assert forall|j: int| 0 <= j < p.len() && j % 32 == 31 implies #[trigger] p[j] & 0xc0 == 0 by {
        let k = j / 128;
        lemma_padded_quad(source, k);
        let quad = quad_at(source, k, 127);
        lemma_pad_quad_slots(quad);
        assert(p[j] == pad_quad_of(quad)[j % 128]);
        assert((j % 128) % 32 == 31);
    }
}

/// Unpadding undoes padding: for every buffer of whole quads,
/// `unpadded(padded(x)) == x`.
pub proof fn lemma_unpad_pad(source: Seq<u8>)
    requires
        source.len() % 127 == 0,
    ensures
        unpadded(padded(source)) == source,
{
    let p = padded(source);
    let u = unpadded(p);
    let n = source.len() / 127;
    assert(p.len() / 128 == n);
    assert(u.len() == source.len());
    assert forall|i: int| 0 <= i < source.len() implies u[i] == source[i] by {
        let k = i / 127;
        lemma_padded_quad(source, k);
        lemma_unpad_pad_quad(quad_at(source, k, 127));
        assert(u[i] == unpad_quad_of(quad_at(p, k, 128))[i % 127]);
        assert(quad_at(source, k, 127)[i % 127] == source[i]);
    }
    assert(u =~= source);
}

/// Padding undoes unpadding: for every buffer of whole padded quads whose
/// slots are field elements, `padded(unpadded(y)) == y`. With
/// `lemma_unpad_pad` and `lemma_padded_slots` this makes padding a bijection
/// between quad-aligned payloads and such buffers.
pub proof fn lemma_pad_unpad(data: Seq<u8>)
    requires
        data.len() % 128 == 0,
        slots_are_field_elements(data),
    ensures
        padded(unpadded(data)) == data,
{
    let u = unpadded(data);
    let p = padded(u);
    let n = data.len() / 128;
    assert(u.len() / 127 == n);
    assert(p.len() == data.len());
    assert forall|j: int| 0 <= j < data.len() implies p[j] == data[j] by {
        let k = j / 128;
        lemma_unpadded_quad(data, k);
        let quad = quad_at(data, k, 128);
        assert forall|t: int| 0 <= t < quad.len() && t % 32 == 31 implies #[trigger] quad[t] & 0xc0
            == 0 by {
            assert(quad[t] == data[k * 128 + t]);
            assert((k * 128 + t) % 32 == 31);
        }
        lemma_pad_unpad_quad(quad);
        assert(p[j] == pad_quad_of(quad_at(u, k, 127))[j % 128]);
        assert(quad[j % 128] == data[j]);
    }
    assert(p =~= data);
}

} // verus!
