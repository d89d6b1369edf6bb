//! Variable-length quantity (VLQ) decoding and encoding.
//!
//! Each byte of a VLQ contributes its low seven bits to the value, least
//! significant group first; the high bit of a byte says whether another byte
//! follows. Signed values carry their sign in bit zero of the raw value
//! (zig-zag encoding), the magnitude in the remaining bits.

use vstd::prelude::*;

verus! {

/// Number of bytes the VLQ starting at `p` occupies: everything up to and
/// including the first byte whose continuation bit is clear, or the rest of
/// the buffer if every byte has it set. Zero outside the buffer.
pub open spec fn uvlq_len(data: Seq<u8>, p: int) -> int
    decreases data.len() - p,
{
    if !(0 <= p < data.len()) {
        0
    } else if data[p] & 0x80 == 0 {
        1
    } else {
        1 + uvlq_len(data, p + 1)
    }
}

/// Unfolding of the decoder loop: `acc` holds the bits gathered so far and
/// the next seven-bit group lands at bit position `shift`. The accumulator is
/// 32 bits wide, so groups that would start at bit 32 or above are discarded.
pub open spec fn uvlq_rec(data: Seq<u8>, p: int, shift: u32, acc: u32) -> u32
    decreases data.len() - p,
{
    if !(0 <= p < data.len()) {
        acc
    } else {
        let b = data[p];
        let acc2 = if shift < 32 {
            acc | (((b & 0x7f) as u32) << shift)
        } else {
            acc
        };
        if b & 0x80 == 0 {
            acc2
        } else {
            uvlq_rec(data, p + 1, if shift < 32 { (shift + 7) as u32 } else { shift }, acc2)
        }
    }
}

/// Value of the unsigned VLQ starting at `p`; zero at or past the end of the
/// buffer.
pub open spec fn unsigned_vlq_at(data: Seq<u8>, p: int) -> u32 {
    uvlq_rec(data, p, 0, 0)
}

/// Zig-zag interpretation of a raw VLQ value: bit zero is the sign, the
/// remaining bits the magnitude.
pub open spec fn zigzag_decode(v: u32) -> i32 {
    if v & 1 == 1 {
        (0 - (v >> 1)) as i32
    } else {
        (v >> 1) as i32
    }
}

/// Value of the signed (zig-zag) VLQ starting at `p`.
pub open spec fn signed_vlq_at(data: Seq<u8>, p: int) -> i32 {
    zigzag_decode(unsigned_vlq_at(data, p))
}

/// The byte sequence that encodes `v` as an unsigned VLQ, low seven-bit
/// group first.
pub open spec fn uvlq_encode(v: u32) -> Seq<u8>
    decreases v,
{
    if v < 0x80 {
        seq![v as u8]
    } else {
        proof {
            assert(v >= 0x80 ==> (v >> 7) < v) by (bit_vector);
        }
        seq![((v & 0x7f) | 0x80) as u8] + uvlq_encode(v >> 7)
    }
}

/// Zig-zag image of a signed value: magnitude shifted up one bit, sign in
/// bit zero.
pub open spec fn zigzag_encode(v: i32) -> u32 {
    if v < 0 {
        (((0 - v) as u32) << 1) | 1
    } else {
        (v as u32) << 1
    }
}

/// The VLQ at any in-range position ends within the buffer, and consumes at
/// least one byte when it starts inside the buffer.
pub proof fn lemma_uvlq_len_bounds(data: Seq<u8>, p: int)
    requires
        0 <= p <= data.len(),
    ensures
        p + uvlq_len(data, p) <= data.len(),
        p < data.len() ==> uvlq_len(data, p) >= 1,
    decreases data.len() - p,
{
    if p < data.len() && data[p] & 0x80 != 0 {
        lemma_uvlq_len_bounds(data, p + 1);
    }
}

/// Reads one unsigned VLQ starting at `*cursor`, advancing the cursor past
/// the bytes consumed. At or past the end of the buffer it reads nothing and
/// returns zero.
pub fn read_unsigned_vlq(data: &[u8], cursor: &mut usize) -> (r: u32)
    ensures
        r == unsigned_vlq_at(data@, *old(cursor) as int),
        *final(cursor) == *old(cursor) + uvlq_len(data@, *old(cursor) as int),
        *old(cursor) <= data@.len() ==> *final(cursor) <= data@.len(),
{
    let ghost p0 = *cursor as int;
    proof {
        if 0 <= p0 <= data@.len() {
            lemma_uvlq_len_bounds(data@, p0);
        }
    }
    let mut value: u32 = 0;
    let mut shift: u32 = 0;
    loop
        invariant_except_break
            p0 <= *cursor as int,
            unsigned_vlq_at(data@, p0) == uvlq_rec(data@, *cursor as int, shift, value),
            p0 + uvlq_len(data@, p0) == *cursor as int + uvlq_len(data@, *cursor as int),
            p0 <= data@.len() ==> *cursor as int <= data@.len(),
        ensures
            value == unsigned_vlq_at(data@, p0),
            *cursor as int == p0 + uvlq_len(data@, p0),
            p0 <= data@.len() ==> *cursor as int <= data@.len(),
        decreases data@.len() - *cursor as int,
    {
        if *cursor >= data.len() {
            break;
        }
        let ghost c = *cursor as int;
        let ghost sh = shift;
        let ghost va = value;
        let b = data[*cursor];
        *cursor = *cursor + 1;
        if shift < 32 {
            value = value | (((b & 0x7f) as u32) << shift);
            shift = shift + 7;
        }
        proof {
            lemma_uvlq_len_bounds(data@, c + 1);
            assert(uvlq_rec(data@, c, sh, va) == if (data@[c] & 0x80 == 0) {
                value
            } else {
                uvlq_rec(data@, c + 1, shift, value)
            });
        }
        if b & 0x80 == 0 {
            break;
        }
    }
    value
}

/// Reads one signed (zig-zag) VLQ starting at `*cursor`, advancing the
/// cursor past the bytes consumed.
pub fn read_signed_vlq(data: &[u8], cursor: &mut usize) -> (r: i32)
    ensures
        r == signed_vlq_at(data@, *old(cursor) as int),
        *final(cursor) == *old(cursor) + uvlq_len(data@, *old(cursor) as int),
        *old(cursor) <= data@.len() ==> *final(cursor) <= data@.len(),
{
    let value = read_unsigned_vlq(data, cursor);
    let sign = value & 1;
    proof {
        assert(value >> 1 < 0x80000000u32) by (bit_vector);
        assert(value & 1 == 0 || value & 1 == 1) by (bit_vector);
    }
    let magnitude = (value >> 1) as i32;
    if sign == 1 {
        -magnitude
    } else {
        magnitude
    }
}

/// Encodes `v` as an unsigned VLQ, low seven-bit group first.
pub fn encode_unsigned_vlq(v: u32) -> (r: Vec<u8>)
    ensures
        r@ == uvlq_encode(v),
{
    let mut out: Vec<u8> = Vec::new();
    let mut x = v;
    loop
        invariant_except_break
            uvlq_encode(v) == out@ + uvlq_encode(x),
        ensures
            out@ == uvlq_encode(v),
        decreases x,
    {
        if x < 0x80 {
            out.push(x as u8);
            proof {
                assert(uvlq_encode(v) =~= out@);
            }
            break;
        }
        let ghost out0 = out@;
        let ghost x0 = x;
        out.push(((x & 0x7f) | 0x80) as u8);
        proof {
            assert((x >> 7) < x) by (bit_vector)
                requires
                    x >= 0x80u32,
            ;
            assert(uvlq_encode(v) =~= out@ + uvlq_encode(x0 >> 7));
        }
        x = x >> 7;
    }
    out
}

/// Encodes `v` as a signed (zig-zag) VLQ. The one signed value whose zig-zag
/// magnitude does not fit in 32 bits, `i32::MIN`, is excluded.
pub fn encode_signed_vlq(v: i32) -> (r: Vec<u8>)
    requires
        v != i32::MIN,
    ensures
        r@ == uvlq_encode(zigzag_encode(v)),
{
    let raw: u32 = if v < 0 {
        (((-v) as u32) << 1) | 1
    } else {
        (v as u32) << 1
    };
    encode_unsigned_vlq(raw)
}

/// Decoding an encoded unsigned value from any position reproduces it, as
/// long as the accumulator bits below `shift` are already settled and `v`
/// fits in the bits that remain.
proof fn lemma_uvlq_enc_dec(data: Seq<u8>, p: int, v: u32, shift: u32, acc: u32)
    requires
        0 <= p,
        p + uvlq_encode(v).len() <= data.len(),
        data.subrange(p, p + uvlq_encode(v).len() as int) == uvlq_encode(v),
        shift <= 28,
        shift % 7 == 0,
        v <= u32::MAX >> shift,
        acc < 1u32 << shift,
    ensures
        uvlq_rec(data, p, shift, acc) == acc | (v << shift),
        uvlq_len(data, p) == uvlq_encode(v).len(),
    decreases v,
{
    let enc = uvlq_encode(v);
    assert(data[p] == enc[0]);
    if v < 0x80 {
        assert(enc =~= seq![v as u8]);
        assert((v as u8) & 0x80 == 0 && ((((v as u8) & 0x7f) as u32) << shift) == v << shift)
            by (bit_vector)
            requires
                v < 0x80u32,
        ;
    } else {
        let b = ((v & 0x7f) | 0x80) as u8;
        assert(enc =~= seq![b] + uvlq_encode(v >> 7));
        assert(b & 0x80 != 0) by (bit_vector)
            requires
                b == ((v & 0x7f) | 0x80u32) as u8,
        ;
        let acc2 = acc | (((b & 0x7f) as u32) << shift);
        assert(shift <= 21) by (bit_vector)
            requires
                v >= 0x80u32,
                v <= u32::MAX >> shift,
                shift <= 28u32,
                shift % 7 == 0u32,
        ;
        let s7 = (shift + 7) as u32;
        assert((v >> 7) <= u32::MAX >> s7 && (v >> 7) < v) by (bit_vector)
            requires
                v >= 0x80u32,
                v <= u32::MAX >> shift,
                shift <= 21u32,
                s7 == shift + 7,
        ;
        assert(acc2 < 1u32 << s7) by (bit_vector)
            requires
                shift <= 21u32,
                acc < 1u32 << shift,
                b == ((v & 0x7f) | 0x80u32) as u8,
                acc2 == acc | (((b & 0x7f) as u32) << shift),
                s7 == shift + 7,
        ;
        assert(data.subrange(p + 1, p + 1 + uvlq_encode(v >> 7).len() as int) =~= uvlq_encode(
        v >> 7)) by {
            assert(forall|i: int|
                0 <= i < uvlq_encode(v >> 7).len() ==> data.subrange(
                    p,
                    p + uvlq_encode(v).len() as int,
                )[i + 1] == uvlq_encode(v >> 7)[i]);
        }
        lemma_uvlq_enc_dec(data, p + 1, v >> 7, s7, acc2);
        assert(acc2 | ((v >> 7) << s7) == acc | (v << shift)) by (bit_vector)
            requires
                v <= u32::MAX >> shift,
                shift <= 21u32,
                acc < 1u32 << shift,
                b == ((v & 0x7f) | 0x80u32) as u8,
                acc2 == acc | (((b & 0x7f) as u32) << shift),
                s7 == shift + 7,
        ;
    }
}

/// Round trip for the unsigned scheme: decoding an encoded value from the
/// start of its own bytes consumes them all and yields the value back.
pub proof fn lemma_unsigned_vlq_round_trip(v: u32)
    ensures
        unsigned_vlq_at(uvlq_encode(v), 0) == v,
        uvlq_len(uvlq_encode(v), 0) == uvlq_encode(v).len(),
{
    let data = uvlq_encode(v);
    assert(data.subrange(0, data.len() as int) =~= data);
    assert(v <= u32::MAX >> 0u32 && 0u32 < 1u32 << 0u32) by (bit_vector);
    lemma_uvlq_enc_dec(data, 0, v, 0, 0);
    assert(0u32 | (v << 0u32) == v) by (bit_vector);
}

/// Round trip for the zig-zag step alone.
pub proof fn lemma_zigzag_round_trip(v: i32)
    requires
        v != i32::MIN,
    ensures
        zigzag_decode(zigzag_encode(v)) == v,
{
    if v < 0 {
        let m = (0 - v) as u32;
        let u = (m << 1) | 1;
        assert(u & 1 == 1 && (u >> 1) == m) by (bit_vector)
            requires
                u == (m << 1) | 1,
                m <= 0x7fffffffu32,
        ;
    } else {
        let u = (v as u32) << 1;
        assert(u & 1 == 0 && (u >> 1) == v as u32) by (bit_vector)
            requires
                u == (v as u32) << 1,
                0 <= v,
        ;
    }
}

/// Round trip for signed values: every `i32` except `i32::MIN` survives
/// zig-zag encoding, VLQ encoding, and decoding unchanged.
pub proof fn lemma_signed_vlq_round_trip(v: i32)
    requires
        v != i32::MIN,
    ensures
        signed_vlq_at(uvlq_encode(zigzag_encode(v)), 0) == v,
        uvlq_len(uvlq_encode(zigzag_encode(v)), 0) == uvlq_encode(zigzag_encode(v)).len(),
{
    lemma_unsigned_vlq_round_trip(zigzag_encode(v));
    lemma_zigzag_round_trip(v);
}

} // verus!
