//! Motorola (most-significant-bit first) bit-field extraction from CAN data.

use vstd::prelude::*;
use vstd::arithmetic::power2::{pow2, lemma2_to64, lemma2_to64_rest, lemma_pow2_adds, lemma_pow2_pos};
use vstd::bits::{lemma_u64_shr_is_div, lemma_u64_shl_is_mul, lemma_u64_pow2_no_overflow};

verus! {

/// The unsigned value of `bytes` read big-endian: the first byte is the most significant.
pub open spec fn be_uint(bytes: Seq<u8>) -> nat
    decreases bytes.len(),
{
    if bytes.len() == 0 {
        0
    } else {
        be_uint(bytes.drop_last()) * 256 + bytes.last() as nat
    }
}

/// Number of bits from the top of the first byte down to the end of the field:
/// the `7 - start_bit % 8` bits above the start bit, then the field itself.
pub open spec fn msb_span_bits(start_bit: int, num_bits: int) -> int {
    num_bits + 7 - start_bit % 8
}

/// Number of whole bytes that the field touches.
pub open spec fn msb_span_bytes(start_bit: int, num_bits: int) -> int {
    (msb_span_bits(start_bit, num_bits) + 7) / 8
}

/// The field can be read: it is 1 to 64 bits wide, it touches at most eight bytes,
/// and those bytes lie inside the buffer.
pub open spec fn msb_field_fits(buf_len: int, byte_index: int, start_bit: int, num_bits: int) -> bool {
    &&& 1 <= num_bits <= 64
    &&& msb_span_bits(start_bit, num_bits) <= 64
    &&& byte_index + msb_span_bytes(start_bit, num_bits) <= buf_len
}

/// The value of the `num_bits`-bit field that starts at bit `start_bit % 8` (bit 7 is the
/// most significant) of byte `byte_index` and runs towards less significant bits and then
/// into the following bytes.
pub open spec fn motorola_msb_value(buf: Seq<u8>, byte_index: int, start_bit: int, num_bits: int) -> nat {
    let nbytes = msb_span_bytes(start_bit, num_bits);
    let low_pad = 8 * nbytes - msb_span_bits(start_bit, num_bits);
    (be_uint(buf.subrange(byte_index, byte_index + nbytes)) / pow2(low_pad as nat)) % pow2(
        num_bits as nat,
    )
}

proof fn lemma_be_uint_step(buf: Seq<u8>, from: int, to: int)
    requires
        0 <= from <= to < buf.len(),
    ensures
        be_uint(buf.subrange(from, to + 1)) == be_uint(buf.subrange(from, to)) * 256 + buf[to],
{
    assert(buf.subrange(from, to + 1).drop_last() =~= buf.subrange(from, to));
}

/// Reads a Motorola bit field; the sign flag is accepted and not used, so the raw
/// unsigned field value comes back.
pub fn motorola_msb_get(
    buf: &[u8],
    byte_index: usize,
    start_bit: usize,
    num_bits: usize,
    _is_signed: bool,
) -> (r: u64)
    requires
        msb_field_fits(buf@.len() as int, byte_index as int, start_bit as int, num_bits as int),
    ensures
        r == motorola_msb_value(buf@, byte_index as int, start_bit as int, num_bits as int),
        r < pow2(num_bits as nat),
{
    motorola_msb_get_signed(buf, byte_index, start_bit, num_bits)
}

/// Reads the raw `num_bits`-bit Motorola field described by `byte_index` and `start_bit`.
pub fn motorola_msb_get_signed(buf: &[u8], byte_index: usize, start_bit: usize, num_bits: usize) -> (r: u64)
    requires
        msb_field_fits(buf@.len() as int, byte_index as int, start_bit as int, num_bits as int),
    ensures
        r == motorola_msb_value(buf@, byte_index as int, start_bit as int, num_bits as int),
        r < pow2(num_bits as nat),
{
    let start_offset = start_bit % 8;
    let len = num_bits + 7 - start_offset;
    let bytes = (len + 7) / 8;
    let mut result: u64 = 0;
    let mut i: usize = 0;
    proof {
        lemma2_to64();
        assert(buf@.subrange(byte_index as int, byte_index as int) =~= Seq::<u8>::empty());
    }
    while i < bytes
        invariant
            i <= bytes <= 8,
            byte_index + bytes <= buf.len(),
            result == be_uint(buf@.subrange(byte_index as int, byte_index + i)),
            result < pow2(8 * i as nat),
        decreases bytes - i,
    {
        proof {
            lemma_be_uint_step(buf@, byte_index as int, byte_index + i);
            lemma_pow2_adds(8 * i as nat, 8);
            lemma2_to64();
            let p = pow2(8 * i as nat);
            lemma2_to64_rest();
            assert(pow2(8 * i as nat) <= pow2(56)) by {
                if i < 7 {
                    vstd::arithmetic::power2::lemma_pow2_strictly_increases(8 * i as nat, 56);
                }
            }
            assert(result * 256 + 255 < 0x1_0000_0000_0000_0000) by (nonlinear_arith)
                requires
                    result < p,
                    p <= 0x100_0000_0000_0000,
            ;
        }
        result = result * 256 + buf[byte_index + i] as u64;
        i = i + 1;
        assert(8 * i as nat == 8 * (i - 1) as nat + 8);
    }
    let pad = bytes * 8 - len;
    proof {
        lemma_u64_shr_is_div(result, pad as u64);
    }
    let shifted = result >> (pad as u64);
    assert(result == be_uint(buf@.subrange(byte_index as int, byte_index + bytes)));
    assert(shifted == result as nat / pow2(pad as nat));
    if num_bits == 64 {
        proof {
            lemma2_to64();
            lemma_pow2_pos(pad as nat);
            assert(shifted <= result) by {
                vstd::arithmetic::div_mod::lemma_div_is_ordered_by_denominator(result as int, 1, pow2(pad as nat) as int);
            }
            vstd::arithmetic::div_mod::lemma_small_mod(shifted as nat, pow2(64));
        }
        shifted
    } else {
        proof {
            lemma_u64_pow2_no_overflow(num_bits as nat);
            lemma_u64_shl_is_mul(1, num_bits as u64);
        }
        let m = 1u64 << (num_bits as u64);
        shifted % m
    }
}


/// A big-endian value of `n` bytes is below `2^(8n)`.
pub proof fn lemma_be_uint_bound(bytes: Seq<u8>)
    ensures
        be_uint(bytes) < pow2(8 * bytes.len()),
    decreases bytes.len(),
{
    if bytes.len() > 0 {
        let d = bytes.drop_last();
        lemma_be_uint_bound(d);
        lemma_pow2_adds(8 * d.len(), 8);
        lemma2_to64();
        let p = pow2(8 * d.len());
        assert(be_uint(d) * 256 + 255 < p * 256) by (nonlinear_arith)
            requires
                be_uint(d) < p,
        ;
        assert(8 * bytes.len() == 8 * d.len() + 8);
        assert(pow2(8 * d.len()) * pow2(8) == pow2(8 * d.len() + 8));
        assert(pow2(8) == 256);
        assert(be_uint(bytes) == be_uint(d) * 256 + bytes.last() as nat);
        assert(be_uint(bytes) < p * 256);
        assert(p * 256 == pow2(8 * bytes.len()));
    } else {
        lemma2_to64();
    }
}

/// A field that starts at the top bit of its first byte and is a whole number of bytes long
/// reads those bytes big-endian.
pub proof fn lemma_msb_whole_bytes(buf: Seq<u8>, byte_index: int, start_bit: int, nbytes: int)
    requires
        start_bit % 8 == 7,
        1 <= nbytes <= 8,
        0 <= byte_index,
        byte_index + nbytes <= buf.len(),
    ensures
        msb_field_fits(buf.len() as int, byte_index, start_bit, 8 * nbytes),
        motorola_msb_value(buf, byte_index, start_bit, 8 * nbytes) == be_uint(
            buf.subrange(byte_index, byte_index + nbytes),
        ),
{
    let sub = buf.subrange(byte_index, byte_index + nbytes);
    assert(msb_span_bits(start_bit, 8 * nbytes) == 8 * nbytes);
    assert(msb_span_bytes(start_bit, 8 * nbytes) == nbytes);
    lemma_be_uint_bound(sub);
    lemma2_to64();
    lemma_pow2_pos((8 * nbytes) as nat);
    assert(8 * msb_span_bytes(start_bit, 8 * nbytes) - msb_span_bits(start_bit, 8 * nbytes) == 0);
    assert(be_uint(sub) / pow2(0) == be_uint(sub));
    vstd::arithmetic::div_mod::lemma_small_mod(be_uint(sub), pow2((8 * nbytes) as nat));
}

/// A Motorola field splits the bytes it touches, read big-endian, into three parts: the
/// `7 - start_bit % 8` bits of the first byte above the field's first bit, then the
/// `num_bits` bits of the field (its first bit the most significant), then the unused bits
/// after its last bit down to the end of the last touched byte.
pub proof fn lemma_msb_field_split(buf: Seq<u8>, byte_index: int, start_bit: int, num_bits: int)
    requires
        0 <= byte_index,
        0 <= start_bit,
        msb_field_fits(buf.len() as int, byte_index, start_bit, num_bits),
    ensures
        ({
            let above = 7 - start_bit % 8;
            let nbytes = (num_bits + above + 7) / 8;
            let below = 8 * nbytes - num_bits - above;
            let v = motorola_msb_value(buf, byte_index, start_bit, num_bits);
            &&& 0 <= below < 8
            &&& v < pow2(num_bits as nat)
            &&& exists|hi: nat, lo: nat|
                #![trigger hi * pow2(num_bits as nat), lo % pow2(below as nat)]
                hi < pow2(above as nat) && lo < pow2(below as nat) && be_uint(
                    buf.subrange(byte_index, byte_index + nbytes),
                ) == (hi * pow2(num_bits as nat) + v) * pow2(below as nat) + lo
        }),
{
    let above = 7 - start_bit % 8;
    let nbytes = (num_bits + above + 7) / 8;
    let below = 8 * nbytes - num_bits - above;
    let sub = buf.subrange(byte_index, byte_index + nbytes);
    let b = be_uint(sub) as int;
    let pb = pow2(below as nat) as int;
    let pn = pow2(num_bits as nat) as int;
    let pa = pow2(above as nat) as int;
    assert(msb_span_bytes(start_bit, num_bits) == nbytes);
    assert(8 * msb_span_bytes(start_bit, num_bits) - msb_span_bits(start_bit, num_bits) == below);
    lemma_pow2_pos(below as nat);
    lemma_pow2_pos(num_bits as nat);
    lemma_pow2_pos(above as nat);
    let q = b / pb;
    let lo = b % pb;
    let v = q % pn;
    let hi = q / pn;
    assert(v == motorola_msb_value(buf, byte_index, start_bit, num_bits));
    vstd::arithmetic::div_mod::lemma_fundamental_div_mod(b, pb);
    vstd::arithmetic::div_mod::lemma_fundamental_div_mod(q, pn);
    vstd::arithmetic::div_mod::lemma_mod_pos_bound(b, pb);
    vstd::arithmetic::div_mod::lemma_div_pos_is_pos(b, pb);
    vstd::arithmetic::div_mod::lemma_mod_pos_bound(q, pn);
    vstd::arithmetic::div_mod::lemma_div_pos_is_pos(q, pn);
    // The touched bytes hold `above + num_bits + below` bits.
    lemma_be_uint_bound(sub);
    assert(8 * sub.len() == above + num_bits + below);
    lemma_pow2_adds(num_bits as nat, below as nat);
    lemma_pow2_adds(above as nat, (num_bits + below) as nat);
    assert(pow2((above + num_bits + below) as nat) == pa * (pn * pb));
    assert(b < pb * (pa * pn)) by (nonlinear_arith)
        requires
            b < pa * (pn * pb),
    ;
    vstd::arithmetic::div_mod::lemma_multiply_divide_lt(b, pb, pa * pn);
    assert(q < pn * pa) by (nonlinear_arith)
        requires
            q < pa * pn,
    ;
    vstd::arithmetic::div_mod::lemma_multiply_divide_lt(q, pn, pa);
    assert(b == (hi * pn + v) * pb + lo) by (nonlinear_arith)
        requires
            b == pb * q + lo,
            q == pn * hi + v,
    ;
    let hn = hi as nat;
    let ln = lo as nat;
    assert(hn * pow2(num_bits as nat) == hi * pn);
    assert(ln % pow2(below as nat) == lo % pb);
    assert(hn < pow2(above as nat) && ln < pow2(below as nat) && be_uint(sub) == (hn * pow2(
        num_bits as nat,
    ) + v) * pow2(below as nat) + ln);
}

} // verus!
