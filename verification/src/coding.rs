//! Fixed-width and varint integer coding.
//!
//! Fixed-width values are stored little-endian.  Varints store a value in
//! base-128 groups, low group first, with the high bit of a byte marking
//! a continuation.

use crate::slice::Slice;
use vstd::prelude::*;

verus! {

/// The four little-endian bytes of `v`.
pub open spec fn spec_fixed_32(v: u32) -> Seq<u8> {
    seq![
        (v % 256) as u8,
        ((v / 256) % 256) as u8,
        ((v / 65536) % 256) as u8,
        ((v / 16777216) % 256) as u8,
    ]
}

/// The eight little-endian bytes of `v`.
pub open spec fn spec_fixed_64(v: u64) -> Seq<u8> {
    seq![
        (v % 256) as u8,
        ((v / 256) % 256) as u8,
        ((v / 0x10000) % 256) as u8,
        ((v / 0x1000000) % 256) as u8,
        ((v / 0x100000000) % 256) as u8,
        ((v / 0x10000000000) % 256) as u8,
        ((v / 0x1000000000000) % 256) as u8,
        ((v / 0x100000000000000) % 256) as u8,
    ]
}

/// The varint encoding of `v`: base-128 groups, low group first, the
/// continuation bit set on every byte but the last.
pub open spec fn spec_varint(v: u64) -> Seq<u8>
    decreases v,
{
    if v < 128 {
        seq![v as u8]
    } else {
        seq![(v % 128 + 128) as u8] + spec_varint(v / 128)
    }
}

/// A well-formed varint body: every byte but the last carries the
/// continuation bit, the last does not.
pub open spec fn is_varint_encoding(s: Seq<u8>) -> bool {
    &&& s.len() >= 1
    &&& forall|i: int| 0 <= i < s.len() - 1 ==> s[i] >= 128
    &&& s[s.len() - 1] < 128
}

/// The number a varint body denotes, reading base-128 groups low first.
pub open spec fn spec_varint_value(s: Seq<u8>) -> nat
    decreases s.len(),
{
    if s.len() == 0 {
        0
    } else {
        (s[0] % 128) as nat + 128 * spec_varint_value(s.skip(1))
    }
}

/// Encode `value` in little-endian and put it in the first 4 bytes of
/// `dst`.
pub fn encode_fixed_32(dst: &mut [u8], value: u32)
    requires
        old(dst)@.len() >= 4,
    ensures
        final(dst)@ == spec_fixed_32(value) + old(dst)@.skip(4),
{
    dst[0] = (value % 256) as u8;
    dst[1] = ((value / 256) % 256) as u8;
    dst[2] = ((value / 65536) % 256) as u8;
    dst[3] = ((value / 16777216) % 256) as u8;
    assert(dst@ =~= spec_fixed_32(value) + old(dst)@.skip(4));
}

/// Encode `value` in little-endian and append it to `dst`.
pub fn put_fixed_32(dst: &mut Vec<u8>, value: u32)
    ensures
        final(dst)@ == old(dst)@ + spec_fixed_32(value),
{
    dst.push((value % 256) as u8);
    dst.push(((value / 256) % 256) as u8);
    dst.push(((value / 65536) % 256) as u8);
    dst.push(((value / 16777216) % 256) as u8);
    assert(dst@ =~= old(dst)@ + spec_fixed_32(value));
}

/// Decode the first 4 bytes of `src` as a little-endian value.
pub fn decode_fixed_32(src: &[u8]) -> (r: u32)
    requires
        src@.len() >= 4,
    ensures
        r == src@[0] + src@[1] * 256 + src@[2] * 65536 + src@[3] * 16777216,
        spec_fixed_32(r) == src@.subrange(0, 4),
{
    let b0 = src[0];
    let b1 = src[1];
    let b2 = src[2];
    let b3 = src[3];
    let r = b0 as u32 + b1 as u32 * 256 + b2 as u32 * 65536 + b3 as u32 * 16777216;
    proof {
        lemma_fixed_32_of_bytes(b0, b1, b2, b3);
        assert(spec_fixed_32(r) =~= src@.subrange(0, 4));
    }
    r
}

/// Encode `value` in little-endian and put it in the first 8 bytes of
/// `dst`.
pub fn encode_fixed_64(dst: &mut [u8], value: u64)
    requires
        old(dst)@.len() >= 8,
    ensures
        final(dst)@ == spec_fixed_64(value) + old(dst)@.skip(8),
{
    dst[0] = (value % 256) as u8;
    dst[1] = ((value / 256) % 256) as u8;
    dst[2] = ((value / 0x10000) % 256) as u8;
    dst[3] = ((value / 0x1000000) % 256) as u8;
    dst[4] = ((value / 0x100000000) % 256) as u8;
    dst[5] = ((value / 0x10000000000) % 256) as u8;
    dst[6] = ((value / 0x1000000000000) % 256) as u8;
    dst[7] = ((value / 0x100000000000000) % 256) as u8;
    assert(dst@ =~= spec_fixed_64(value) + old(dst)@.skip(8));
}

/// Encode `value` in little-endian and append it to `dst`.
pub fn put_fixed_64(dst: &mut Vec<u8>, value: u64)
    ensures
        final(dst)@ == old(dst)@ + spec_fixed_64(value),
{
    dst.push((value % 256) as u8);
    dst.push(((value / 256) % 256) as u8);
    dst.push(((value / 0x10000) % 256) as u8);
    dst.push(((value / 0x1000000) % 256) as u8);
    dst.push(((value / 0x100000000) % 256) as u8);
    dst.push(((value / 0x10000000000) % 256) as u8);
    dst.push(((value / 0x1000000000000) % 256) as u8);
    dst.push(((value / 0x100000000000000) % 256) as u8);
    assert(dst@ =~= old(dst)@ + spec_fixed_64(value));
}

/// Decode the first 8 bytes of `src` as a little-endian value.
pub fn decode_fixed_64(src: &[u8]) -> (r: u64)
    requires
        src@.len() >= 8,
    ensures
        spec_fixed_64(r) == src@.subrange(0, 8),
{
    let b0 = src[0];
    let b1 = src[1];
    let b2 = src[2];
    let b3 = src[3];
    let b4 = src[4];
    let b5 = src[5];
    let b6 = src[6];
    let b7 = src[7];
    let r = b0 as u64
        + b1 as u64 * 256
        + b2 as u64 * 0x10000
        + b3 as u64 * 0x1000000
        + b4 as u64 * 0x100000000
        + b5 as u64 * 0x10000000000
        + b6 as u64 * 0x1000000000000
        + b7 as u64 * 0x100000000000000;
    proof {
        lemma_fixed_64_of_bytes(b0, b1, b2, b3, b4, b5, b6, b7);
        assert(spec_fixed_64(r) =~= src@.subrange(0, 8));
    }
    r
}

/// Reassembling four little-endian bytes recovers each byte.
proof fn lemma_fixed_32_of_bytes(b0: u8, b1: u8, b2: u8, b3: u8)
    ensures
        spec_fixed_32(
            (b0 + b1 * 256 + b2 * 65536 + b3 * 16777216) as u32,
        ) == seq![b0, b1, b2, b3],
{
    let v = (b0 + b1 * 256 + b2 * 65536 + b3 * 16777216) as u32;
    assert(v == b0 + b1 * 256 + b2 * 65536 + b3 * 16777216 ==> v % 256 == b0 && (v / 256) % 256
        == b1 && (v / 65536) % 256 == b2 && (v / 16777216) % 256 == b3) by (bit_vector);
    assert(spec_fixed_32(v) =~= seq![b0, b1, b2, b3]);
}

/// Reassembling eight little-endian bytes recovers each byte.
proof fn lemma_fixed_64_of_bytes(
    b0: u8,
    b1: u8,
    b2: u8,
    b3: u8,
    b4: u8,
    b5: u8,
    b6: u8,
    b7: u8,
)
    ensures
        spec_fixed_64(
            (b0 + b1 * 256 + b2 * 0x10000 + b3 * 0x1000000 + b4 * 0x100000000 + b5 * 0x10000000000
                + b6 * 0x1000000000000 + b7 * 0x100000000000000) as u64,
        ) == seq![b0, b1, b2, b3, b4, b5, b6, b7],
{
    let v = (b0 + b1 * 256 + b2 * 0x10000 + b3 * 0x1000000 + b4 * 0x100000000 + b5 * 0x10000000000
        + b6 * 0x1000000000000 + b7 * 0x100000000000000) as u64;
    assert(v == b0 + b1 * 256 + b2 * 0x10000 + b3 * 0x1000000 + b4 * 0x100000000 + b5
        * 0x10000000000 + b6 * 0x1000000000000 + b7 * 0x100000000000000 ==> v % 256 == b0 && (v
        / 256) % 256 == b1 && (v / 0x10000) % 256 == b2 && (v / 0x1000000) % 256 == b3 && (v
        / 0x100000000) % 256 == b4 && (v / 0x10000000000) % 256 == b5 && (v / 0x1000000000000)
        % 256 == b6 && (v / 0x100000000000000) % 256 == b7) by (bit_vector);
    assert(spec_fixed_64(v) =~= seq![b0, b1, b2, b3, b4, b5, b6, b7]);
}

/// Round trip: decoding the little-endian bytes of `v` gives `v` back.
pub proof fn lemma_fixed_32_round_trip(v: u32)
    ensures
        spec_fixed_32(v)[0] + spec_fixed_32(v)[1] * 256 + spec_fixed_32(v)[2] * 65536
            + spec_fixed_32(v)[3] * 16777216 == v,
{
    assert((v % 256) + ((v / 256) % 256) * 256 + ((v / 65536) % 256) * 65536 + ((v / 16777216)
        % 256) * 16777216 == v) by (bit_vector);
}

/// The powers of 128 that varint proofs lean on, as plain numbers.
proof fn lemma_pow128_values()
    ensures
        vstd::arithmetic::power::pow(128, 0) == 1,
        vstd::arithmetic::power::pow(128, 1) == 128,
        vstd::arithmetic::power::pow(128, 2) == 0x4000,
        vstd::arithmetic::power::pow(128, 3) == 0x200000,
        vstd::arithmetic::power::pow(128, 4) == 0x10000000,
        vstd::arithmetic::power::pow(128, 5) == 0x800000000,
        vstd::arithmetic::power::pow(128, 6) == 0x40000000000,
        vstd::arithmetic::power::pow(128, 7) == 0x2000000000000,
        vstd::arithmetic::power::pow(128, 8) == 0x100000000000000,
        vstd::arithmetic::power::pow(128, 9) == 0x8000000000000000,
{
    reveal(vstd::arithmetic::power::pow);
    vstd::arithmetic::power::lemma_pow0(128);
    assert(vstd::arithmetic::power::pow(128, 1) == 128 * vstd::arithmetic::power::pow(128, 0));
    assert(vstd::arithmetic::power::pow(128, 2) == 128 * vstd::arithmetic::power::pow(128, 1));
    assert(vstd::arithmetic::power::pow(128, 3) == 128 * vstd::arithmetic::power::pow(128, 2));
    assert(vstd::arithmetic::power::pow(128, 4) == 128 * vstd::arithmetic::power::pow(128, 3));
    assert(vstd::arithmetic::power::pow(128, 5) == 128 * vstd::arithmetic::power::pow(128, 4));
    assert(vstd::arithmetic::power::pow(128, 6) == 128 * vstd::arithmetic::power::pow(128, 5));
    assert(vstd::arithmetic::power::pow(128, 7) == 128 * vstd::arithmetic::power::pow(128, 6));
    assert(vstd::arithmetic::power::pow(128, 8) == 128 * vstd::arithmetic::power::pow(128, 7));
    assert(vstd::arithmetic::power::pow(128, 9) == 128 * vstd::arithmetic::power::pow(128, 8));
}

/// The varint encoding of `v` is well formed and denotes `v`.
pub proof fn lemma_varint_round_trip(v: u64)
    ensures
        is_varint_encoding(spec_varint(v)),
        spec_varint_value(spec_varint(v)) == v,
        1 <= spec_varint(v).len() <= 10,
    decreases v,
{
    if v < 128 {
        let s = spec_varint(v);
        assert(s == seq![v as u8]);
        assert(s.skip(1) =~= Seq::<u8>::empty());
        assert(spec_varint_value(Seq::<u8>::empty()) == 0);
        assert(spec_varint_value(s) == (s[0] % 128) as nat + 128 * spec_varint_value(s.skip(1)));
        assert(s[0] == v as u8);
        assert(s[0] % 128 == v);
    } else {
        lemma_varint_round_trip(v / 128);
        let s = spec_varint(v);
        let t = spec_varint(v / 128);
        assert(s.skip(1) =~= t);
        assert(s[0] == (v % 128 + 128) as u8);
        assert(s[0] % 128 == v % 128);
        vstd::arithmetic::div_mod::lemma_fundamental_div_mod(v as int, 128);
        assert(spec_varint_value(s) == (s[0] % 128) as nat + 128 * spec_varint_value(s.skip(1)));
        assert(spec_varint_value(s.skip(1)) == spec_varint_value(t));
        assert(spec_varint_value(t) == v / 128);
        assert(spec_varint_value(s) == (v % 128) + 128 * (v / 128));
        assert(v % 128 + 128 * (v / 128) == v);
        if t.len() >= 10 {
            lemma_varint_len_bound(v / 128, 10);
            lemma_pow128_values();
            assert(v / 128 < 0x200000000000000) by (bit_vector);
        }
    }
}

/// An encoding of `n` or more bytes needs a value of at least
/// `128^(n-1)`: each continuation byte stands for another base-128
/// digit.
proof fn lemma_varint_len_bound(v: u64, n: int)
    requires
        spec_varint(v).len() >= n,
        2 <= n,
    ensures
        v >= vstd::arithmetic::power::pow(128, (n - 1) as nat),
    decreases n,
{
    reveal(vstd::arithmetic::power::pow);
    vstd::arithmetic::power::lemma_pow_positive(128, (n - 2) as nat);
    assert(spec_varint(v).len() >= 2);
    assert(v >= 128);
    vstd::arithmetic::div_mod::lemma_fundamental_div_mod(v as int, 128);
    if n == 2 {
        assert(vstd::arithmetic::power::pow(128, 1) == 128
            * vstd::arithmetic::power::pow(128, 0));
    } else {
        assert(spec_varint(v).skip(1) =~= spec_varint(v / 128));
        lemma_varint_len_bound(v / 128, n - 1);
        assert(vstd::arithmetic::power::pow(128, (n - 1) as nat) == 128
            * vstd::arithmetic::power::pow(128, (n - 2) as nat));
        assert(128 * (v / 128) >= 128 * vstd::arithmetic::power::pow(128, (n - 2) as nat));
        assert(v >= 128 * (v / 128));
    }
}

/// Return the length of the varint encoding of `value`.
pub fn varint_length(value: u64) -> (len: usize)
    ensures
        len == spec_varint(value).len(),
{
    let mut v = value;
    let mut len: usize = 1;
    while v >= 128
        invariant
            spec_varint(value).len() == len + spec_varint(v).len() - 1,
            len <= 10,
        decreases v,
    {
        proof {
            lemma_varint_round_trip(value);
        }
        v = v / 128;
        len = len + 1;
    }
    len
}

/// Encode `value` as a varint into the front of `dst`; bytes past the
/// encoding keep their old contents.
pub fn encode_varint_64(dst: &mut [u8], value: u64)
    requires
        old(dst)@.len() >= spec_varint(value).len(),
    ensures
        final(dst)@ == spec_varint(value) + old(dst)@.skip(spec_varint(value).len() as int),
{
    proof {
        lemma_varint_round_trip(value);
    }
    let ghost full = spec_varint(value);
    let mut v = value;
    let mut idx: usize = 0;
    while v >= 128
        invariant
            full == spec_varint(value),
            full.len() <= dst@.len(),
            dst@.len() == old(dst)@.len(),
            idx + spec_varint(v).len() == full.len(),
            full == dst@.subrange(0, idx as int) + spec_varint(v),
            forall|j: int| idx <= j < dst@.len() ==> dst@[j] == old(dst)@[j],
        decreases v,
    {
        let ghost prev = dst@;
        let b = (v % 128 + 128) as u8;
        dst[idx] = b;
        proof {
            assert(spec_varint(v) == seq![b] + spec_varint(v / 128));
            assert(dst@.subrange(0, idx + 1) =~= prev.subrange(0, idx as int) + seq![b]);
            assert(full =~= dst@.subrange(0, idx + 1) + spec_varint(v / 128));
        }
        v = v / 128;
        idx += 1;
    }
    let ghost prev = dst@;
    dst[idx] = v as u8;
    proof {
        assert(spec_varint(v) =~= seq![v as u8]);
        assert(dst@.subrange(0, idx + 1) =~= prev.subrange(0, idx as int) + seq![v as u8]);
        assert(full =~= dst@.subrange(0, idx + 1));
        assert(final(dst)@ =~= full + old(dst)@.skip(full.len() as int));
    }
}

/// Encode `value` as a varint into the front of `dst`.
pub fn encode_varint_32(dst: &mut [u8], value: u32)
    requires
        old(dst)@.len() >= spec_varint(value as u64).len(),
    ensures
        final(dst)@ == spec_varint(value as u64) + old(dst)@.skip(
            spec_varint(value as u64).len() as int,
        ),
{
    encode_varint_64(dst, value as u64);
}

/// Encode `value` as a varint and append it to `dst`.
pub fn put_varint_64(dst: &mut Vec<u8>, value: u64)
    ensures
        final(dst)@ == old(dst)@ + spec_varint(value),
{
    proof {
        lemma_varint_round_trip(value);
    }
    let ghost full = spec_varint(value);
    let mut v = value;
    while v >= 128
        invariant
            full == spec_varint(value),
            old(dst)@ + full == dst@ + spec_varint(v),
        decreases v,
    {
        let b = (v % 128 + 128) as u8;
        dst.push(b);
        proof {
            assert(spec_varint(v) == seq![b] + spec_varint(v / 128));
            assert(old(dst)@ + full =~= dst@ + spec_varint(v / 128));
        }
        v = v / 128;
    }
    dst.push(v as u8);
    proof {
        assert(spec_varint(v) =~= seq![v as u8]);
        assert(final(dst)@ =~= old(dst)@ + full);
    }
}

/// Encode `value` as a varint and append it to `dst`.
pub fn put_varint_32(dst: &mut Vec<u8>, value: u32)
    ensures
        final(dst)@ == old(dst)@ + spec_varint(value as u64),
{
    put_varint_64(dst, value as u64);
}

/// Decode a varint from the front of `src`.  Returns the value and the
/// number of bytes it took, or nothing when no well-formed varint that
/// fits in 64 bits starts there.
pub fn get_varint_64(src: &[u8]) -> (r: Option<(u64, usize)>)
    ensures
        match r {
            Some((v, n)) => {
                &&& 1 <= n <= 10
                &&& n <= src@.len()
                &&& is_varint_encoding(src@.subrange(0, n as int))
                &&& spec_varint_value(src@.subrange(0, n as int)) == v
            },
            None => {
                forall|n: int|
                    1 <= n <= 10 && n <= src@.len() && is_varint_encoding(
                        #[trigger] src@.subrange(0, n),
                    ) ==> spec_varint_value(src@.subrange(0, n)) >= 0x10000000000000000
            },
        },
{
    let len = src.len();
    let mut value: u64 = 0;
    let mut i: usize = 0;
    // 128^i, the weight of the next group
    let mut weight: u64 = 1;
    proof {
        lemma_pow128_values();
        assert(src@.subrange(0, 0) =~= Seq::<u8>::empty());
    }
    while i < len && i < 10
        invariant
            len == src@.len(),
            i <= 10,
            i <= len,
            forall|j: int| 0 <= j < i ==> src@[j] >= 128,
            weight == vstd::arithmetic::power::pow(128, i as nat),
            value == spec_varint_value(src@.subrange(0, i as int)),
            value < vstd::arithmetic::power::pow(128, i as nat),
        decreases len - i,
    {
        let b = src[i];
        proof {
            reveal(vstd::arithmetic::power::pow);
            lemma_pow128_values();
            assert(vstd::arithmetic::power::pow(128, (i + 1) as nat) == 128
                * vstd::arithmetic::power::pow(128, i as nat));
            lemma_varint_value_append(src@.subrange(0, i + 1), b, i as int);
            assert(src@.subrange(0, i + 1).subrange(0, i as int) =~= src@.subrange(0, i as int));
            if i < 9 {
                vstd::arithmetic::power::lemma_pow_increases(128, i as nat, 8);
            }
        }
        if b < 128 {
            // at i == 9 the weight is 2^63, so a terminator above 1 would
            // carry the value past 64 bits
            if i == 9 && b > 1 {
                proof {
                    lemma_varint_overflow(src@, b);
                }
                return None;
            }
            proof {
                if i < 9 {
                    assert(weight * (b as u64) <= 0x100000000000000 * 127) by (nonlinear_arith)
                        requires
                            0 <= weight <= 0x100000000000000,
                            0 <= b <= 127,
                    ;
                } else {
                    assert(weight * (b as u64) <= weight * 1) by (nonlinear_arith)
                        requires
                            0 <= b <= 1,
                            weight >= 0,
                    ;
                }
            }
            let v = value + weight * (b as u64);
            proof {
                lemma_unique_terminator(src@, i as int);
                assert(b % 128 == b);
                assert((b % 128) * vstd::arithmetic::power::pow(128, i as nat) == weight * (
                b as u64)) by (nonlinear_arith)
                    requires
                        b % 128 == b,
                        weight == vstd::arithmetic::power::pow(128, i as nat),
                ;
                assert(spec_varint_value(src@.subrange(0, i + 1)) == value + (b % 128)
                    * vstd::arithmetic::power::pow(128, i as nat));
                assert(spec_varint_value(src@.subrange(0, i + 1)) == v);
            }
            return Some((v, i + 1));
        }
        if i < 9 {
            let d = (b as u64) - 128;
            proof {
                assert(weight * d <= 0x100000000000000 * 127) by (nonlinear_arith)
                    requires
                        0 <= weight <= 0x100000000000000,
                        0 <= d <= 127,
                ;
                assert(value + weight * d < weight * 128) by (nonlinear_arith)
                    requires
                        0 <= value < weight,
                        0 <= d < 128,
                ;
                assert(b % 128 == b - 128);
                assert((b % 128) * vstd::arithmetic::power::pow(128, i as nat) == weight * d)
                    by (nonlinear_arith)
                    requires
                        b % 128 == d,
                        weight == vstd::arithmetic::power::pow(128, i as nat),
                ;
                assert(spec_varint_value(src@.subrange(0, i + 1)) == value + (b % 128)
                    * vstd::arithmetic::power::pow(128, i as nat));
                assert(spec_varint_value(src@.subrange(0, i + 1)) == value + weight * d);
            }
            value = value + weight * d;
            weight = weight * 128;
        } else {
            // ten or more continuation bytes can only denote >= 128^10
            proof {
                lemma_varint_too_long(src@);
            }
            return None;
        }
        i += 1;
    }
    proof {
        lemma_varint_runs_off(src@, i as int);
    }
    None
}

/// Appending a terminator byte to `i` continuation bytes denotes the
/// accumulated value plus the byte at weight `128^i`.
proof fn lemma_varint_value_append(s: Seq<u8>, b: u8, i: int)
    requires
        s.len() == i + 1,
        0 <= i,
        s[i] == b,
    ensures
        spec_varint_value(s) == spec_varint_value(s.subrange(0, i)) + (b % 128)
            * vstd::arithmetic::power::pow(128, i as nat),
    decreases i,
{
    reveal(vstd::arithmetic::power::pow);
    let head = s.subrange(0, i);
    let p1 = vstd::arithmetic::power::pow(128, i as nat);
    if i == 0 {
        assert(s =~= seq![b]);
        assert(spec_varint_value(s) == (b % 128) + 128 * spec_varint_value(s.skip(1)));
        assert(s.skip(1) =~= Seq::<u8>::empty());
        assert(spec_varint_value(head) == 0);
        assert(p1 == 1);
        assert((b % 128) * p1 == (b % 128)) by (nonlinear_arith)
            requires
                p1 == 1,
        ;
    } else {
        lemma_varint_value_append(s.skip(1), b, i - 1);
        let p0 = vstd::arithmetic::power::pow(128, (i - 1) as nat);
        assert(s.skip(1).subrange(0, i - 1) =~= head.skip(1));
        assert(p1 == 128 * p0);
        assert(spec_varint_value(s) == (s[0] % 128) + 128 * spec_varint_value(s.skip(1)));
        assert(spec_varint_value(head) == (s[0] % 128) + 128 * spec_varint_value(head.skip(1)));
        assert(spec_varint_value(s.skip(1)) == spec_varint_value(head.skip(1)) + (b % 128) * p0);
        assert(128 * (spec_varint_value(head.skip(1)) + (b % 128) * p0) == 128
            * spec_varint_value(head.skip(1)) + (b % 128) * (128 * p0)) by (nonlinear_arith);
        assert(spec_varint_value(s) == spec_varint_value(head) + (b % 128) * p1);
    }
}

/// A varint body of `n` bytes denotes at least `128^(n-1)` when its
/// leading bytes all carry the continuation bit.
proof fn lemma_varint_value_min(s: Seq<u8>)
    requires
        s.len() >= 1,
        forall|j: int| 0 <= j < s.len() - 1 ==> s[j] >= 128,
    ensures
        spec_varint_value(s) >= (spec_varint_value(seq![s[s.len() - 1]]))
            * vstd::arithmetic::power::pow(128, (s.len() - 1) as nat),
    decreases s.len(),
{
    reveal(vstd::arithmetic::power::pow);
    let n = s.len() as int;
    let last = s[n - 1];
    if n == 1 {
        assert(s =~= seq![last]);
        assert(s.skip(1) =~= Seq::<u8>::empty());
        assert(spec_varint_value(s) == (last % 128) + 128 * 0);
        lemma_pow128_values();
    } else {
        lemma_varint_value_min(s.skip(1));
        assert(s.skip(1)[s.skip(1).len() - 1] == last);
        assert(s[0] >= 128);
        assert(vstd::arithmetic::power::pow(128, (n - 1) as nat) == 128
            * vstd::arithmetic::power::pow(128, (n - 2) as nat));
        let p = vstd::arithmetic::power::pow(128, (n - 2) as nat);
        vstd::arithmetic::power::lemma_pow_positive(128, (n - 2) as nat);
        assert(spec_varint_value(s) == (s[0] % 128) + 128 * spec_varint_value(s.skip(1)));
        assert(spec_varint_value(s.skip(1)) >= spec_varint_value(seq![last]) * p);
        assert(128 * spec_varint_value(s.skip(1)) >= 128 * (spec_varint_value(seq![last]) * p))
            by (nonlinear_arith)
            requires
                spec_varint_value(s.skip(1)) >= spec_varint_value(seq![last]) * p,
        ;
        assert(128 * (spec_varint_value(seq![last]) * p) == spec_varint_value(seq![last]) * (128
            * p)) by (nonlinear_arith);
    }
}

/// With nine continuation bytes, a terminator above 1 pushes the value
/// past 64 bits, whatever prefix length is chosen.
proof fn lemma_varint_overflow(s: Seq<u8>, b: u8)
    requires
        s.len() >= 10,
        forall|j: int| 0 <= j < 9 ==> s[j] >= 128,
        s[9] == b,
        b < 128,
        b > 1,
    ensures
        forall|n: int|
            1 <= n <= 10 && n <= s.len() && is_varint_encoding(#[trigger] s.subrange(0, n))
                ==> spec_varint_value(s.subrange(0, n)) >= 0x10000000000000000,
{
    assert forall|n: int|
        1 <= n <= 10 && n <= s.len() && is_varint_encoding(#[trigger] s.subrange(0, n))
        implies spec_varint_value(s.subrange(0, n)) >= 0x10000000000000000 by {
        let p = s.subrange(0, n);
        // bytes before index 9 carry the continuation bit, so only n == 10 is well formed
        assert(p[n - 1] < 128);
        assert(n == 10);
        lemma_varint_value_min(p);
        assert(p[9] == b);
        assert(seq![b].skip(1) =~= Seq::<u8>::empty());
        assert(spec_varint_value(Seq::<u8>::empty()) == 0);
        assert(spec_varint_value(seq![b]) == (b % 128) as nat + 128 * spec_varint_value(
            seq![b].skip(1),
        ));
        assert(b % 128 >= 2);
        lemma_pow128_values();
        assert(spec_varint_value(seq![b]) * vstd::arithmetic::power::pow(128, 9) >= 2
            * 0x8000000000000000) by (nonlinear_arith)
            requires
                spec_varint_value(seq![b]) >= 2,
                vstd::arithmetic::power::pow(128, 9) == 0x8000000000000000,
        ;
    }
}

/// Ten continuation bytes push every candidate prefix past 64 bits.
proof fn lemma_varint_too_long(s: Seq<u8>)
    requires
        s.len() >= 10,
        forall|j: int| 0 <= j < 10 ==> s[j] >= 128,
    ensures
        forall|n: int|
            1 <= n <= 10 && n <= s.len() && is_varint_encoding(#[trigger] s.subrange(0, n))
                ==> spec_varint_value(s.subrange(0, n)) >= 0x10000000000000000,
{
    assert forall|n: int|
        1 <= n <= 10 && n <= s.len() && is_varint_encoding(#[trigger] s.subrange(0, n))
        implies spec_varint_value(s.subrange(0, n)) >= 0x10000000000000000 by {
        let p = s.subrange(0, n);
        assert(p[n - 1] >= 128);
        assert(p[n - 1] < 128);
    }
}

/// When the input stops inside a run of continuation bytes, no prefix is
/// a well-formed varint.
proof fn lemma_varint_runs_off(s: Seq<u8>, i: int)
    requires
        i == s.len() || i == 10,
        i <= s.len(),
        forall|j: int| 0 <= j < i ==> s[j] >= 128,
    ensures
        forall|n: int|
            1 <= n <= 10 && n <= s.len() && is_varint_encoding(#[trigger] s.subrange(0, n))
                ==> spec_varint_value(s.subrange(0, n)) >= 0x10000000000000000,
{
    if i == 10 {
        lemma_varint_too_long(s);
    } else {
        assert forall|n: int|
            1 <= n <= 10 && n <= s.len() && is_varint_encoding(#[trigger] s.subrange(0, n))
            implies spec_varint_value(s.subrange(0, n)) >= 0x10000000000000000 by {
            let p = s.subrange(0, n);
            assert(p[n - 1] >= 128);
            assert(p[n - 1] < 128);
        }
    }
}

/// The first byte without the continuation bit ends the only
/// well-formed prefix, so the decoded prefix is the one the contract
/// speaks about.
proof fn lemma_unique_terminator(s: Seq<u8>, i: int)
    requires
        0 <= i < s.len(),
        forall|j: int| 0 <= j < i ==> s[j] >= 128,
        s[i] < 128,
    ensures
        is_varint_encoding(s.subrange(0, i + 1)),
{
    let p = s.subrange(0, i + 1);
    assert(p.len() == i + 1);
    assert(p[i] < 128);
}

/// Decode a varint from the front of `src`, capped at 32 bits.  Returns
/// nothing when no well-formed varint of at most five bytes starting
/// there denotes a value under `2^32`.
pub fn get_varint_32_ptr_fall_back(src: &[u8]) -> (r: Option<(u32, usize)>)
    ensures
        match r {
            Some((v, n)) => {
                &&& 1 <= n <= 5
                &&& n <= src@.len()
                &&& is_varint_encoding(src@.subrange(0, n as int))
                &&& spec_varint_value(src@.subrange(0, n as int)) == v
            },
            None => {
                forall|n: int|
                    1 <= n <= 5 && n <= src@.len() && is_varint_encoding(
                        #[trigger] src@.subrange(0, n),
                    ) ==> spec_varint_value(src@.subrange(0, n)) >= 0x100000000
            },
        },
{
    match get_varint_64(src) {
        Some((v, n)) => {
            if v <= 0xffffffff && n <= 5 {
                Some((v as u32, n))
            } else {
                proof {
                    lemma_varint_32_reject(src@, v as nat, n as int);
                }
                None
            }
        },
        None => None,
    }
}

/// A 64-bit decode that lands past 32 bits, or needs more than five
/// bytes, rules out every candidate prefix of at most five bytes: a
/// well-formed prefix ends at the first terminator byte, so it can only
/// be the decoded one.
proof fn lemma_varint_32_reject(s: Seq<u8>, v: nat, m: int)
    requires
        1 <= m <= 10,
        m <= s.len(),
        is_varint_encoding(s.subrange(0, m)),
        spec_varint_value(s.subrange(0, m)) == v,
        v > 0xffffffff || m > 5,
    ensures
        forall|n: int|
            1 <= n <= 5 && n <= s.len() && is_varint_encoding(#[trigger] s.subrange(0, n))
                ==> spec_varint_value(s.subrange(0, n)) >= 0x100000000,
{
    assert forall|n: int|
        1 <= n <= 5 && n <= s.len() && is_varint_encoding(#[trigger] s.subrange(0, n))
        implies spec_varint_value(s.subrange(0, n)) >= 0x100000000 by {
        let p = s.subrange(0, n);
        let q = s.subrange(0, m);
        if n < m {
            assert(q[n - 1] >= 128);
            assert(p[n - 1] < 128);
        }
        if m < n {
            assert(p[m - 1] >= 128);
            assert(q[m - 1] < 128);
        }
        assert(n == m);
        assert(p =~= q);
    }
}

/// Decode a varint that starts at `offset` in `src`.  Returns the value
/// and the number of bytes it took.
pub fn get_varint_64_ptr(src: &[u8], offset: usize) -> (r: Option<(u64, usize)>)
    requires
        offset <= src@.len(),
    ensures
        match r {
            Some((v, n)) => {
                &&& 1 <= n <= 10
                &&& offset + n <= src@.len()
                &&& is_varint_encoding(src@.subrange(offset as int, offset + n))
                &&& spec_varint_value(src@.subrange(offset as int, offset + n)) == v
            },
            None => {
                forall|n: int|
                    1 <= n <= 10 && offset + n <= src@.len() && is_varint_encoding(
                        #[trigger] src@.subrange(offset as int, offset + n),
                    ) ==> spec_varint_value(src@.subrange(offset as int, offset + n))
                        >= 0x10000000000000000
            },
        },
{
    let tail = vstd::slice::slice_subrange(src, offset, src.len());
    let r = get_varint_64(tail);
    proof {
        match r {
            Some((v, n)) => {
                assert(src@.subrange(offset as int, offset + n) =~= tail@.subrange(0, n as int));
            },
            None => {
                assert forall|n: int|
                    1 <= n <= 10 && offset + n <= src@.len() && is_varint_encoding(
                        #[trigger] src@.subrange(offset as int, offset + n),
                    ) implies spec_varint_value(src@.subrange(offset as int, offset + n))
                    >= 0x10000000000000000 by {
                    assert(src@.subrange(offset as int, offset + n) =~= tail@.subrange(0, n));
                };
            },
        }
    }
    r
}

/// Decode a varint from the front of `input` and advance the slice past
/// it.  On failure the slice is unchanged.
pub fn get_varint_64_slice(input: &mut Slice) -> (r: Option<u64>)
    ensures
        match r {
            Some(v) => {
                exists|n: int|
                    {
                        &&& 1 <= n <= 10
                        &&& n <= old(input)@.len()
                        &&& is_varint_encoding(#[trigger] old(input)@.subrange(0, n))
                        &&& spec_varint_value(old(input)@.subrange(0, n)) == v
                        &&& final(input)@ == old(input)@.skip(n)
                    }
            },
            None => {
                &&& final(input)@ == old(input)@
                &&& forall|n: int|
                    1 <= n <= 10 && n <= old(input)@.len() && is_varint_encoding(
                        #[trigger] old(input)@.subrange(0, n),
                    ) ==> spec_varint_value(old(input)@.subrange(0, n)) >= 0x10000000000000000
            },
        },
{
    match get_varint_64(input.slice_data()) {
        Some((v, n)) => {
            input.remove_prefix(n);
            Some(v)
        },
        None => None,
    }
}

/// Append `value` to `dst` with a varint length prefix.
pub fn put_length_prefixed_slice(dst: &mut Vec<u8>, value: &Slice)
    requires
        value@.len() <= u32::MAX,
    ensures
        final(dst)@ == old(dst)@ + spec_varint(value@.len() as u64) + value@,
{
    put_varint_32(dst, value.size() as u32);
    dst.extend_from_slice(value.slice_data());
}

} // verus!
