//! The variable-length integer encoding used throughout the file format: 1 to
//! 9 bytes, seven value bits per byte, most significant chunk first.  A set
//! high bit means another byte follows; a ninth byte, when reached, ends the
//! encoding unconditionally and contributes all eight of its bits.
use vstd::prelude::*;

use crate::error::DbError;

verus! {

/// How many bytes a decode starting at the front of `bytes` consumes, once
/// position `i` has been reached with every earlier byte a continuation byte.
pub open spec fn varint_len_from(bytes: Seq<u8>, i: int) -> int
    recommends
        0 <= i <= 8,
    decreases 8 - i,
{
    if i >= 8 {
        9
    } else if bytes[i] < 128 {
        i + 1
    } else {
        varint_len_from(bytes, i + 1)
    }
}

/// How many bytes a decode starting at the front of `bytes` consumes: the
/// position of the first byte without its high bit, plus one, capped at 9.
pub open spec fn varint_len(bytes: Seq<u8>) -> int {
    varint_len_from(bytes, 0)
}

/// The encoding at the front of `bytes` ends within `bytes` itself, so a
/// decode reads no byte past the end.
pub open spec fn varint_complete(bytes: Seq<u8>) -> bool {
    varint_len(bytes) <= bytes.len()
}

/// The value accumulated from position `i` onward, starting from `acc`:
/// each continuation byte shifts seven value bits in; the final byte is
/// shifted in whole.
pub open spec fn varint_accum(bytes: Seq<u8>, i: int, acc: u64) -> u64
    recommends
        0 <= i <= 8,
    decreases 8 - i,
{
    if i >= 8 || bytes[i] < 128 {
        (acc << 7) | (bytes[i] as u64)
    } else {
        varint_accum(bytes, i + 1, (acc << 7) | ((bytes[i] & 0x7f) as u64))
    }
}

/// The value of the encoding at the front of `bytes`, reinterpreted as a
/// signed 64-bit integer.
pub open spec fn varint_value(bytes: Seq<u8>) -> i64 {
    varint_accum(bytes, 0, 0) as i64
}

/// A decode that has reached position `i` consumes at least one more byte and
/// nine bytes in all at most.
pub proof fn lemma_varint_len_from_bounds(bytes: Seq<u8>, i: int)
    requires
        0 <= i <= 8,
    ensures
        i + 1 <= varint_len_from(bytes, i) <= 9,
    decreases 8 - i,
{
    if i < 8 && bytes[i] >= 128 {
        lemma_varint_len_from_bounds(bytes, i + 1);
    }
}

/// The continuation bytes that carry the upper chunks of a value: seven bits
/// each, high bit set, most significant chunk first.
pub open spec fn varint_cont_bytes(v: int) -> Seq<u8>
    recommends
        0 <= v,
    decreases v,
{
    if v <= 0 {
        Seq::empty()
    } else {
        varint_cont_bytes(v / 128).push((128 + v % 128) as u8)
    }
}

/// The reference encoding of a non-negative value: the upper chunks as
/// continuation bytes, then the low seven bits in a final byte.
pub open spec fn varint_encoding(v: int) -> Seq<u8>
    recommends
        0 <= v,
{
    varint_cont_bytes(v / 128).push((v % 128) as u8)
}

/// 128 raised to `k`.
pub open spec fn pow128(k: nat) -> int
    decreases k,
{
    if k == 0 {
        1
    } else {
        128 * pow128((k - 1) as nat)
    }
}

/// What the accumulator becomes once the continuation bytes of `h` have been
/// folded in on top of `acc`.
pub open spec fn varint_accum_push(acc: u64, h: int) -> u64
    recommends
        0 <= h,
    decreases h,
{
    if h <= 0 {
        acc
    } else {
        (varint_accum_push(acc, h / 128) << 7) | ((h % 128) as u64)
    }
}

proof fn lemma_cont_bytes_len(v: int, k: nat)
    requires
        0 <= v < pow128(k),
    ensures
        varint_cont_bytes(v).len() <= k,
    decreases k,
{
    if v > 0 {
        assert(k != 0);
        vstd::arithmetic::div_mod::lemma_fundamental_div_mod(v, 128);
        lemma_cont_bytes_len(v / 128, (k - 1) as nat);
    }
}

proof fn lemma_shift7_or(a: u64, b: u64)
    requires
        a < 0x100_0000_0000_0000,
        b < 128,
    ensures
        ((a << 7) | b) == a * 128 + b,
{
    assert(((a << 7) | b) == a * 128 + b) by (bit_vector)
        requires
            a < 0x100_0000_0000_0000 && b < 128,
    ;
}

/// Folding the continuation bytes of `h`, laid out at position `j`, into the
/// running accumulator moves the decode to the byte after them.
proof fn lemma_accum_cont(bytes: Seq<u8>, j: int, h: int, acc: u64)
    requires
        0 <= h,
        0 <= j,
        j + varint_cont_bytes(h).len() <= 8,
        j + varint_cont_bytes(h).len() <= bytes.len(),
        bytes.subrange(j, j + varint_cont_bytes(h).len() as int) == varint_cont_bytes(h),
    ensures
        varint_accum(bytes, j, acc) == varint_accum(
            bytes,
            j + varint_cont_bytes(h).len(),
            varint_accum_push(acc, h),
        ),
        varint_len_from(bytes, j) == varint_len_from(bytes, j + varint_cont_bytes(h).len()),
    decreases h,
{
    if h > 0 {
        let c = varint_cont_bytes(h);
        let c0 = varint_cont_bytes(h / 128);
        let k = c.len() as int;
        vstd::arithmetic::div_mod::lemma_fundamental_div_mod(h, 128);
        assert(bytes.subrange(j, j + c0.len() as int) =~= c.subrange(0, k - 1));
        assert(c.subrange(0, k - 1) =~= c0);
        lemma_accum_cont(bytes, j, h / 128, acc);
        let i = j + k - 1;
        assert(bytes[i] == c[k - 1]) by {
            assert(c[k - 1] == bytes.subrange(j, j + c.len() as int)[k - 1]);
        }
        assert(c[k - 1] == (128 + h % 128) as u8);
        assert(bytes[i] >= 128);
        let p = varint_accum_push(acc, h / 128);
        assert(varint_accum(bytes, i, p) == varint_accum(
            bytes,
            i + 1,
            (p << 7) | ((bytes[i] & 0x7f) as u64),
        ));
        let m8: u8 = (h % 128) as u8;
        let e: u8 = (128 + h % 128) as u8;
        assert(e == 128 + m8);
        assert((e & 0x7f) == m8) by (bit_vector)
            requires
                e == m8 + 128 && m8 < 128,
        ;
        assert((p << 7) | ((bytes[i] & 0x7f) as u64) == varint_accum_push(acc, h));
    }
}

proof fn lemma_accum_push_value(h: int)
    requires
        0 <= h < 0x100_0000_0000_0000,
    ensures
        varint_accum_push(0, h) == h,
    decreases h,
{
    if h > 0 {
        vstd::arithmetic::div_mod::lemma_fundamental_div_mod(h, 128);
        lemma_accum_push_value(h / 128);
        lemma_shift7_or(varint_accum_push(0, h / 128), (h % 128) as u64);
    }
}

/// Round trip: decoding the reference encoding of any non-negative 64-bit
/// value recovers the value exactly and consumes exactly the encoding's
/// length, which is between 1 and 9 bytes.
pub proof fn lemma_varint_roundtrip(v: i64)
    requires
        0 <= v,
    ensures
        ({
            let b = varint_encoding(v as int);
            &&& 1 <= b.len() <= 9
            &&& varint_complete(b)
            &&& varint_len(b) == b.len()
            &&& varint_value(b) == v
        }),
{
    let h = v as int / 128;
    let last = (v as int % 128) as u8;
    let b = varint_encoding(v as int);
    let k = varint_cont_bytes(h).len() as int;
    vstd::arithmetic::div_mod::lemma_fundamental_div_mod(v as int, 128);
    assert(pow128(0) == 1);
    assert(pow128(1) == 128);
    assert(pow128(2) == 128 * 128);
    assert(pow128(3) == 128 * pow128(2));
    assert(pow128(4) == 128 * pow128(3));
    assert(pow128(5) == 128 * pow128(4));
    assert(pow128(6) == 128 * pow128(5));
    assert(pow128(7) == 128 * pow128(6));
    assert(pow128(8) == 128 * pow128(7));
    assert(pow128(8) == 0x100_0000_0000_0000);
    assert(0 <= h < 0x100_0000_0000_0000);
    lemma_cont_bytes_len(h, 8);
    assert(b.len() == k + 1);
    assert(b.subrange(0, k) =~= varint_cont_bytes(h));
    lemma_accum_cont(b, 0, h, 0);
    let p = varint_accum_push(0, h);
    lemma_accum_push_value(h);
    // the final byte ends the decode, whether by its clear high bit or by
    // standing in the ninth position
    assert(b[k] == last);
    assert(varint_accum(b, k, p) == (p << 7) | (last as u64));
    assert(varint_len_from(b, k) == k + 1);
    lemma_shift7_or(p, last as u64);
    assert(varint_accum(b, 0, 0) == v);
    assert(varint_value(b) == v);
}

/// A decoded variable-length integer.
#[derive(Debug, Clone, Copy, PartialEq, Eq, Structural)]
pub struct Varint(pub i64);

impl Varint {
    /// Decode the variable-length integer that starts at `data[index]`.
    ///
    /// Returns the value and the number of bytes consumed, or
    /// `OutOfRangeRead` when the encoding would run past the end of `data`.
    pub fn read(data: &[u8], index: usize) -> (r: Result<(Varint, usize), DbError>)
        ensures
            ({
                let tail = data@.skip(index as int);
                match r {
                    Ok(p) => {
                        &&& index <= data@.len()
                        &&& varint_complete(tail)
                        &&& p.1 == varint_len(tail)
                        &&& 1 <= p.1 <= 9
                        &&& index + p.1 <= data@.len()
                        &&& p.0.0 == varint_value(tail)
                    },
                    Err(e) => {
                        &&& e == DbError::OutOfRangeRead
                        &&& (index > data@.len() || !varint_complete(tail))
                    },
                }
            }),
    {
        if index >= data.len() {
            proof {
                if index == data@.len() {
                    lemma_varint_len_from_bounds(data@.skip(index as int), 0);
                }
            }
            return Err(DbError::OutOfRangeRead);
        }
        let ghost tail = data@.skip(index as int);
        let mut acc: u64 = 0;
        let mut i: usize = 0;
        loop
            invariant
                index < data@.len(),
                tail == data@.skip(index as int),
                0 <= i <= 8,
                index + i <= data@.len(),
                forall|j: int| 0 <= j < i ==> tail[j] >= 128,
                varint_accum(tail, i as int, acc) == varint_accum(tail, 0, 0),
                varint_len_from(tail, i as int) == varint_len(tail),
            decreases 9 - i,
        {
            if i >= data.len() - index {
                // the next byte of the encoding lies past the end of `data`
                assert(!varint_complete(tail)) by {
                    assert(tail.len() == data@.len() - index);
                    lemma_varint_len_from_bounds(tail, i as int);
                }
                return Err(DbError::OutOfRangeRead);
            }
            let byte = data[index + i];
            assert(byte == tail[i as int]);
            if i == 8 || byte < 128 {
                let value = (acc << 7) | (byte as u64);
                assert(varint_accum(tail, i as int, acc) == value);
                assert(varint_len_from(tail, i as int) == i + 1);
                return Ok((Varint(#[verifier::truncate] (value as i64)), i + 1));
            }
            acc = (acc << 7) | ((byte & 0x7f) as u64);
            i = i + 1;
        }
    }
}

} // verus!
