//! The record decoder: a cell payload starts with a header-length varint,
//! then one serial-type varint per column; the column values follow the
//! header back to back, big-endian, in the same order.
use vstd::prelude::*;

use crate::column::{
    spec_serial_type, serial_type_length, Column, ColumnView, SerialType, SerialValue, ValueView,
};
use crate::error::DbError;
use crate::text::string_from_utf8;
use crate::varint::{
    lemma_varint_len_from_bounds, varint_complete, varint_len, varint_value, Varint,
};

verus! {

/// Reinterpret the unsigned value `u` of a `full`-sized width as a signed
/// two's-complement value.
pub open spec fn twos_complement(u: int, full: int) -> int {
    if u < full / 2 {
        u
    } else {
        u - full
    }
}

/// The unsigned big-endian value of `n` bytes of `payload` starting at `i`.
pub open spec fn be_bytes(payload: Seq<u8>, i: int, n: int) -> int
    recommends
        0 <= i,
        0 <= n,
        i + n <= payload.len(),
    decreases n,
{
    if n <= 0 {
        0
    } else {
        be_bytes(payload, i, n - 1) * 256 + payload[i + n - 1]
    }
}

/// The value of one column of serial type `t`, read at position `i` of the
/// payload.  Only text can fail: its bytes must be valid UTF-8.
pub open spec fn spec_value(t: SerialType, payload: Seq<u8>, i: int) -> Result<
    ValueView,
    DbError,
>
    recommends
        0 <= i,
        i + serial_type_length(t) <= payload.len(),
{
    match t {
        SerialType::Null => Ok(ValueView::Null),
        SerialType::I8 => Ok(
            ValueView::I8(twos_complement(be_bytes(payload, i, 1), 0x100) as i8),
        ),
        SerialType::I16 => Ok(
            ValueView::I16(twos_complement(be_bytes(payload, i, 2), 0x10000) as i16),
        ),
        SerialType::I24 => Ok(
            ValueView::I24(twos_complement(be_bytes(payload, i, 3), 0x100_0000) as i32),
        ),
        SerialType::I32 => Ok(
            ValueView::I32(twos_complement(be_bytes(payload, i, 4), 0x1_0000_0000) as i32),
        ),
        SerialType::I48 => Ok(
            ValueView::I48(twos_complement(be_bytes(payload, i, 6), 0x1_0000_0000_0000) as i64),
        ),
        SerialType::I64 => Ok(
            ValueView::I64(
                twos_complement(be_bytes(payload, i, 8), 0x1_0000_0000_0000_0000) as i64,
            ),
        ),
        SerialType::Float64 => Ok(ValueView::Float64(be_bytes(payload, i, 8) as u64)),
        SerialType::Zero => Ok(ValueView::Zero),
        SerialType::One => Ok(ValueView::One),
        SerialType::Blob(n) => Ok(ValueView::Blob(payload.subrange(i, i + n as int))),
        SerialType::String(n) => {
            let sub = payload.subrange(i, i + n as int);
            if vstd::utf8::valid_utf8(sub) {
                Ok(ValueView::String(vstd::utf8::decode_utf8(sub)))
            } else {
                Err(DbError::Utf8DecodeError)
            }
        },
    }
}

/// The columns decoded from `payload` once the header cursor stands at `hi`
/// and the body cursor at `di`, with the header declared to end at `hlen`.
pub open spec fn spec_record_cols(payload: Seq<u8>, hi: int, hlen: int, di: int) -> Result<
    Seq<ColumnView>,
    DbError,
>
    recommends
        0 <= hi,
        0 <= di,
    decreases (if hlen - hi > 0 {
        hlen - hi
    } else {
        0
    })
        via spec_record_cols_decreases
{
    if hi >= hlen {
        Ok(Seq::empty())
    } else {
        let tail = payload.skip(hi);
        if !varint_complete(tail) {
            Err(DbError::OutOfRangeRead)
        } else {
            let code = varint_value(tail);
            let sz = varint_len(tail);
            match spec_serial_type(code as int) {
                Err(e) => Err(e),
                Ok(t) => {
                    let len = serial_type_length(t);
                    if di < 0 || di + len > payload.len() {
                        Err(DbError::OutOfRangeRead)
                    } else {
                        match spec_value(t, payload, di) {
                            Err(e) => Err(e),
                            Ok(v) => match spec_record_cols(payload, hi + sz, hlen, di + len) {
                                Err(e) => Err(e),
                                Ok(rest) => Ok(
                                    seq![ColumnView { key: t, data: v }] + rest,
                                ),
                            },
                        }
                    }
                },
            }
        }
    }
}

#[via_fn]
proof fn spec_record_cols_decreases(payload: Seq<u8>, hi: int, hlen: int, di: int) {
    if hi < hlen {
        lemma_varint_len_from_bounds(payload.skip(hi), 0);
    }
}

/// The full decode of a record payload: the leading varint gives the header
/// length, counted from the start of the payload and inclusive of itself;
/// the body cursor starts where the header ends.  A header length no larger
/// than its own varint yields a record of no columns.
pub open spec fn spec_record(payload: Seq<u8>) -> Result<Seq<ColumnView>, DbError> {
    if !varint_complete(payload) {
        Err(DbError::OutOfRangeRead)
    } else {
        let hlen = varint_value(payload) as int;
        let hsz = varint_len(payload);
        spec_record_cols(payload, hsz, hlen, hlen)
    }
}

/// An ordered sequence of typed column values decoded from one cell payload.
#[derive(Debug, Clone, PartialEq, Eq)]
pub struct Record {
    pub columns: Vec<Column>,
}

impl View for Record {
    type V = Seq<ColumnView>;

    open spec fn view(&self) -> Seq<ColumnView> {
        self.columns@.map_values(|c: Column| c@)
    }
}

impl Record {
    /// Decode a record from its payload bytes.
    ///
    /// Succeeds exactly when every header varint and every value read stays
    /// inside `data`, every serial-type code is meaningful, and every text
    /// value is valid UTF-8.
    pub fn new(data: &[u8]) -> (r: Result<Record, DbError>)
        ensures
            match r {
                Ok(rec) => spec_record(data@) == Ok::<Seq<ColumnView>, DbError>(rec@),
                Err(e) => spec_record(data@) == Err::<Seq<ColumnView>, DbError>(e),
            },
    {
        proof {
            assert(data@.skip(0) =~= data@);
        }
        let dlen = data.len();
        let (hlen_v, hsz) = match Varint::read(data, 0) {
            Ok(p) => (p.0, p.1),
            Err(e) => {
                return Err(e);
            },
        };
        let ghost ghlen = hlen_v.0 as int;
        let ghost total = spec_record(data@);
        proof {
            assert(varint_complete(data@));
            assert(hsz as int == varint_len(data@));
            assert(ghlen == varint_value(data@) as int);
            assert(total == spec_record_cols(data@, hsz as int, ghlen, ghlen));
        }
        if hlen_v.0 < 0 {
            // a negative header length declares no columns: the header
            // cursor already stands past it
            let columns: Vec<Column> = Vec::new();
            proof {
                assert(columns@.map_values(|c: Column| c@) =~= Seq::<ColumnView>::empty());
            }
            return Ok(Record { columns });
        }
        let hlen: u64 = hlen_v.0 as u64;
        let mut columns: Vec<Column> = Vec::new();
        let mut hi: usize = hsz;
        let mut di: u64 = hlen;
        proof {
            let r0 = spec_record_cols(data@, hi as int, hlen as int, di as int);
            assert(r0 == total);
            if r0 is Ok {
                assert(columns@.map_values(|c: Column| c@) =~= Seq::<ColumnView>::empty());
                assert(Seq::<ColumnView>::empty() + r0->Ok_0 =~= r0->Ok_0);
            }
        }
        while (hi as u64) < hlen
            invariant
                hsz <= hi,
                hi <= dlen,
                dlen == data@.len(),
                total == spec_record(data@),
                ({
                    let rest = spec_record_cols(data@, hi as int, hlen as int, di as int);
                    match rest {
                        Ok(cols) => total == Ok::<Seq<ColumnView>, DbError>(
                            columns@.map_values(|c: Column| c@) + cols,
                        ),
                        Err(e) => total == Err::<Seq<ColumnView>, DbError>(e),
                    }
                }),
            decreases
                    (if hlen as int - hi as int > 0 {
                        hlen as int - hi as int
                    } else {
                        0
                    }),
        {
            let ghost prev_cols = columns@.map_values(|c: Column| c@);
            let (code_v, sz) = match Varint::read(data, hi) {
                Ok(p) => (p.0, p.1),
                Err(e) => {
                    return Err(e);
                },
            };
            let t = match SerialType::read(code_v.0) {
                Ok(t) => t,
                Err(e) => {
                    return Err(e);
                },
            };
            let len = t.length();
            if di > dlen as u64 || len as u64 > dlen as u64 - di {
                return Err(DbError::OutOfRangeRead);
            }
            let di_s = di as usize;
            let v = match decode_value(&t, data, di_s) {
                Ok(v) => v,
                Err(e) => {
                    return Err(e);
                },
            };
            let ghost vv = v@;
            columns.push(Column::new(t, v));
            proof {
                let col = ColumnView { key: t, data: vv };
                assert(columns@.map_values(|c: Column| c@) =~= prev_cols.push(col));
                let rest_new = spec_record_cols(
                    data@,
                    hi as int + sz as int,
                    hlen as int,
                    di as int + len as int,
                );
                if rest_new is Ok {
                    assert(prev_cols + (seq![col] + rest_new->Ok_0) =~= prev_cols.push(col)
                        + rest_new->Ok_0);
                }
            }
            hi = hi + sz;
            di = di + len as u64;
        }
        proof {
            assert(columns@.map_values(|c: Column| c@) + Seq::<ColumnView>::empty()
                =~= columns@.map_values(|c: Column| c@));
        }
        Ok(Record { columns })
    }
}

/// Decode one value of serial type `t` at position `di` of the payload.
fn decode_value(t: &SerialType, payload: &[u8], di: usize) -> (r: Result<SerialValue, DbError>)
    requires
        di + serial_type_length(*t) <= payload@.len(),
    ensures
        match r {
            Ok(v) => spec_value(*t, payload@, di as int) == Ok::<ValueView, DbError>(v@),
            Err(e) => spec_value(*t, payload@, di as int) == Err::<ValueView, DbError>(e),
        },
{
    proof {
        lemma_pow256_unfold();
    }
    let plen = payload.len();
    match t {
        SerialType::Null => Ok(SerialValue::Null),
        SerialType::I8 => {
            let u = read_be(payload, di, 1);
            let v: i64 = if u >= 0x80 {
                (u as i64) - 0x100
            } else {
                u as i64
            };
            Ok(SerialValue::I8(v as i8))
        },
        SerialType::I16 => {
            let u = read_be(payload, di, 2);
            let v: i64 = if u >= 0x8000 {
                (u as i64) - 0x10000
            } else {
                u as i64
            };
            Ok(SerialValue::I16(v as i16))
        },
        SerialType::I24 => {
            let u = read_be(payload, di, 3);
            let v: i64 = if u >= 0x80_0000 {
                (u as i64) - 0x100_0000
            } else {
                u as i64
            };
            Ok(SerialValue::I24(v as i32))
        },
        SerialType::I32 => {
            let u = read_be(payload, di, 4);
            let v: i64 = if u >= 0x8000_0000 {
                (u as i64) - 0x1_0000_0000
            } else {
                u as i64
            };
            Ok(SerialValue::I32(v as i32))
        },
        SerialType::I48 => {
            let u = read_be(payload, di, 6);
            let v: i64 = if u >= 0x8000_0000_0000 {
                (u as i64) - 0x1_0000_0000_0000
            } else {
                u as i64
            };
            Ok(SerialValue::I48(v))
        },
        SerialType::I64 => {
            let u = read_be(payload, di, 8);
            let v: i64 = if u >= 0x8000_0000_0000_0000 {
                ((u - 0x8000_0000_0000_0000) as i64) + i64::MIN
            } else {
                u as i64
            };
            Ok(SerialValue::I64(v))
        },
        SerialType::Float64 => {
            let u = read_be(payload, di, 8);
            Ok(SerialValue::Float64(u))
        },
        SerialType::Zero => Ok(SerialValue::Zero),
        SerialType::One => Ok(SerialValue::One),
        SerialType::Blob(n) => {
            let sub = vstd::slice::slice_subrange(payload, di, di + *n);
            Ok(SerialValue::Blob(vstd::slice::slice_to_vec(sub)))
        },
        SerialType::String(n) => {
            let sub = vstd::slice::slice_subrange(payload, di, di + *n);
            let bytes = vstd::slice::slice_to_vec(sub);
            match string_from_utf8(bytes) {
                Some(s) => Ok(SerialValue::String(s)),
                None => Err(DbError::Utf8DecodeError),
            }
        },
    }
}

/// Read the unsigned big-endian value of `n` bytes at `di`.
pub(crate) fn read_be(payload: &[u8], di: usize, n: usize) -> (u: u64)
    requires
        di + n <= payload@.len(),
        n <= 8,
    ensures
        u == be_bytes(payload@, di as int, n as int),
        u < pow256(n as int),
{
    let plen = payload.len();
    let mut u: u64 = 0;
    let mut k: usize = 0;
    while k < n
        invariant
            0 <= k <= n,
            n <= 8,
            plen == payload@.len(),
            di + n <= payload@.len(),
            u == be_bytes(payload@, di as int, k as int),
        decreases n - k,
    {
        proof {
            lemma_be_bytes_bound(payload@, di as int, k as int);
            lemma_pow256_le(k as int, 7);
            lemma_pow256_unfold();
        }
        u = u * 0x100 + (payload[di + k] as u64);
        k = k + 1;
    }
    proof {
        lemma_be_bytes_bound(payload@, di as int, n as int);
    }
    u
}

/// `n` big-endian bytes hold a value below 256 to the `n`.
pub proof fn lemma_be_bytes_bound(payload: Seq<u8>, i: int, n: int)
    requires
        0 <= n,
    ensures
        0 <= be_bytes(payload, i, n) < pow256(n),
    decreases n,
{
    if n > 0 {
        lemma_be_bytes_bound(payload, i, n - 1);
    }
}

proof fn lemma_pow256_pos(k: int)
    requires
        0 <= k,
    ensures
        pow256(k) >= 1,
    decreases k,
{
    if k > 0 {
        lemma_pow256_pos(k - 1);
    }
}

proof fn lemma_pow256_le(a: int, b: int)
    requires
        0 <= a <= b,
    ensures
        pow256(a) <= pow256(b),
    decreases b - a,
{
    if a < b {
        lemma_pow256_le(a, b - 1);
        lemma_pow256_pos(b - 1);
    }
}

pub proof fn lemma_pow256_unfold()
    ensures
        pow256(0) == 1,
        pow256(1) == 0x100,
        pow256(2) == 0x1_0000,
        pow256(3) == 0x100_0000,
        pow256(4) == 0x1_0000_0000,
        pow256(5) == 0x100_0000_0000,
        pow256(6) == 0x1_0000_0000_0000,
        pow256(7) == 0x100_0000_0000_0000,
        pow256(8) == 0x1_0000_0000_0000_0000,
{
    assert(pow256(0) == 1);
    assert(pow256(1) == 0x100);
    assert(pow256(2) == 0x1_0000);
    assert(pow256(3) == 0x100_0000);
    assert(pow256(4) == 0x1_0000_0000);
    assert(pow256(5) == 0x100_0000_0000);
    assert(pow256(6) == 0x1_0000_0000_0000);
    assert(pow256(7) == 0x100_0000_0000_0000);
    assert(pow256(8) == 0x1_0000_0000_0000_0000);
}

/// 256 raised to `k`, for the width bounds of the integer classes.
pub open spec fn pow256(k: int) -> int
    recommends
        0 <= k,
    decreases k,
{
    if k <= 0 {
        1
    } else {
        256 * pow256(k - 1)
    }
}

/// Decoding is a function of the payload bytes alone: two records decoded
/// from equal payloads hold columns equal in type and value.
pub proof fn lemma_record_decode_deterministic(r1: Record, r2: Record, payload: Seq<u8>)
    requires
        spec_record(payload) == Ok::<Seq<ColumnView>, DbError>(r1@),
        spec_record(payload) == Ok::<Seq<ColumnView>, DbError>(r2@),
    ensures
        r1@ == r2@,
{
}

} // verus!
