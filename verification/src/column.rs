//! Serial types and decoded column values: the storage class codes of the
//! record format, the values they decode to, and their text forms.
use vstd::prelude::*;

use crate::error::DbError;
use crate::text::{dec_str, i64_to_string};

verus! {

/// The storage class of one column value, as encoded by a serial-type code
/// in a record header.
#[derive(Debug, Clone, PartialEq, Eq, Structural)]
pub enum SerialType {
    /// Value is a NULL (code 0).
    Null,
    /// An 8-bit two's-complement integer (code 1).
    I8,
    /// A big-endian 16-bit two's-complement integer (code 2).
    I16,
    /// A big-endian 24-bit two's-complement integer (code 3).
    I24,
    /// A big-endian 32-bit two's-complement integer (code 4).
    I32,
    /// A big-endian 48-bit two's-complement integer (code 5).
    I48,
    /// A big-endian 64-bit two's-complement integer (code 6).
    I64,
    /// A big-endian IEEE 754 64-bit floating point number (code 7), carried
    /// as its raw bit pattern.
    Float64,
    /// The integer 0, stored in no bytes (code 8).
    Zero,
    /// The integer 1, stored in no bytes (code 9).
    One,
    /// A blob of the given byte length (even codes from 12 up).
    Blob(usize),
    /// Text of the given byte length (odd codes from 13 up).
    String(usize),
}

/// What a serial-type code means: the fixed classes for codes 0 through 9,
/// blobs of (code-12)/2 bytes for even codes from 12 up, text of (code-13)/2
/// bytes for odd codes from 13 up, and an error for everything else.
pub open spec fn spec_serial_type(code: int) -> Result<SerialType, DbError> {
    if code == 0 {
        Ok(SerialType::Null)
    } else if code == 1 {
        Ok(SerialType::I8)
    } else if code == 2 {
        Ok(SerialType::I16)
    } else if code == 3 {
        Ok(SerialType::I24)
    } else if code == 4 {
        Ok(SerialType::I32)
    } else if code == 5 {
        Ok(SerialType::I48)
    } else if code == 6 {
        Ok(SerialType::I64)
    } else if code == 7 {
        Ok(SerialType::Float64)
    } else if code == 8 {
        Ok(SerialType::Zero)
    } else if code == 9 {
        Ok(SerialType::One)
    } else if code >= 12 {
        if code % 2 == 0 {
            Ok(SerialType::Blob(((code - 12) / 2) as usize))
        } else {
            Ok(SerialType::String(((code - 13) / 2) as usize))
        }
    } else {
        Err(DbError::InvalidSerialType)
    }
}

/// How many payload bytes a value of this serial type occupies.
pub open spec fn serial_type_length(t: SerialType) -> int {
    match t {
        SerialType::Null => 0,
        SerialType::I8 => 1,
        SerialType::I16 => 2,
        SerialType::I24 => 3,
        SerialType::I32 => 4,
        SerialType::I48 => 6,
        SerialType::I64 => 8,
        SerialType::Float64 => 8,
        SerialType::Zero => 0,
        SerialType::One => 0,
        SerialType::Blob(len) => len as int,
        SerialType::String(len) => len as int,
    }
}

impl SerialType {
    /// Decode one serial-type code; codes 10 and 11 and negative codes are
    /// rejected, never coerced.
    pub fn read(npayload: i64) -> (r: Result<SerialType, DbError>)
        ensures
            r == spec_serial_type(npayload as int),
    {
        if npayload == 0 {
            Ok(SerialType::Null)
        } else if npayload == 1 {
            Ok(SerialType::I8)
        } else if npayload == 2 {
            Ok(SerialType::I16)
        } else if npayload == 3 {
            Ok(SerialType::I24)
        } else if npayload == 4 {
            Ok(SerialType::I32)
        } else if npayload == 5 {
            Ok(SerialType::I48)
        } else if npayload == 6 {
            Ok(SerialType::I64)
        } else if npayload == 7 {
            Ok(SerialType::Float64)
        } else if npayload == 8 {
            Ok(SerialType::Zero)
        } else if npayload == 9 {
            Ok(SerialType::One)
        } else if npayload >= 12 {
            if npayload % 2 == 0 {
                Ok(SerialType::Blob(#[verifier::truncate] (((npayload - 12) / 2) as usize)))
            } else {
                Ok(SerialType::String(#[verifier::truncate] (((npayload - 13) / 2) as usize)))
            }
        } else {
            Err(DbError::InvalidSerialType)
        }
    }

    /// The byte width of this serial type's payload: the fixed width for the
    /// fixed classes, the stored count for blobs and text.
    pub fn length(&self) -> (n: usize)
        ensures
            n == serial_type_length(*self),
    {
        match self {
            SerialType::Null => 0,
            SerialType::I8 => 1,
            SerialType::I16 => 2,
            SerialType::I24 => 3,
            SerialType::I32 => 4,
            SerialType::I48 => 6,
            SerialType::I64 => 8,
            SerialType::Float64 => 8,
            SerialType::Zero => 0,
            SerialType::One => 0,
            SerialType::Blob(len) => *len,
            SerialType::String(len) => *len,
        }
    }
}

/// Every even code from 12 up is a blob type whose length is (code-12)/2,
/// every odd code from 13 up is a text type whose length is (code-13)/2, and
/// codes 10 and 11 always fail.
pub proof fn lemma_serial_type_blob_text(code: i64)
    requires
        code >= 12 ==> (code - 12) / 2 <= usize::MAX,
    ensures
        code >= 12 && code % 2 == 0 ==> (spec_serial_type(code as int) matches Ok(t) && t
            == SerialType::Blob((((code - 12) / 2) as int) as usize) && serial_type_length(t) == (
        code - 12) as int / 2),
        code >= 12 && code % 2 == 1 ==> (spec_serial_type(code as int) matches Ok(t) && t
            == SerialType::String((((code - 13) / 2) as int) as usize) && serial_type_length(t) == (
        code - 13) as int / 2),
        code == 10 || code == 11 ==> spec_serial_type(code as int) == Err::<
            SerialType,
            DbError,
        >(DbError::InvalidSerialType),
{
}

/// One decoded column value.  A `Float64` holds the raw big-endian bit
/// pattern of the stored IEEE 754 number; the crate records it without
/// interpreting it.
#[derive(Debug, Clone, PartialEq, Eq)]
pub enum SerialValue {
    Null,
    I8(i8),
    I16(i16),
    I24(i32),
    I32(i32),
    I48(i64),
    I64(i64),
    Float64(u64),
    Zero,
    One,
    Blob(Vec<u8>),
    String(String),
}

/// The mathematical shape of a decoded column value.
pub enum ValueView {
    Null,
    I8(i8),
    I16(i16),
    I24(i32),
    I32(i32),
    I48(i64),
    I64(i64),
    Float64(u64),
    Zero,
    One,
    Blob(Seq<u8>),
    String(Seq<char>),
}

impl View for SerialValue {
    type V = ValueView;

    open spec fn view(&self) -> ValueView {
        match self {
            SerialValue::Null => ValueView::Null,
            SerialValue::I8(x) => ValueView::I8(*x),
            SerialValue::I16(x) => ValueView::I16(*x),
            SerialValue::I24(x) => ValueView::I24(*x),
            SerialValue::I32(x) => ValueView::I32(*x),
            SerialValue::I48(x) => ValueView::I48(*x),
            SerialValue::I64(x) => ValueView::I64(*x),
            SerialValue::Float64(x) => ValueView::Float64(*x),
            SerialValue::Zero => ValueView::Zero,
            SerialValue::One => ValueView::One,
            SerialValue::Blob(b) => ValueView::Blob(b@),
            SerialValue::String(s) => ValueView::String(s@),
        }
    }
}

/// The text form of a value: decimal digits for the integer classes, the
/// text itself for a text value, and the empty string for the classes that
/// have no text form here (nulls, floats, blobs).
pub open spec fn value_text(v: ValueView) -> Seq<char> {
    match v {
        ValueView::Null => Seq::empty(),
        ValueView::I8(x) => dec_str(x as int),
        ValueView::I16(x) => dec_str(x as int),
        ValueView::I24(x) => dec_str(x as int),
        ValueView::I32(x) => dec_str(x as int),
        ValueView::I48(x) => dec_str(x as int),
        ValueView::I64(x) => dec_str(x as int),
        ValueView::Float64(_) => Seq::empty(),
        ValueView::Zero => dec_str(0),
        ValueView::One => dec_str(1),
        ValueView::Blob(_) => Seq::empty(),
        ValueView::String(t) => t,
    }
}

impl SerialValue {
    /// The text form of this value, as `value_text` describes it.
    pub fn display(&self) -> (s: String)
        ensures
            s@ == value_text(self@),
    {
        match self {
            SerialValue::Null => String::new(),
            SerialValue::I8(x) => i64_to_string(*x as i64),
            SerialValue::I16(x) => i64_to_string(*x as i64),
            SerialValue::I24(x) => i64_to_string(*x as i64),
            SerialValue::I32(x) => i64_to_string(*x as i64),
            SerialValue::I48(x) => i64_to_string(*x),
            SerialValue::I64(x) => i64_to_string(*x),
            SerialValue::Float64(_) => String::new(),
            SerialValue::Zero => i64_to_string(0),
            SerialValue::One => i64_to_string(1),
            SerialValue::Blob(_) => String::new(),
            SerialValue::String(s) => s.clone(),
        }
    }

    /// The text payload of a value already known to be text.
    pub fn unwrap_string(&self) -> (s: String)
        requires
            self@ is String,
        ensures
            ValueView::String(s@) == self@,
    {
        match self {
            SerialValue::String(s) => s.clone(),
            _ => vstd::pervasive::unreached(),
        }
    }
}

/// One decoded record column: its serial type and its value.
#[derive(Debug, Clone, PartialEq, Eq)]
pub struct Column {
    key: SerialType,
    data: SerialValue,
}

/// The mathematical shape of one record column.
pub struct ColumnView {
    pub key: SerialType,
    pub data: ValueView,
}

impl View for Column {
    type V = ColumnView;

    closed spec fn view(&self) -> ColumnView {
        ColumnView { key: self.key, data: self.data@ }
    }
}

impl Column {
    /// Pair a serial type with its decoded value.
    pub fn new(key: SerialType, data: SerialValue) -> (c: Column)
        ensures
            c@.key == key,
            c@.data == data@,
    {
        Column { key, data }
    }

    /// The column's serial type.
    pub fn key(&self) -> (k: &SerialType)
        ensures
            *k == self@.key,
    {
        &self.key
    }

    /// The column's decoded value.
    pub fn data(&self) -> (d: &SerialValue)
        ensures
            d@ == self@.data,
    {
        &self.data
    }
}

} // verus!
