//! Read-only access to the SQLite on-disk file format: the database header,
//! b-tree pages, cells, variable-length integers, record payloads, and the
//! scan / lookup algorithms that walk the page tree.
use vstd::prelude::*;

pub mod cell;
pub mod column;
pub mod database;
pub mod error;
pub mod header;
pub mod page;
pub mod record;
pub mod sql;
pub mod text;
pub mod tree;
pub mod varint;

verus! {

use crate::error::DbError;
use crate::varint::Varint;

/// Decode the variable-length integer at the front of `bytes`, returning the
/// value and the number of bytes consumed.
pub fn decode_varint(bytes: &[u8]) -> (r: Result<(i64, usize), DbError>)
    ensures
        match r {
            Ok(p) => {
                &&& crate::varint::varint_complete(bytes@)
                &&& p.1 == crate::varint::varint_len(bytes@)
                &&& p.0 == crate::varint::varint_value(bytes@)
            },
            Err(e) => {
                &&& e == DbError::OutOfRangeRead
                &&& !crate::varint::varint_complete(bytes@)
            },
        },
{
    proof {
        assert(bytes@.skip(0) =~= bytes@);
    }
    match Varint::read(bytes, 0) {
        Ok((v, n)) => Ok((v.0, n)),
        Err(e) => Err(e),
    }
}

} // verus!
