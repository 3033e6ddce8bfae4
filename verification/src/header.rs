//! The bare page-size view of the file header, for callers that need
//! nothing else from it.
use vstd::prelude::*;

use crate::record::{be_bytes, lemma_be_bytes_bound, lemma_pow256_unfold, read_be};

verus! {

/// The page size alone, read from the file header.
pub struct Header {
    pub page_size: usize,
}

impl Header {
    /// Read the big-endian page size at byte offset 16 of the file header.
    pub fn new(data: &[u8]) -> (h: Header)
        requires
            data@.len() >= 18,
        ensures
            h.page_size == be_bytes(data@, 16, 2),
    {
        proof {
            lemma_pow256_unfold();
            lemma_be_bytes_bound(data@, 16, 2);
        }
        let page_size = read_be(data, 16, 2) as usize;
        Header { page_size }
    }
}

} // verus!
