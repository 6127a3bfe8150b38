//! Searches of byte slices for the first byte that is, or is not, one of a
//! set of bytes.
//!
//! Two engines give the same answers: a plain linear scan (`generic`) and an
//! engine that walks the haystack in 16-byte chunks and compares each chunk
//! against the set with one "equal any" compare per 16 bytes of the set
//! (`sse42`). Both are proved equal to the linear-scan model in `model`.
use vstd::prelude::*;

pub mod byte_set;
pub mod generic;
pub mod laws;
pub mod model;
pub mod sse42;

verus! {

use crate::model::{as_index, first_not_of, first_of};

/// Finds the index of the first byte of `data` that is equal to an element
/// of `searched`, or `None` when there is none (also when either slice is
/// empty).
pub fn find_first_of(data: &[u8], searched: &[u8]) -> (r: Option<usize>)
    ensures
        as_index(r) == first_of(data@, searched@),
{
    sse42::find_first_of(data, searched)
}

/// Finds the index of the first byte of `data` that is equal to no element
/// of `not_searched`, or `None` when there is none.
pub fn find_first_not_of(data: &[u8], not_searched: &[u8]) -> (r: Option<usize>)
    ensures
        as_index(r) == first_not_of(data@, not_searched@),
{
    sse42::find_first_not_of(data, not_searched)
}

} // verus!
