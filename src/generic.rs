//! The plain linear scan: one byte at a time, from the left.
use vstd::prelude::*;
use crate::model::{as_index, first_hit, first_not_of, first_of, is_hit, lemma_first_hit_at, lemma_first_hit_none};

verus! {

/// Whether `set` holds `b`.
pub fn contains_byte(set: &[u8], b: u8) -> (r: bool)
    ensures
        r == set@.contains(b),
{
    let mut i: usize = 0;
    while i < set.len()
        invariant
            i <= set.len(),
            forall|j: int| 0 <= j < i ==> set@[j] != b,
        decreases set.len() - i,
    {
        if set[i] == b {
            return true;
        }
        i += 1;
    }
    false
}

/// The first index of `data` whose byte is in `set` (when `member`) or
/// outside it (when not).
fn scan(data: &[u8], set: &[u8], member: bool) -> (r: Option<usize>)
    ensures
        as_index(r) == first_hit(data@, set@, member),
{
    let mut i: usize = 0;
    while i < data.len()
        invariant
            i <= data.len(),
            forall|j: int| 0 <= j < i ==> !#[trigger] is_hit(data@, set@, member, j),
        decreases data.len() - i,
    {
        if contains_byte(set, data[i]) == member {
            proof {
                lemma_first_hit_at(data@, set@, member, i as int);
            }
            return Some(i);
        }
        i += 1;
    }
    proof {
        lemma_first_hit_none(data@, set@, member);
    }
    None
}

/// Finds the index of the first byte of `data` that is equal to an element
/// of `searched`.
pub fn find_first_of(data: &[u8], searched: &[u8]) -> (r: Option<usize>)
    ensures
        as_index(r) == first_of(data@, searched@),
{
    scan(data, searched, true)
}

/// Finds the index of the first byte of `data` that is equal to no element
/// of `not_searched`.
pub fn find_first_not_of(data: &[u8], not_searched: &[u8]) -> (r: Option<usize>)
    ensures
        as_index(r) == first_not_of(data@, not_searched@),
{
    scan(data, not_searched, false)
}

} // verus!
