//! The mathematical model of both searches: the lowest index of the haystack
//! whose byte is (or is not) in the set, as a linear scan from the left would
//! report it.
use vstd::prelude::*;

verus! {

/// Index `i` of `data` is a hit: its byte is in `set` when `member` is true,
/// and outside `set` when `member` is false.
pub open spec fn is_hit(data: Seq<u8>, set: Seq<u8>, member: bool, i: int) -> bool {
    0 <= i < data.len() && set.contains(data[i]) == member
}

/// `i` is a hit and no index before it is one.
pub open spec fn is_first_hit(data: Seq<u8>, set: Seq<u8>, member: bool, i: int) -> bool {
    is_hit(data, set, member, i) && forall|j: int| 0 <= j < i ==> !#[trigger] is_hit(data, set, member, j)
}

/// The lowest hit of `data`, or `None` where there is none.
pub open spec fn first_hit(data: Seq<u8>, set: Seq<u8>, member: bool) -> Option<int> {
    if exists|i: int| is_first_hit(data, set, member, i) {
        Some(choose|i: int| is_first_hit(data, set, member, i))
    } else {
        None
    }
}

/// The lowest index `i` such that `data[i]` appears in `set`.
pub open spec fn first_of(data: Seq<u8>, set: Seq<u8>) -> Option<int> {
    first_hit(data, set, true)
}

/// The lowest index `i` such that `data[i]` does not appear in `set`.
pub open spec fn first_not_of(data: Seq<u8>, set: Seq<u8>) -> Option<int> {
    first_hit(data, set, false)
}

/// An executable search result read as an index of the model.
pub open spec fn as_index(r: Option<usize>) -> Option<int> {
    match r {
        Some(i) => Some(i as int),
        None => None,
    }
}

/// A first hit is the one that `first_hit` reports.
pub proof fn lemma_first_hit_at(data: Seq<u8>, set: Seq<u8>, member: bool, i: int)
    requires
        is_first_hit(data, set, member, i),
    ensures
        first_hit(data, set, member) == Some(i),
{
    let k = choose|k: int| is_first_hit(data, set, member, k);
    assert(is_first_hit(data, set, member, k));
    if k < i {
        assert(!is_hit(data, set, member, k));
    } else if i < k {
        assert(!is_hit(data, set, member, i));
    }
}

/// Without any hit, `first_hit` reports none.
pub proof fn lemma_first_hit_none(data: Seq<u8>, set: Seq<u8>, member: bool)
    requires
        forall|j: int| 0 <= j < data.len() ==> !#[trigger] is_hit(data, set, member, j),
    ensures
        first_hit(data, set, member) == None::<int>,
{
    if exists|i: int| is_first_hit(data, set, member, i) {
        let k = choose|k: int| is_first_hit(data, set, member, k);
        assert(is_hit(data, set, member, k));
    }
}

/// Where `first_hit` reports an index, it is the first hit; where it reports
/// none, there is no hit.
pub proof fn lemma_first_hit_spec(data: Seq<u8>, set: Seq<u8>, member: bool)
    ensures
        match first_hit(data, set, member) {
            Some(i) => is_first_hit(data, set, member, i),
            None => forall|j: int| 0 <= j < data.len() ==> !#[trigger] is_hit(data, set, member, j),
        },
{
    if first_hit(data, set, member) is None {
        assert forall|j: int| 0 <= j < data.len() implies !#[trigger] is_hit(data, set, member, j) by {
            if is_hit(data, set, member, j) {
                lemma_least_hit_exists(data, set, member, j);
            }
        }
    }
}

/// Any hit has a first hit at or before it.
pub proof fn lemma_least_hit_exists(data: Seq<u8>, set: Seq<u8>, member: bool, i: int)
    requires
        is_hit(data, set, member, i),
    ensures
        exists|k: int| k <= i && is_first_hit(data, set, member, k),
    decreases i,
{
    if forall|j: int| 0 <= j < i ==> !#[trigger] is_hit(data, set, member, j) {
        assert(is_first_hit(data, set, member, i));
    } else {
        let j = choose|j: int| 0 <= j < i && #[trigger] is_hit(data, set, member, j);
        lemma_least_hit_exists(data, set, member, j);
    }
}

} // verus!

verus! {

/// Searching a window `lo..hi` of `data` that follows a stretch without a
/// hit: a hit at `i` in the window is the first hit of `data`, at `lo + i`,
/// and no hit in the window means none before `hi`.
pub proof fn lemma_first_hit_window(data: Seq<u8>, set: Seq<u8>, member: bool, lo: int, hi: int)
    requires
        0 <= lo <= hi <= data.len(),
        forall|j: int| 0 <= j < lo ==> !#[trigger] is_hit(data, set, member, j),
    ensures
        match first_hit(data.subrange(lo, hi), set, member) {
            Some(i) => first_hit(data, set, member) == Some(lo + i),
            None => forall|j: int| 0 <= j < hi ==> !#[trigger] is_hit(data, set, member, j),
        },
{
    let w = data.subrange(lo, hi);
    lemma_first_hit_spec(w, set, member);
    assert forall|j: int| 0 <= j < w.len() implies #[trigger] is_hit(w, set, member, j) == is_hit(data, set, member, lo + j) by {
        assert(w[j] == data[lo + j]);
    }
    match first_hit(w, set, member) {
        Some(i) => {
            assert forall|j: int| 0 <= j < lo + i implies !#[trigger] is_hit(data, set, member, j) by {
                if j >= lo {
                    assert(!is_hit(w, set, member, j - lo));
                }
            }
            assert(is_hit(w, set, member, i));
            lemma_first_hit_at(data, set, member, lo + i);
        },
        None => {
            assert forall|j: int| 0 <= j < hi implies !#[trigger] is_hit(data, set, member, j) by {
                if j >= lo {
                    assert(!is_hit(w, set, member, j - lo));
                }
            }
        },
    }
}

} // verus!
