//! Laws that both searches obey, stated over the model that their contracts
//! use.
use vstd::prelude::*;
use crate::model::{first_hit, first_not_of, first_of, is_hit, lemma_first_hit_at, lemma_first_hit_none};

verus! {

/// `s` rotated right by `n`: its last `n` bytes, then the rest.
pub open spec fn rotate_right(s: Seq<u8>, n: int) -> Seq<u8> {
    s.subrange(s.len() - n, s.len() as int) + s.subrange(0, s.len() - n)
}

/// A haystack with no byte of `set` has no byte that `first_of` reports.
pub proof fn lemma_first_of_disjoint(data: Seq<u8>, set: Seq<u8>)
    requires
        forall|i: int| 0 <= i < data.len() ==> !set.contains(#[trigger] data[i]),
    ensures
        first_of(data, set) == None::<int>,
{
    assert forall|j: int| 0 <= j < data.len() implies !#[trigger] is_hit(data, set, true, j) by {
        assert(!set.contains(data[j]));
    }
    lemma_first_hit_none(data, set, true);
}

/// A haystack whose bytes are all in `set` has no byte that `first_not_of`
/// reports.
pub proof fn lemma_first_not_of_inside(data: Seq<u8>, set: Seq<u8>)
    requires
        forall|i: int| 0 <= i < data.len() ==> set.contains(#[trigger] data[i]),
    ensures
        first_not_of(data, set) == None::<int>,
{
    assert forall|j: int| 0 <= j < data.len() implies !#[trigger] is_hit(data, set, false, j) by {
        assert(set.contains(data[j]));
    }
    lemma_first_hit_none(data, set, false);
}

/// A prefix without hits, followed by a rotation of a non-empty run of hits:
/// the first hit is where the run starts.
proof fn lemma_first_hit_after_prefix(prefix: Seq<u8>, run: Seq<u8>, set: Seq<u8>, member: bool, n: int)
    requires
        forall|i: int| 0 <= i < prefix.len() ==> set.contains(#[trigger] prefix[i]) != member,
        forall|i: int| 0 <= i < run.len() ==> set.contains(#[trigger] run[i]) == member,
        0 <= n < run.len(),
    ensures
        first_hit(prefix + rotate_right(run, n), set, member) == Some(prefix.len() as int),
{
    let data = prefix + rotate_right(run, n);
    let p = prefix.len() as int;
    let rotated = rotate_right(run, n);
    if n > 0 {
        assert(rotated[0] == run[run.len() - n]);
    } else {
        assert(rotated[0] == run[0]);
    }
    assert(data[p] == rotated[0]);
    assert forall|j: int| 0 <= j < p implies !#[trigger] is_hit(data, set, member, j) by {
        assert(data[j] == prefix[j]);
    }
    lemma_first_hit_at(data, set, member, p);
}

/// A prefix with no byte of `set`, followed by any rotation of a non-empty
/// run of bytes of `set`: the first byte of `set` is where the run starts.
pub proof fn lemma_first_of_after_prefix(prefix: Seq<u8>, run: Seq<u8>, set: Seq<u8>, n: int)
    requires
        forall|i: int| 0 <= i < prefix.len() ==> !set.contains(#[trigger] prefix[i]),
        forall|i: int| 0 <= i < run.len() ==> set.contains(#[trigger] run[i]),
        0 <= n < run.len(),
    ensures
        first_of(prefix + rotate_right(run, n), set) == Some(prefix.len() as int),
{
    lemma_first_hit_after_prefix(prefix, run, set, true, n);
}

/// A prefix of bytes of `set`, followed by any rotation of a non-empty run
/// of bytes outside `set`: the first byte outside `set` is where the run
/// starts.
pub proof fn lemma_first_not_of_after_prefix(prefix: Seq<u8>, run: Seq<u8>, set: Seq<u8>, n: int)
    requires
        forall|i: int| 0 <= i < prefix.len() ==> set.contains(#[trigger] prefix[i]),
        forall|i: int| 0 <= i < run.len() ==> !set.contains(#[trigger] run[i]),
        0 <= n < run.len(),
    ensures
        first_not_of(prefix + rotate_right(run, n), set) == Some(prefix.len() as int),
{
    lemma_first_hit_after_prefix(prefix, run, set, false, n);
}

/// An exclusion set of more than 16 bytes made of two disjoint alphabets `a`
/// and `b`: `first_not_of` never reports a byte that is in either of them,
/// and reports none only when every byte is in one of them.
pub proof fn lemma_first_not_of_split(data: Seq<u8>, a: Seq<u8>, b: Seq<u8>)
    requires
        a.len() + b.len() > 16,
        forall|x: u8| a.contains(x) ==> !b.contains(x),
    ensures
        match first_not_of(data, a + b) {
            Some(i) => 0 <= i < data.len() && !a.contains(data[i]) && !b.contains(data[i]),
            None => forall|i: int| 0 <= i < data.len() ==> a.contains(#[trigger] data[i]) || b.contains(data[i]),
        },
{
    let s = a + b;
    assert forall|x: u8| #[trigger] s.contains(x) <==> (a.contains(x) || b.contains(x)) by {
        if s.contains(x) {
            let k = choose|k: int| 0 <= k < s.len() && s[k] == x;
            if k >= a.len() {
                assert(b[k - a.len()] == x);
            }
        }
        if a.contains(x) {
            let k = choose|k: int| 0 <= k < a.len() && a[k] == x;
            assert(s[k] == x);
        }
        if b.contains(x) {
            let k = choose|k: int| 0 <= k < b.len() && b[k] == x;
            assert(s[a.len() + k] == x);
        }
    }
    crate::model::lemma_first_hit_spec(data, s, false);
    match first_not_of(data, s) {
        Some(i) => {
            assert(is_hit(data, s, false, i));
        },
        None => {
            assert forall|i: int| 0 <= i < data.len() implies a.contains(#[trigger] data[i]) || b.contains(data[i]) by {
                assert(!is_hit(data, s, false, i));
            }
        },
    }
}

} // verus!
