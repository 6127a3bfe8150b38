//! The chunked engine. A haystack is walked in chunks of at most 16 bytes,
//! and each chunk is compared with the set by the "equal any" compare of
//! `ByteSet`: the compare with explicit lengths that SSE4.2's string
//! instructions make, here written over the register's bytes. A set longer
//! than 16 bytes is split into 16-byte parts.
use vstd::prelude::*;
use vstd::slice::slice_subrange;
use smallvec::SmallVec;
use crate::byte_set::{ByteSet, REGISTER_WIDTH};
use crate::generic::contains_byte;
use crate::model::{
    as_index, first_hit, first_not_of, first_of, is_hit, lemma_first_hit_at,
    lemma_first_hit_none, lemma_first_hit_spec, lemma_first_hit_window,
};

verus! {

/// The parts of a split set, in a `SmallVec` that holds two parts without
/// a heap allocation.
#[verifier::external_body]
pub struct Parts {
    inner: SmallVec<[ByteSet; 2]>,
}

/// The parts held, in order.
pub uninterp spec fn parts_of(v: Parts) -> Seq<ByteSet>;

/// Relies on `SmallVec::from_vec`: the result holds the items of `v`, in
/// order.
#[verifier::external_body]
fn parts_from_vec(v: Vec<ByteSet>) -> (r: Parts)
    ensures
        parts_of(r) == v@,
{
    Parts { inner: SmallVec::from_vec(v) }
}

/// Relies on `SmallVec::len`: the number of items held.
#[verifier::external_body]
fn parts_len(v: &Parts) -> (r: usize)
    ensures
        r == parts_of(*v).len(),
{
    v.inner.len()
}

/// Relies on indexing a `SmallVec` (through its slice): the item at `i`.
#[verifier::external_body]
fn part_at(v: &Parts, i: usize) -> (r: ByteSet)
    requires
        i < parts_of(*v).len(),
    ensures
        r == parts_of(*v)[i as int],
{
    v.inner[i]
}

/// Relies on `<*const u8>::align_offset`: the number of bytes before the
/// first address in `data` that is a multiple of 16. Nothing is stated of
/// it: it depends on where `data` lies in memory.
#[verifier::external_body]
fn align_offset(data: &[u8]) -> (r: usize) {
    data.as_ptr().align_offset(REGISTER_WIDTH)
}

/// The parts held behind a reference.
pub open spec fn parts_in(v: &Parts) -> Seq<ByteSet> {
    parts_of(*v)
}

/// `b` is in one of `parts`.
pub open spec fn in_parts(parts: Seq<ByteSet>, b: u8) -> bool {
    exists|k: int| 0 <= k < parts.len() && (#[trigger] parts[k]@.contains(b))
}

/// `parts` are well formed, each of their bytes is in `set`, and each byte
/// of `set` is in one of them: a byte is in `set` exactly when it is in one
/// of the parts.
pub open spec fn covers(parts: Seq<ByteSet>, set: Seq<u8>) -> bool {
    &&& forall|k: int| 0 <= k < parts.len() ==> (#[trigger] parts[k]).wf()
    &&& forall|k: int, b: u8| 0 <= k < parts.len() && (#[trigger] parts[k]@.contains(b)) ==> set.contains(b)
    &&& forall|b: u8| #[trigger] set.contains(b) ==> in_parts(parts, b)
}

/// Splits `set` into consecutive parts of 16 bytes, the last one shorter.
fn split_parts(set: &[u8]) -> (r: Parts)
    ensures
        covers(parts_of(r), set@),
{
    let mut parts: Vec<ByteSet> = Vec::new();
    let mut start: usize = 0;
    while start < set.len()
        invariant
            start <= set@.len(),
            forall|k: int| 0 <= k < parts@.len() ==> (#[trigger] parts@[k]).wf(),
            forall|k: int, b: u8| 0 <= k < parts@.len() && (#[trigger] parts@[k]@.contains(b)) ==> set@.contains(b),
            forall|i: int| 0 <= i < start ==> in_parts(parts@, #[trigger] set@[i]),
        decreases set@.len() - start,
    {
        let end: usize = if set.len() - start < REGISTER_WIDTH { set.len() } else { start + REGISTER_WIDTH };
        let part = ByteSet::load_partial_unchecked(slice_subrange(set, start, end));
        assert(part@ =~= set@.subrange(start as int, end as int));
        let ghost old_parts = parts@;
        parts.push(part);
        let ghost last = old_parts.len() as int;
        assert forall|k: int, b: u8| 0 <= k < parts@.len() && (#[trigger] parts@[k]@.contains(b)) implies set@.contains(b) by {
            if k == last {
                let x = choose|x: int| 0 <= x < part@.len() && part@[x] == b;
                assert(set@[start + x] == b);
            } else {
                assert(old_parts[k] == parts@[k]);
            }
        }
        assert forall|i: int| 0 <= i < end implies in_parts(parts@, #[trigger] set@[i]) by {
            if i < start {
                let k = choose|k: int| 0 <= k < old_parts.len() && (#[trigger] old_parts[k]@.contains(set@[i]));
                assert(parts@[k] == old_parts[k]);
            } else {
                assert(part@[i - start] == set@[i]);
                assert(parts@[last]@.contains(set@[i]));
            }
        }
        start = end;
    }
    let r = parts_from_vec(parts);
    assert forall|b: u8| #[trigger] set@.contains(b) implies in_parts(parts_of(r), b) by {
        let i = choose|i: int| 0 <= i < set@.len() && set@[i] == b;
        assert(in_parts(parts@, set@[i]));
    }
    r
}

/// Walks `data` chunk by chunk and returns the first index at which
/// `finder` reports a hit, counted from the start of `data`. `finder`
/// must report the first hit of its chunk against `set`, by membership or
/// non-membership as `member` says.
///
/// A haystack of at most 16 bytes is one chunk. A longer one is walked as
/// the bytes before its first 16-byte boundary, then the full chunks from
/// there, then what remains.
fn find_with<F: Fn(ByteSet) -> Option<usize>>(
    data: &[u8],
    finder: F,
    set: Ghost<Seq<u8>>,
    member: Ghost<bool>,
) -> (r: Option<usize>)
    requires
        forall|c: ByteSet| c.wf() ==> #[trigger] finder.requires((c,)),
        forall|c: ByteSet, x: Option<usize>|
            c.wf() && #[trigger] finder.ensures((c,), x) ==> as_index(x) == first_hit(c@, set@, member@),
    ensures
        as_index(r) == first_hit(data@, set@, member@),
{
    let data_len = data.len();
    if data_len <= ByteSet::max_size() {
        let chunk = if data_len == ByteSet::max_size() {
            ByteSet::load_unchecked(data)
        } else {
            ByteSet::load_partial_unchecked(data)
        };
        assert(chunk@ =~= data@);
        return finder(chunk);
    }
    let mut offset: usize = align_offset(data);
    if offset >= ByteSet::max_size() {
        // No boundary within the first register: start with full chunks.
        offset = 0;
    }
    if offset != 0 {
        let chunk = ByteSet::load_partial_unchecked(slice_subrange(data, 0, offset));
        proof {
            assert(chunk@ =~= data@.subrange(0, offset as int));
            lemma_first_hit_window(data@, set@, member@, 0, offset as int);
        }
        if let Some(index) = finder(chunk) {
            return Some(index);
        }
    }
    while data_len - offset >= ByteSet::max_size()
        invariant
            data_len == data@.len(),
            offset <= data_len,
            forall|c: ByteSet| c.wf() ==> #[trigger] finder.requires((c,)),
            forall|c: ByteSet, x: Option<usize>|
                c.wf() && #[trigger] finder.ensures((c,), x) ==> as_index(x) == first_hit(c@, set@, member@),
            forall|j: int| 0 <= j < offset ==> !#[trigger] is_hit(data@, set@, member@, j),
        decreases data_len - offset,
    {
        let end = offset + ByteSet::max_size();
        let chunk = ByteSet::load_aligned_unchecked(slice_subrange(data, offset, end));
        proof {
            lemma_first_hit_window(data@, set@, member@, offset as int, end as int);
        }
        if let Some(index) = finder(chunk) {
            return Some(offset + index);
        }
        offset = end;
    }
    if offset < data_len {
        let chunk = ByteSet::load_partial_unchecked(slice_subrange(data, offset, data_len));
        proof {
            assert(chunk@ =~= data@.subrange(offset as int, data_len as int));
            lemma_first_hit_window(data@, set@, member@, offset as int, data_len as int);
        }
        if let Some(index) = finder(chunk) {
            return Some(offset + index);
        }
    }
    proof {
        lemma_first_hit_none(data@, set@, member@);
    }
    None
}

/// `find_first_of` for a set that fits in one register.
fn find_first_of_small(data: &[u8], searched: &[u8]) -> (r: Option<usize>)
    requires
        searched@.len() <= REGISTER_WIDTH,
    ensures
        as_index(r) == first_of(data@, searched@),
{
    let searched = ByteSet::try_from(searched).unwrap();
    let finder = |chunk: ByteSet| -> (x: Option<usize>)
        requires
            chunk.wf(),
        ensures
            as_index(x) == first_of(chunk@, searched@),
    {
        searched.find_any_in(&chunk)
    };
    find_with(data, finder, Ghost(searched@), Ghost(true))
}

/// `find_first_of` for a set split into parts: the lowest index that any
/// part reports.
fn find_first_of_large(data: &[u8], searched: &[u8]) -> (r: Option<usize>)
    ensures
        as_index(r) == first_of(data@, searched@),
{
    let parts = &split_parts(searched);
    let finder = |chunk: ByteSet| -> (x: Option<usize>)
        requires
            chunk.wf(),
        ensures
            as_index(x) == first_of(chunk@, searched@),
    {
        let n = parts_len(parts);
        let mut best: Option<usize> = None;
        let mut k: usize = 0;
        while k < n
            invariant
                chunk.wf(),
                covers(parts_in(parts), searched@),
                n == parts_in(parts).len(),
                k <= n,
                best matches Some(m) ==> m < chunk@.len() && searched@.contains(chunk@[m as int]),
                forall|k2: int, j: int|
                    0 <= k2 < k && 0 <= j < chunk@.len() && (best matches Some(m) ==> j < m)
                        ==> !(#[trigger] parts_in(parts)[k2]@.contains(chunk@[j])),
            decreases n - k,
        {
            let part = part_at(parts, k);
            let found = part.find_any_in(&chunk);
            proof {
                lemma_first_hit_spec(chunk@, part@, true);
            }
            if let Some(i) = found {
                proof {
                    assert(is_hit(chunk@, part@, true, i as int));
                    assert(parts_in(parts)[k as int]@.contains(chunk@[i as int]));
                }
                let lower = match best {
                    Some(m) => i < m,
                    None => true,
                };
                if lower {
                    best = Some(i);
                }
            }
            proof {
                assert forall|k2: int, j: int|
                    0 <= k2 < k + 1 && 0 <= j < chunk@.len() && (best matches Some(m) ==> j < m)
                        implies !(#[trigger] parts_in(parts)[k2]@.contains(chunk@[j])) by {
                    if k2 == k {
                        assert(!is_hit(chunk@, part@, true, j));
                    }
                }
            }
            k += 1;
        }
        proof {
            assert forall|j: int|
                0 <= j < chunk@.len() && (best matches Some(m) ==> j < m)
                    implies !#[trigger] is_hit(chunk@, searched@, true, j) by {
                if searched@.contains(chunk@[j]) {
                    let k2 = choose|k2: int| 0 <= k2 < parts_in(parts).len() && (#[trigger] parts_in(parts)[k2]@.contains(chunk@[j]));
                }
            }
            match best {
                Some(m) => lemma_first_hit_at(chunk@, searched@, true, m as int),
                None => lemma_first_hit_none(chunk@, searched@, true),
            }
        }
        best
    };
    find_with(data, finder, Ghost(searched@), Ghost(true))
}

/// `find_first_not_of` for an exclusion set that fits in one register.
pub fn find_first_not_of_small(data: &[u8], searched: &[u8]) -> (r: Option<usize>)
    requires
        searched@.len() <= REGISTER_WIDTH,
    ensures
        as_index(r) == first_not_of(data@, searched@),
{
    let searched = ByteSet::try_from(searched).unwrap();
    let finder = |chunk: ByteSet| -> (x: Option<usize>)
        requires
            chunk.wf(),
        ensures
            as_index(x) == first_not_of(chunk@, searched@),
    {
        searched.find_any_not_in(&chunk)
    };
    find_with(data, finder, Ghost(searched@), Ghost(false))
}

/// `find_first_not_of` for an exclusion set split into parts.
///
/// A byte is a hit only when it is in none of the parts, so one part's
/// first non-member is only a candidate. In each chunk, every part nominates
/// its first non-member; all bytes before the latest nominee are members of
/// the part that nominated it. That nominee is then tested against the whole
/// set: if it is a member too, the chunk is shifted past it and the parts
/// are asked again.
pub fn find_first_not_of_large(data: &[u8], not_searched: &[u8]) -> (r: Option<usize>)
    ensures
        as_index(r) == first_not_of(data@, not_searched@),
{
    let parts = &split_parts(not_searched);
    let finder = |chunk: ByteSet| -> (x: Option<usize>)
        requires
            chunk.wf(),
        ensures
            as_index(x) == first_not_of(chunk@, not_searched@),
    {
        let mut rest = chunk;
        let mut shifted: usize = 0;
        loop
            invariant
                chunk.wf(),
                rest.wf(),
                covers(parts_in(parts), not_searched@),
                shifted <= chunk@.len(),
                rest@ == chunk@.skip(shifted as int),
                forall|j: int| 0 <= j < shifted ==> not_searched@.contains(#[trigger] chunk@[j]),
            decreases rest@.len(),
        {
            let n = parts_len(parts);
            let mut max: usize = 0;
            let mut k: usize = 0;
            while k < n
                invariant
                    chunk.wf(),
                    rest.wf(),
                    covers(parts_in(parts), not_searched@),
                    shifted <= chunk@.len(),
                    rest@ == chunk@.skip(shifted as int),
                    forall|j: int| 0 <= j < shifted ==> not_searched@.contains(#[trigger] chunk@[j]),
                    n == parts_in(parts).len(),
                    k <= n,
                    k == 0 ==> max == 0,
                    k > 0 ==> max < rest@.len(),
                    forall|j: int| 0 <= j < max ==> not_searched@.contains(#[trigger] rest@[j]),
                decreases n - k,
            {
                let part = part_at(parts, k);
                let found = part.find_any_not_in(&rest);
                proof {
                    lemma_first_hit_spec(rest@, part@, false);
                }
                match found {
                    None => {
                        proof {
                            assert forall|j: int| 0 <= j < chunk@.len()
                                implies !#[trigger] is_hit(chunk@, not_searched@, false, j) by {
                                if j >= shifted {
                                    assert(rest@[j - shifted] == chunk@[j]);
                                    assert(!is_hit(rest@, part@, false, j - shifted));
                                    assert(parts_in(parts)[k as int]@.contains(rest@[j - shifted]));
                                }
                            }
                            lemma_first_hit_none(chunk@, not_searched@, false);
                        }
                        return None;
                    },
                    Some(i) => {
                        assert(is_hit(rest@, part@, false, i as int));
                        if i > max {
                            proof {
                                assert forall|j: int| 0 <= j < i
                                    implies not_searched@.contains(#[trigger] rest@[j]) by {
                                    assert(!is_hit(rest@, part@, false, j));
                                    assert(parts_in(parts)[k as int]@.contains(rest@[j]));
                                }
                            }
                            max = i;
                        }
                    },
                }
                k += 1;
            }
            match rest.get_byte(max) {
                None => {
                    proof {
                        assert forall|j: int| 0 <= j < chunk@.len()
                            implies !#[trigger] is_hit(chunk@, not_searched@, false, j) by {
                            if j >= shifted {
                                assert(rest@[j - shifted] == chunk@[j]);
                            }
                        }
                        lemma_first_hit_none(chunk@, not_searched@, false);
                    }
                    return None;
                },
                Some(b) => {
                    proof {
                        rest.lemma_view_len();
                        chunk.lemma_view_len();
                    }
                    if !contains_byte(not_searched, b) {
                        proof {
                            assert(chunk@[shifted + max] == b);
                            assert forall|j: int| 0 <= j < shifted + max
                                implies !#[trigger] is_hit(chunk@, not_searched@, false, j) by {
                                if j >= shifted {
                                    assert(rest@[j - shifted] == chunk@[j]);
                                }
                            }
                            lemma_first_hit_at(chunk@, not_searched@, false, shifted + max);
                        }
                        return Some(shifted + max);
                    }
                    let ghost before = rest@;
                    rest.shift_right(max + 1);
                    proof {
                        assert(rest@ =~= chunk@.skip(shifted + max + 1));
                        assert forall|j: int| 0 <= j < shifted + max + 1
                            implies not_searched@.contains(#[trigger] chunk@[j]) by {
                            if j >= shifted {
                                assert(before[j - shifted] == chunk@[j]);
                            }
                        }
                    }
                    shifted = shifted + max + 1;
                },
            }
        }
    };
    find_with(data, finder, Ghost(not_searched@), Ghost(false))
}

/// Finds the index of the first byte of `data` that is equal to an element
/// of `searched`.
pub fn find_first_of(data: &[u8], searched: &[u8]) -> (r: Option<usize>)
    ensures
        as_index(r) == first_of(data@, searched@),
{
    if searched.len() <= ByteSet::max_size() {
        find_first_of_small(data, searched)
    } else {
        find_first_of_large(data, searched)
    }
}

/// Finds the index of the first byte of `data` that is equal to no element
/// of `not_searched`.
pub fn find_first_not_of(data: &[u8], not_searched: &[u8]) -> (r: Option<usize>)
    ensures
        as_index(r) == first_not_of(data@, not_searched@),
{
    if not_searched.len() <= ByteSet::max_size() {
        find_first_not_of_small(data, not_searched)
    } else {
        find_first_not_of_large(data, not_searched)
    }
}

} // verus!
