//! `ByteSet`: up to 16 bytes laid out as one 16-byte vector register, with
//! the count of leading bytes that are significant. The register is held as
//! its 16 bytes, and its compares are loops over them.
use vstd::prelude::*;
use crate::model::{as_index, first_hit, first_not_of, first_of, is_hit, lemma_first_hit_at, lemma_first_hit_none};

verus! {

/// The number of bytes in one register.
pub const REGISTER_WIDTH: usize = 16;

/// Why a slice could not become a `ByteSet`.
#[derive(Debug)]
pub enum ByteSetError {
    /// The slice is longer than one register.
    LoadTooBig,
}

/// Up to 16 bytes in one register. Only the first `len` bytes take part in
/// a comparison; the rest are padding.
#[derive(Clone, Copy)]
pub struct ByteSet {
    bytes: [u8; 16],
    len: usize,
}

impl View for ByteSet {
    type V = Seq<u8>;

    /// The significant bytes, in register order.
    closed spec fn view(&self) -> Seq<u8> {
        self.bytes@.subrange(0, self.len as int)
    }
}

impl ByteSet {
    /// The effective length fits in the register.
    pub closed spec fn wf(&self) -> bool {
        self.len <= REGISTER_WIDTH
    }

    /// A well-formed set has at most one register of significant bytes.
    pub proof fn lemma_view_len(&self)
        requires
            self.wf(),
        ensures
            self@.len() <= REGISTER_WIDTH,
    {
    }

    /// The width of the register, in bytes.
    pub fn max_size() -> (r: usize)
        ensures
            r == REGISTER_WIDTH,
    {
        REGISTER_WIDTH
    }

    /// Loads exactly one register's worth of bytes.
    pub fn load_unchecked(v: &[u8]) -> (r: ByteSet)
        requires
            v@.len() == REGISTER_WIDTH,
        ensures
            r.wf(),
            r@ == v@,
    {
        let r = ByteSet::load_partial_unchecked(v);
        assert(v@.take(REGISTER_WIDTH as int) =~= v@);
        r
    }

    /// Loads one full chunk of a haystack that starts on a register
    /// boundary. The bytes are copied, so the result is the same as that of
    /// `load_unchecked`.
    pub fn load_aligned_unchecked(v: &[u8]) -> (r: ByteSet)
        requires
            v@.len() == REGISTER_WIDTH,
        ensures
            r.wf(),
            r@ == v@,
    {
        ByteSet::load_unchecked(v)
    }

    /// Loads at most the first 16 bytes of `v`; the register bytes past them
    /// are zero.
    pub fn load_partial_unchecked(v: &[u8]) -> (r: ByteSet)
        ensures
            r.wf(),
            r@ == v@.take(if v@.len() < REGISTER_WIDTH { v@.len() as int } else { REGISTER_WIDTH as int }),
    {
        let len: usize = if v.len() < REGISTER_WIDTH { v.len() } else { REGISTER_WIDTH };
        let mut bytes: [u8; 16] = [0u8; 16];
        let mut i: usize = 0;
        while i < len
            invariant
                i <= len,
                len <= v@.len(),
                len <= REGISTER_WIDTH,
                forall|j: int| 0 <= j < i ==> bytes@[j] == v@[j],
            decreases len - i,
        {
            bytes[i] = v[i];
            i += 1;
        }
        let r = ByteSet { bytes, len };
        assert(r@ =~= v@.take(len as int));
        r
    }

    /// Builds a set from a slice of at most 16 bytes.
    pub fn try_from(v: &[u8]) -> (r: Result<ByteSet, ByteSetError>)
        ensures
            v@.len() <= REGISTER_WIDTH <==> r is Ok,
            r matches Ok(s) ==> s.wf() && s@ == v@,
    {
        let len = v.len();
        if len == ByteSet::max_size() {
            Ok(ByteSet::load_unchecked(v))
        } else if len < ByteSet::max_size() {
            let r = ByteSet::load_partial_unchecked(v);
            assert(v@.take(len as int) =~= v@);
            Ok(r)
        } else {
            Err(ByteSetError::LoadTooBig)
        }
    }

    /// Whether `b` is one of the significant bytes.
    fn holds(&self, b: u8) -> (r: bool)
        requires
            self.wf(),
        ensures
            r == self@.contains(b),
    {
        let mut j: usize = 0;
        while j < self.len
            invariant
                self.wf(),
                j <= self.len,
                forall|k: int| 0 <= k < j ==> self@[k] != b,
            decreases self.len - j,
        {
            if self.bytes[j] == b {
                assert(self@[j as int] == b);
                return true;
            }
            j += 1;
        }
        false
    }

    /// The "equal any" compare of the set (the needle) with a chunk (the
    /// data): the first index of the chunk whose byte is a member of the set
    /// when `member` holds, or is no member of it when it does not.
    fn compare(&self, data: &ByteSet, member: bool) -> (r: Option<usize>)
        requires
            self.wf(),
            data.wf(),
        ensures
            as_index(r) == first_hit(data@, self@, member),
    {
        let mut i: usize = 0;
        while i < data.len
            invariant
                self.wf(),
                data.wf(),
                i <= data.len,
                forall|j: int| 0 <= j < i ==> !#[trigger] is_hit(data@, self@, member, j),
            decreases data.len - i,
        {
            if self.holds(data.bytes[i]) == member {
                proof {
                    lemma_first_hit_at(data@, self@, member, i as int);
                }
                return Some(i);
            }
            i += 1;
        }
        proof {
            lemma_first_hit_none(data@, self@, member);
        }
        None
    }

    /// The first index of `data` whose byte is one of this set's bytes.
    pub fn find_any_in(&self, data: &ByteSet) -> (r: Option<usize>)
        requires
            self.wf(),
            data.wf(),
        ensures
            as_index(r) == first_of(data@, self@),
    {
        self.compare(data, true)
    }

    /// The first index of `data` whose byte is none of this set's bytes.
    pub fn find_any_not_in(&self, data: &ByteSet) -> (r: Option<usize>)
        requires
            self.wf(),
            data.wf(),
        ensures
            as_index(r) == first_not_of(data@, self@),
    {
        self.compare(data, false)
    }

    /// Drops the first `count` significant bytes (all of them when `count`
    /// is larger) and moves the rest to the front of the register.
    pub fn shift_right(&mut self, count: usize)
        requires
            old(self).wf(),
        ensures
            final(self).wf(),
            final(self)@ == old(self)@.skip(if count < old(self)@.len() { count as int } else { old(self)@.len() as int }),
    {
        let n: usize = if count < self.len { count } else { self.len };
        let mut bytes: [u8; 16] = [0u8; 16];
        let mut i: usize = 0;
        while i + n < REGISTER_WIDTH
            invariant
                n <= self.len <= REGISTER_WIDTH,
                i + n <= REGISTER_WIDTH,
                forall|j: int| 0 <= j < i ==> bytes@[j] == self.bytes@[j + n],
            decreases REGISTER_WIDTH - i,
        {
            bytes[i] = self.bytes[i + n];
            i += 1;
        }
        let ghost before = self@;
        self.bytes = bytes;
        self.len = self.len - n;
        assert(self@ =~= before.skip(n as int));
    }

    /// The significant byte at `index`, if there is one.
    pub fn get_byte(&self, index: usize) -> (r: Option<u8>)
        requires
            self.wf(),
        ensures
            r == (if index < self@.len() { Some(self@[index as int]) } else { None::<u8> }),
    {
        if index >= self.len {
            return None;
        }
        Some(self.bytes[index])
    }
}

} // verus!
