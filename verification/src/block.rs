//! Deduplicated, reference-counted storage of byte blocks addressed by
//! content digest. The backing data region is append-only: block bytes are
//! written once and never moved or erased.
use vstd::prelude::*;
use crate::hashing::digest_of;

verus! {

/// Errors of the block layer.
#[derive(Debug)]
pub enum BlockError {
    /// The requested digest is not in the block index.
    BlockNotFound(Vec<u8>),
    /// A block's reference count is at its maximum and cannot grow.
    TooManyReferences,
}

/// Location, length and reference count of one indexed block.
#[derive(Clone, Copy, Debug, PartialEq, Eq, Structural)]
pub struct BlockInfo {
    pub offset: u64,
    pub size: u32,
    pub ref_count: u32,
}

/// One block index entry: a digest and the record kept under it.
pub struct BlockEntry {
    pub digest: Vec<u8>,
    pub info: BlockInfo,
}

/// Mathematical image of one index entry.
pub ghost struct EntryV {
    pub digest: Seq<u8>,
    pub offset: int,
    pub size: int,
    pub count: int,
}

/// Mathematical image of a block store: the bytes of the backing data
/// region and the index entries over it.
pub ghost struct StoreV {
    pub data: Seq<u8>,
    pub entries: Seq<EntryV>,
    pub modified: bool,
}

pub open spec fn has_digest(es: Seq<EntryV>, d: Seq<u8>) -> bool {
    exists|i: int| 0 <= i < es.len() && es[i].digest == d
}

/// The position of the entry keyed by `d`; meaningful only under
/// `has_digest` and distinct keys.
pub open spec fn idx_of(es: Seq<EntryV>, d: Seq<u8>) -> int {
    choose|i: int| 0 <= i < es.len() && es[i].digest == d
}

/// The reference count kept under `d`, 0 when absent.
pub open spec fn count_of(es: Seq<EntryV>, d: Seq<u8>) -> int {
    if has_digest(es, d) {
        es[idx_of(es, d)].count
    } else {
        0
    }
}

/// Sum of the sizes of all indexed blocks.
pub open spec fn sum_sizes(es: Seq<EntryV>) -> int
    decreases es.len(),
{
    if es.len() == 0 {
        0
    } else {
        sum_sizes(es.drop_last()) + es.last().size
    }
}

pub open spec fn entry_wf(e: EntryV, data_len: int) -> bool {
    &&& e.digest.len() == crate::DIGEST_LEN
    &&& 0 <= e.offset
    &&& 0 <= e.size <= u32::MAX
    &&& e.offset + e.size <= data_len
    &&& 1 <= e.count <= u32::MAX
}

impl StoreV {
    /// Structural well-formedness: distinct keys, ranges inside the data
    /// region, positive bounded counts, and indexed sizes bounded by the
    /// data region (block ranges never alias).
    pub open spec fn wf(self) -> bool {
        &&& forall|i: int, j: int|
            0 <= i < j < self.entries.len() ==> self.entries[i].digest != self.entries[j].digest
        &&& forall|i: int|
            0 <= i < self.entries.len() ==> entry_wf(
                #[trigger] self.entries[i],
                self.data.len() as int,
            )
        &&& sum_sizes(self.entries) <= self.data.len()
    }

    pub open spec fn has(self, d: Seq<u8>) -> bool {
        has_digest(self.entries, d)
    }

    pub open spec fn count(self, d: Seq<u8>) -> int {
        count_of(self.entries, d)
    }

    /// The bytes stored under an indexed digest.
    pub open spec fn content_at(self, d: Seq<u8>) -> Seq<u8> {
        let e = self.entries[idx_of(self.entries, d)];
        self.data.subrange(e.offset, e.offset + e.size)
    }

    /// Every indexed entry holds the digest of the bytes stored under it.
    pub open spec fn consistent(self) -> bool {
        forall|i: int|
            0 <= i < self.entries.len() ==> digest_of(
                self.data.subrange(
                    (#[trigger] self.entries[i]).offset,
                    self.entries[i].offset + self.entries[i].size,
                ),
            ) == self.entries[i].digest
    }

    /// Storing one block: a known digest only gains a reference; a new
    /// digest appends the bytes and is indexed with one reference.
    pub open spec fn store_block_v(self, c: Seq<u8>) -> StoreV {
        let d = digest_of(c);
        if has_digest(self.entries, d) {
            let i = idx_of(self.entries, d);
            let e = self.entries[i];
            StoreV {
                data: self.data,
                entries: self.entries.update(
                    i,
                    EntryV { digest: e.digest, offset: e.offset, size: e.size, count: e.count + 1 },
                ),
                modified: true,
            }
        } else {
            StoreV {
                data: self.data + c,
                entries: self.entries.push(
                    EntryV {
                        digest: d,
                        offset: self.data.len() as int,
                        size: c.len() as int,
                        count: 1,
                    },
                ),
                modified: true,
            }
        }
    }

    /// Releasing one reference of an indexed digest: the entry leaves the
    /// index when its count reaches zero; the data region never changes.
    pub open spec fn release_v(self, d: Seq<u8>) -> StoreV {
        let i = idx_of(self.entries, d);
        let e = self.entries[i];
        if e.count == 1 {
            StoreV { data: self.data, entries: self.entries.remove(i), modified: true }
        } else {
            StoreV {
                data: self.data,
                entries: self.entries.update(
                    i,
                    EntryV { digest: e.digest, offset: e.offset, size: e.size, count: e.count - 1 },
                ),
                modified: true,
            }
        }
    }
}

pub open spec fn entries_view(s: Seq<BlockEntry>) -> Seq<EntryV> {
    Seq::new(s.len(), |i: int| s[i]@)
}

impl View for BlockEntry {
    type V = EntryV;

    open spec fn view(&self) -> EntryV {
        EntryV {
            digest: self.digest@,
            offset: self.info.offset as int,
            size: self.info.size as int,
            count: self.info.ref_count as int,
        }
    }
}

/// The block store: an in-memory image of the append-only data region and
/// the digest-keyed index over it.
pub struct BlockStore {
    data: Vec<u8>,
    index: Vec<BlockEntry>,
    modified: bool,
}

impl View for BlockStore {
    type V = StoreV;

    closed spec fn view(&self) -> StoreV {
        StoreV { data: self.data@, entries: entries_view(self.index@), modified: self.modified }
    }
}

/// Byte-for-byte equality of two byte slices.
pub fn bytes_eq(a: &[u8], b: &[u8]) -> (r: bool)
    ensures
        r <==> a@ == b@,
{
    if a.len() != b.len() {
        return false;
    }
    for k in 0..a.len()
        invariant
            a@.len() == b@.len(),
            forall|j: int| 0 <= j < k ==> a@[j] == b@[j],
    {
        if a[k] != b[k] {
            return false;
        }
    }
    proof {
        assert(a@ =~= b@);
    }
    true
}

/// Sum of the sizes of any prefix is bounded by the sum over all entries,
/// sizes being nonnegative.
pub proof fn lemma_sum_prefix(es: Seq<EntryV>, n: int)
    requires
        0 <= n <= es.len(),
        forall|i: int| 0 <= i < es.len() ==> (#[trigger] es[i]).size >= 0,
    ensures
        sum_sizes(es.subrange(0, n)) <= sum_sizes(es),
    decreases es.len() - n,
{
    if n == es.len() {
        assert(es.subrange(0, n) =~= es);
    } else {
        lemma_sum_prefix(es, n + 1);
        assert(es.subrange(0, n + 1).drop_last() =~= es.subrange(0, n));
        assert(es.subrange(0, n + 1).last() == es[n]);
    }
}

/// Removing an entry lowers the size sum by exactly that entry's size.
pub proof fn lemma_sum_remove(es: Seq<EntryV>, i: int)
    requires
        0 <= i < es.len(),
    ensures
        sum_sizes(es.remove(i)) == sum_sizes(es) - es[i].size,
    decreases es.len(),
{
    if i == es.len() - 1 {
        assert(es.remove(i) =~= es.drop_last());
    } else {
        lemma_sum_remove(es.drop_last(), i);
        assert(es.remove(i).drop_last() =~= es.drop_last().remove(i));
        assert(es.remove(i).last() == es.last());
    }
}

/// Replacing an entry by one of the same size keeps the size sum.
pub proof fn lemma_sum_update_same_size(es: Seq<EntryV>, i: int, e: EntryV)
    requires
        0 <= i < es.len(),
        e.size == es[i].size,
    ensures
        sum_sizes(es.update(i, e)) == sum_sizes(es),
    decreases es.len(),
{
    if i == es.len() - 1 {
        assert(es.update(i, e).drop_last() =~= es.drop_last());
    } else {
        lemma_sum_update_same_size(es.drop_last(), i, e);
        assert(es.update(i, e).drop_last() =~= es.drop_last().update(i, e));
        assert(es.update(i, e).last() == es.last());
    }
}


/// Whether a loaded entry is acceptable given the entries already kept:
/// a 32-byte digest not yet present, a positive count, a range inside the
/// data region, and a size that keeps the kept sizes within it.
pub open spec fn entry_ok(e: EntryV, prev: Seq<EntryV>, dl: int) -> bool {
    &&& e.digest.len() == 32
    &&& e.offset + e.size <= dl
    &&& 1 <= e.count
    &&& !has_digest(prev, e.digest)
    &&& sum_sizes(prev) + e.size <= dl
}

/// The entries kept by a lenient load: each malformed or conflicting
/// entry is skipped, the rest are kept in order.
pub open spec fn sanitize_v(es: Seq<EntryV>, dl: int) -> Seq<EntryV>
    decreases es.len(),
{
    if es.len() == 0 {
        Seq::empty()
    } else {
        let prev = sanitize_v(es.drop_last(), dl);
        if entry_ok(es.last(), prev, dl) {
            prev.push(es.last())
        } else {
            prev
        }
    }
}

/// A well-formed index passes the lenient load untouched.
pub proof fn lemma_sanitize_identity(es: Seq<EntryV>, dl: int)
    requires
        forall|i: int, j: int| 0 <= i < j < es.len() ==> es[i].digest != es[j].digest,
        forall|i: int| 0 <= i < es.len() ==> entry_wf(#[trigger] es[i], dl),
        sum_sizes(es) <= dl,
    ensures
        sanitize_v(es, dl) == es,
    decreases es.len(),
{
    if es.len() > 0 {
        let prev = es.drop_last();
        assert forall|i: int| 0 <= i < prev.len() implies entry_wf(#[trigger] prev[i], dl) by {
            assert(prev[i] == es[i]);
        }
        assert(sum_sizes(es) == sum_sizes(prev) + es.last().size);
        lemma_sanitize_identity(prev, dl);
        assert(!has_digest(prev, es.last().digest)) by {
            if has_digest(prev, es.last().digest) {
                let w = idx_of(prev, es.last().digest);
                assert(prev[w] == es[w]);
                assert(es[w].digest != es[es.len() - 1].digest);
            }
        }
        assert(entry_ok(es.last(), prev, dl));
        assert(prev.push(es.last()) =~= es);
    }
}

impl BlockStore {
    /// A fresh store: empty data region, empty index, not yet modified.
    pub fn new() -> (s: Self)
        ensures
            s@.wf(),
            s@.consistent(),
            s@.entries.len() == 0,
            s@.data.len() == 0,
            !s@.modified,
    {
        BlockStore { data: Vec::new(), index: Vec::new(), modified: false }
    }

    /// Relies on blake3::hash: a 32-byte digest that depends on the input
    /// bytes alone.
    #[verifier::external_body]
    pub fn hash_block(data: &[u8]) -> (r: Vec<u8>)
        ensures
            r@ == digest_of(data@),
            r@.len() == 32,
    {
        blake3::hash(data).as_bytes().to_vec()
    }

    /// The position of the entry keyed by `digest`, if any.
    fn find(&self, digest: &[u8]) -> (r: Option<usize>)
        ensures
            match r {
                Some(i) => i < self@.entries.len() && self@.entries[i as int].digest == digest@,
                None => !self@.has(digest@),
            },
    {
        let n = self.index.len();
        for i in 0..n
            invariant
                n == self.index@.len(),

                forall|j: int| 0 <= j < i ==> entries_view(self.index@)[j].digest != digest@,
        {
            if bytes_eq(self.index[i].digest.as_slice(), digest) {
                return Some(i);
            }
        }
        None
    }

    /// Store one block. A digest already indexed gains one reference and
    /// the data region is unchanged; a new digest has its bytes appended
    /// and is indexed with one reference. Fails exactly when the block is
    /// already indexed with the maximal reference count.
    pub fn store_block(&mut self, data: &[u8]) -> (r: Result<Vec<u8>, BlockError>)
        requires
            old(self)@.wf(),
            data@.len() <= u32::MAX,
        ensures
            final(self)@.wf(),
            old(self)@.consistent() ==> final(self)@.consistent(),
            (r is Err) <==> (old(self)@.has(digest_of(data@)) && old(self)@.count(digest_of(data@))
                == u32::MAX),
            r matches Ok(d) ==> d@ == digest_of(data@) && d@.len() == 32 && final(self)@ == old(
                self,
            )@.store_block_v(data@),
            r is Err ==> *final(self) == *old(self),
    {
        let digest = Self::hash_block(data);
        let ghost d = digest_of(data@);
        match self.find(digest.as_slice()) {
            Some(i) => {
                proof {
                    assert(has_digest(self@.entries, d));
                    let k = idx_of(self@.entries, d);
                    assert(self@.entries[k].digest == d);
                    assert(k == i as int);
                }
                let c = self.index[i].info.ref_count;
                if c == u32::MAX {
                    return Err(BlockError::TooManyReferences);
                }
                self.index[i].info.ref_count = c + 1;
                self.modified = true;
                proof {
                    let ghost ov = old(self)@;
                    assert(entries_view(self.index@) =~= ov.entries.update(
                        i as int,
                        EntryV {
                            digest: ov.entries[i as int].digest,
                            offset: ov.entries[i as int].offset,
                            size: ov.entries[i as int].size,
                            count: ov.entries[i as int].count + 1,
                        },
                    ));
                    lemma_sum_update_same_size(
                        ov.entries,
                        i as int,
                        self@.entries[i as int],
                    );
                    assert(self@ == ov.store_block_v(data@));
                }
                Ok(digest)
            },
            None => {
                let offset = self.data.len() as u64;
                let size = data.len() as u32;
                let mut k: usize = 0;
                while k < data.len()
                    invariant
                        k <= data@.len(),
                        self.data@ == old(self).data@ + data@.subrange(0, k as int),
                        self.index@ == old(self).index@,
                        self.modified == old(self).modified,
                    decreases data@.len() - k,
                {
                    self.data.push(data[k]);
                    proof {
                        assert(self.data@ =~= old(self).data@ + data@.subrange(0, k + 1 as int));
                    }
                    k = k + 1;
                }
                proof {
                    assert(self.data@ =~= old(self).data@ + data@);
                }
                self.index.push(
                    BlockEntry {
                        digest: digest.clone(),
                        info: BlockInfo { offset, size, ref_count: 1 },
                    },
                );
                self.modified = true;
                proof {
                    let ghost ov = old(self)@;
                    assert(digest@ =~= d);
                    assert(entries_view(self.index@) =~= ov.entries.push(
                        EntryV {
                            digest: d,
                            offset: ov.data.len() as int,
                            size: data@.len() as int,
                            count: 1,
                        },
                    ));
                    assert(self@.entries.drop_last() =~= ov.entries);
                    assert(sum_sizes(self@.entries) == sum_sizes(ov.entries) + data@.len());
                    assert(self@ == ov.store_block_v(data@));
                    assert forall|ii: int| 0 <= ii < self@.entries.len() implies entry_wf(
                        #[trigger] self@.entries[ii],
                        self@.data.len() as int,
                    ) by {
                        if ii < ov.entries.len() {
                            assert(entry_wf(ov.entries[ii], ov.data.len() as int));
                        }
                    }
                    if ov.consistent() {
                        assert forall|ii: int| 0 <= ii < self@.entries.len() implies digest_of(
                            self@.data.subrange(
                                (#[trigger] self@.entries[ii]).offset,
                                self@.entries[ii].offset + self@.entries[ii].size,
                            ),
                        ) == self@.entries[ii].digest by {
                            if ii < ov.entries.len() {
                                assert(self@.data.subrange(
                                    self@.entries[ii].offset,
                                    self@.entries[ii].offset + self@.entries[ii].size,
                                ) =~= ov.data.subrange(
                                    ov.entries[ii].offset,
                                    ov.entries[ii].offset + ov.entries[ii].size,
                                ));
                            } else {
                                assert(self@.data.subrange(
                                    self@.entries[ii].offset,
                                    self@.entries[ii].offset + self@.entries[ii].size,
                                ) =~= data@);
                            }
                        }
                    }
                }
                Ok(digest)
            },
        }
    }

    /// Read the bytes stored under a digest; fails exactly when the digest
    /// is not indexed.
    pub fn read_block(&self, digest: &[u8]) -> (r: Result<Vec<u8>, BlockError>)
        requires
            self@.wf(),
        ensures
            (r is Ok) <==> self@.has(digest@),
            r matches Ok(b) ==> b@ == self@.content_at(digest@),
            r matches Err(e) ==> (e matches BlockError::BlockNotFound(h) && h@ == digest@),
    {
        match self.find(digest) {
            Some(i) => {
                proof {
                    let k = idx_of(self@.entries, digest@);
                    assert(self@.entries[k].digest == digest@);
                    assert(k == i as int);
                    assert(entry_wf(self@.entries[i as int], self@.data.len() as int));
                }
                let info = self.index[i].info;
                let dl = self.data.len();
                proof {
                    assert(info.offset + info.size <= dl);
                }
                let start = info.offset as usize;
                let end = start + info.size as usize;
                let out = vstd::slice::slice_to_vec(
                    vstd::slice::slice_subrange(self.data.as_slice(), start, end),
                );
                Ok(out)
            },
            None => {
                let mut h: Vec<u8> = Vec::new();
                let n = digest.len();
                for k in 0..n
                    invariant
                        n == digest@.len(),
                        h@ == digest@.subrange(0, k as int),
                {
                    h.push(digest[k]);
                    proof {
                        assert(h@ =~= digest@.subrange(0, k + 1 as int));
                    }
                }
                proof {
                    assert(h@ =~= digest@);
                }
                Err(BlockError::BlockNotFound(h))
            },
        }
    }

    /// Release one reference; reports whether the block left the index.
    /// Fails exactly when the digest is not indexed, leaving the store
    /// unchanged.
    pub fn decrement_ref(&mut self, digest: &[u8]) -> (r: Result<bool, BlockError>)
        requires
            old(self)@.wf(),
        ensures
            final(self)@.wf(),
            old(self)@.consistent() ==> final(self)@.consistent(),
            (r is Ok) <==> old(self)@.has(digest@),
            r matches Ok(removed) ==> final(self)@ == old(self)@.release_v(digest@) && (removed
                <==> old(self)@.count(digest@) == 1),
            r is Err ==> *final(self) == *old(self) && (r matches Err(e)
                && e matches BlockError::BlockNotFound(h) && h@ == digest@),
    {
        let ghost ov = old(self)@;
        match self.find(digest) {
            Some(i) => {
                proof {
                    let k = idx_of(ov.entries, digest@);
                    assert(ov.entries[k].digest == digest@);
                    assert(k == i as int);
                }
                let c = self.index[i].info.ref_count;
                if c == 1 {
                    self.index.remove(i);
                    self.modified = true;
                    proof {
                        assert(entries_view(self.index@) =~= ov.entries.remove(i as int));
                        lemma_sum_remove(ov.entries, i as int);
                        assert(self@ == ov.release_v(digest@));
                        assert forall|ii: int| 0 <= ii < self@.entries.len() implies entry_wf(
                            #[trigger] self@.entries[ii],
                            self@.data.len() as int,
                        ) by {
                            if ii < i as int {
                                assert(entry_wf(ov.entries[ii], ov.data.len() as int));
                            } else {
                                assert(entry_wf(ov.entries[ii + 1], ov.data.len() as int));
                            }
                        }
                        if ov.consistent() {
                            assert forall|ii: int| 0 <= ii < self@.entries.len() implies digest_of(
                                self@.data.subrange(
                                    (#[trigger] self@.entries[ii]).offset,
                                    self@.entries[ii].offset + self@.entries[ii].size,
                                ),
                            ) == self@.entries[ii].digest by {
                                if ii < i as int {
                                    assert(self@.entries[ii] == ov.entries[ii]);
                                } else {
                                    assert(self@.entries[ii] == ov.entries[ii + 1]);
                                }
                            }
                        }
                    }
                    Ok(true)
                } else {
                    self.index[i].info.ref_count = c - 1;
                    self.modified = true;
                    proof {
                        assert(entries_view(self.index@) =~= ov.entries.update(
                            i as int,
                            EntryV {
                                digest: ov.entries[i as int].digest,
                                offset: ov.entries[i as int].offset,
                                size: ov.entries[i as int].size,
                                count: ov.entries[i as int].count - 1,
                            },
                        ));
                        lemma_sum_update_same_size(ov.entries, i as int, self@.entries[i as int]);
                        assert(self@ == ov.release_v(digest@));
                    }
                    Ok(false)
                }
            },
            None => {
                let mut h: Vec<u8> = Vec::new();
                let n = digest.len();
                for k in 0..n
                    invariant
                        n == digest@.len(),
                        h@ == digest@.subrange(0, k as int),
                        *self == *old(self),
                {
                    h.push(digest[k]);
                    proof {
                        assert(h@ =~= digest@.subrange(0, k + 1 as int));
                    }
                }
                proof {
                    assert(h@ =~= digest@);
                }
                Err(BlockError::BlockNotFound(h))
            },
        }
    }

    /// Sum of the sizes of all indexed blocks: the physically reachable
    /// byte count, at most the data region's length.
    pub fn total_size(&self) -> (r: u64)
        requires
            self@.wf(),
        ensures
            r == sum_sizes(self@.entries),
    {
        let mut acc: u64 = 0;
        let dl = self.data.len();
        let n = self.index.len();
        for i in 0..n
            invariant
                self@.wf(),
                n == self.index@.len(),
                dl == self@.data.len(),
                acc == sum_sizes(self@.entries.subrange(0, i as int)),
        {
            proof {
                lemma_sum_prefix(self@.entries, i + 1);
                assert(self@.entries.subrange(0, i + 1).drop_last() =~= self@.entries.subrange(
                    0,
                    i as int,
                ));
                assert(self@.entries.subrange(0, i + 1).last() == self@.entries[i as int]);
                assert(sum_sizes(self@.entries) <= self@.data.len());
                assert(self@.data.len() == dl as int);
            }
            acc = acc + self.index[i].info.size as u64;
        }
        proof {
            assert(self@.entries.subrange(0, self@.entries.len() as int) =~= self@.entries);
        }
        acc
    }

    /// Number of distinct blocks currently indexed.
    pub fn block_count(&self) -> (r: usize)
        ensures
            r == self@.entries.len(),
    {
        self.index.len()
    }

    /// Whether a mutating operation has happened since construction.
    pub fn is_modified(&self) -> (r: bool)
        ensures
            r == self@.modified,
    {
        self.modified
    }


    /// A store over already-written data region bytes, with an empty
    /// index, as when a persisted store is opened before its index is
    /// installed.
    pub fn from_data(data: Vec<u8>) -> (s: Self)
        ensures
            s@.wf(),
            s@.consistent(),
            s@.entries.len() == 0,
            s@.data == data@,
            !s@.modified,
    {
        BlockStore { data, index: Vec::new(), modified: false }
    }

    /// Install a loaded block index, leniently: an entry with a wrong
    /// digest length, an out-of-range byte range, a zero count or a
    /// duplicate digest is skipped rather than failing the load.
    pub fn set_index(&mut self, entries: Vec<BlockEntry>)
        ensures
            final(self)@.wf(),
            final(self)@.data == old(self)@.data,
            final(self)@.modified == old(self)@.modified,
            final(self)@.entries == sanitize_v(
                entries_view(entries@),
                old(self)@.data.len() as int,
            ),
    {
        let ghost evs = entries_view(entries@);
        let dl = self.data.len();
        let mut kept: Vec<BlockEntry> = Vec::new();
        let mut sum: u64 = 0;
        let n = entries.len();
        proof {
            assert(evs.subrange(0, 0) =~= Seq::<EntryV>::empty());
        }
        for i in 0..n
            invariant
                n == entries@.len(),
                evs == entries_view(entries@),
                dl == self@.data.len(),
                *self == *old(self),
                entries_view(kept@) == sanitize_v(evs.subrange(0, i as int), dl as int),
                sum == sum_sizes(entries_view(kept@)),
                sum <= dl,
                forall|a: int, b: int| 0 <= a < b < kept@.len() ==> entries_view(kept@)[a].digest
                    != entries_view(kept@)[b].digest,
                forall|a: int| 0 <= a < kept@.len() ==> entry_wf(
                    #[trigger] entries_view(kept@)[a],
                    dl as int,
                ),
        {
            let e = &entries[i];
            proof {
                assert(evs[i as int] == entries@[i as int]@);
            }
            let mut dup = false;
            let m = kept.len();
            for k in 0..m
                invariant
                    m == kept@.len(),
                    evs == entries_view(entries@),
                    i < entries@.len(),
                    dup <==> exists|a: int|
                        0 <= a < k && entries_view(kept@)[a].digest == entries@[i as int]@.digest,
            {
                let same = bytes_eq(kept[k].digest.as_slice(), entries[i].digest.as_slice());
                proof {
                    assert(entries_view(kept@)[k as int] == kept@[k as int]@);
                    assert(same <==> entries_view(kept@)[k as int].digest == entries@[
                        i as int
                    ]@.digest);
                }
                if same {
                    dup = true;
                }
            }
            let ok = !dup && entries[i].digest.len() == 32 && entries[i].info.ref_count >= 1
                && entries[i].info.offset <= dl as u64 && entries[i].info.size as u64 <= dl as u64
                    - entries[i].info.offset && entries[i].info.size as u64 <= dl as u64 - sum;
            let ghost prev = entries_view(kept@);
            proof {
                assert(ok == entry_ok(evs[i as int], prev, dl as int));
            }
            if ok {
                let ghost pre = kept@;
                kept.push(
                    BlockEntry {
                        digest: crate::cache::copy_bytes(entries[i].digest.as_slice()),
                        info: entries[i].info,
                    },
                );
                sum = sum + entries[i].info.size as u64;
                proof {
                    assert(entries_view(kept@) =~= entries_view(pre).push(evs[i as int]));
                    assert(entries_view(kept@).drop_last() =~= entries_view(pre));
                    assert(entries_view(kept@).last() == evs[i as int]);
                    assert(sum_sizes(entries_view(kept@)) == sum_sizes(entries_view(pre)) + evs[
                        i as int
                    ].size);
                }
            }
            proof {
                assert(evs.subrange(0, i + 1).drop_last() =~= evs.subrange(0, i as int));
                assert(evs.subrange(0, i + 1).last() == evs[i as int]);
                assert(entries_view(kept@) == sanitize_v(evs.subrange(0, i + 1), dl as int));
            }
        }
        proof {
            assert(evs.subrange(0, n as int) =~= evs);
        }
        self.index = kept;
    }

    /// The bytes of the backing data region.
    pub fn data_bytes(&self) -> (r: &Vec<u8>)
        ensures
            r@ == self@.data,
    {
        &self.data
    }

    /// The current block index entries.
    pub fn get_index(&self) -> (r: &Vec<BlockEntry>)
        ensures
            entries_view(r@) == self@.entries,
    {
        &self.index
    }
}

} // verus!
