//! The file layer: maps file identifiers to ordered block sequences,
//! drives chunking, and keeps the reference counts of the block layer in
//! step with the file index.
use vstd::prelude::*;
use crate::block::{
    BlockError, BlockStore, EntryV, StoreV, bytes_eq, count_of, entries_view, entry_wf,
    has_digest, idx_of, sanitize_v, sum_sizes,
};
use crate::hashing::digest_of;

verus! {

/// Errors of the file layer.
#[derive(Debug)]
pub enum CacheError {
    /// The requested file identifier is not in the file index.
    FileNotFound(Vec<u8>),
    /// An error of the block layer.
    Block(BlockError),
    /// The persisted index bytes cannot be parsed.
    Serialization,
}

/// The record kept under a file identifier: the ordered digests of the
/// file's blocks, its byte length, and its original name.
pub struct FileInfo {
    pub blocks: Vec<Vec<u8>>,
    pub size: u64,
    pub name: Vec<u8>,
}

/// One file index entry: an identifier and the record kept under it.
pub struct FileEntry {
    pub id: Vec<u8>,
    pub info: FileInfo,
}

/// Mathematical image of a file record.
pub ghost struct FileRecV {
    pub blocks: Seq<Seq<u8>>,
    pub size: int,
    pub name: Seq<u8>,
}

/// Mathematical image of one file index entry.
pub ghost struct FileEntryV {
    pub id: Seq<u8>,
    pub rec: FileRecV,
}

/// Mathematical image of the whole cache: configured block size, the block
/// store, and the file index.
pub ghost struct CacheV {
    pub block_size: int,
    pub store: StoreV,
    pub files: Seq<FileEntryV>,
    pub modified: bool,
}

pub open spec fn blocks_view(s: Seq<Vec<u8>>) -> Seq<Seq<u8>> {
    Seq::new(s.len(), |i: int| s[i]@)
}

impl View for FileInfo {
    type V = FileRecV;

    open spec fn view(&self) -> FileRecV {
        FileRecV { blocks: blocks_view(self.blocks@), size: self.size as int, name: self.name@ }
    }
}

impl View for FileEntry {
    type V = FileEntryV;

    open spec fn view(&self) -> FileEntryV {
        FileEntryV { id: self.id@, rec: self.info@ }
    }
}

pub open spec fn files_view(s: Seq<FileEntry>) -> Seq<FileEntryV> {
    Seq::new(s.len(), |i: int| s[i]@)
}

pub open spec fn has_file(fs: Seq<FileEntryV>, id: Seq<u8>) -> bool {
    exists|i: int| 0 <= i < fs.len() && fs[i].id == id
}

/// The position of the entry keyed by `id`; meaningful only under
/// `has_file` and distinct identifiers.
pub open spec fn file_idx(fs: Seq<FileEntryV>, id: Seq<u8>) -> int {
    choose|i: int| 0 <= i < fs.len() && fs[i].id == id
}

pub open spec fn rec_of(fs: Seq<FileEntryV>, id: Seq<u8>) -> FileRecV {
    fs[file_idx(fs, id)].rec
}

/// How often digest `d` occurs in one block list.
pub open spec fn count_in(bs: Seq<Seq<u8>>, d: Seq<u8>) -> int
    decreases bs.len(),
{
    if bs.len() == 0 {
        0
    } else {
        count_in(bs.drop_last(), d) + if bs.last() == d {
            1int
        } else {
            0int
        }
    }
}

/// How often digest `d` occurs across all file records.
pub open spec fn occ(fs: Seq<FileEntryV>, d: Seq<u8>) -> int
    decreases fs.len(),
{
    if fs.len() == 0 {
        0
    } else {
        occ(fs.drop_last(), d) + count_in(fs.last().rec.blocks, d)
    }
}

/// Sum of the recorded sizes of all files: the logical byte count.
pub open spec fn logical_size(fs: Seq<FileEntryV>) -> int
    decreases fs.len(),
{
    if fs.len() == 0 {
        0
    } else {
        logical_size(fs.drop_last()) + fs.last().rec.size
    }
}

/// The fixed-size chunks of a byte sequence, in order; the last chunk may
/// be shorter, and an empty sequence has no chunks.
pub open spec fn chunk_list(c: Seq<u8>, bs: int) -> Seq<Seq<u8>>
    decreases c.len()
    when bs >= 1
{
    if c.len() == 0 {
        Seq::empty()
    } else if c.len() <= bs {
        seq![c]
    } else {
        seq![c.take(bs)] + chunk_list(c.skip(bs), bs)
    }
}

pub open spec fn digest_list(cs: Seq<Seq<u8>>) -> Seq<Seq<u8>> {
    Seq::new(cs.len(), |i: int| digest_of(cs[i]))
}

/// Storing a list of blocks, in order.
pub open spec fn store_seq_v(sv: StoreV, cs: Seq<Seq<u8>>) -> StoreV
    decreases cs.len(),
{
    if cs.len() == 0 {
        sv
    } else {
        store_seq_v(sv, cs.drop_last()).store_block_v(cs.last())
    }
}

/// Whether storing a list of blocks, in order, never meets a reference
/// count already at its maximum.
pub open spec fn store_seq_ok(sv: StoreV, cs: Seq<Seq<u8>>) -> bool
    decreases cs.len(),
{
    if cs.len() == 0 {
        true
    } else {
        let prev = store_seq_v(sv, cs.drop_last());
        store_seq_ok(sv, cs.drop_last()) && !(prev.has(digest_of(cs.last())) && prev.count(
            digest_of(cs.last()),
        ) == u32::MAX)
    }
}

/// Releasing one reference of each listed digest, in order.
pub open spec fn release_seq_v(sv: StoreV, bs: Seq<Seq<u8>>) -> StoreV
    decreases bs.len(),
{
    if bs.len() == 0 {
        sv
    } else {
        release_seq_v(sv, bs.drop_last()).release_v(bs.last())
    }
}

/// Whether each listed digest is still indexed when its turn comes.
pub open spec fn release_seq_ok(sv: StoreV, bs: Seq<Seq<u8>>) -> bool
    decreases bs.len(),
{
    if bs.len() == 0 {
        true
    } else {
        release_seq_ok(sv, bs.drop_last()) && release_seq_v(sv, bs.drop_last()).has(bs.last())
    }
}

pub open spec fn file_rec_wf(rec: FileRecV) -> bool {
    &&& 0 <= rec.size
    &&& forall|j: int| 0 <= j < rec.blocks.len() ==> (#[trigger] rec.blocks[j]).len() == 32
}

impl CacheV {
    /// Structural well-formedness: a well-formed store, distinct file
    /// identifiers, well-formed records, a bounded logical size, and a
    /// positive bounded block size.
    pub open spec fn wf(self) -> bool {
        &&& self.store.wf()
        &&& forall|i: int, j: int|
            0 <= i < j < self.files.len() ==> self.files[i].id != self.files[j].id
        &&& forall|k: int| 0 <= k < self.files.len() ==> file_rec_wf((#[trigger] self.files[k]).rec)
        &&& logical_size(self.files) <= u64::MAX
        &&& 1 <= self.block_size <= u32::MAX
    }

    /// Every block reference recorded in the file index is backed by the
    /// block store's reference counts.
    pub open spec fn covered(self) -> bool {
        forall|d: Seq<u8>| #[trigger] occ(self.files, d) <= count_of(self.store.entries, d)
    }

    /// The bytes a stored file reconstitutes to: its blocks' stored bytes,
    /// concatenated in sequence order.
    pub open spec fn file_bytes(self, id: Seq<u8>) -> Seq<u8> {
        concat_contents(self.store, rec_of(self.files, id).blocks)
    }
}

/// The concatenation of the stored bytes of a list of digests.
pub open spec fn concat_contents(sv: StoreV, bs: Seq<Seq<u8>>) -> Seq<u8>
    decreases bs.len(),
{
    if bs.len() == 0 {
        Seq::empty()
    } else {
        concat_contents(sv, bs.drop_last()) + sv.content_at(bs.last())
    }
}

/// Storing a file: its chunks go to the block store in order, and the file
/// index maps the identifier to the chunk digests, the file's length and
/// its name, overwriting any previous record under that identifier.
pub open spec fn store_file_v(cv: CacheV, id: Seq<u8>, name: Seq<u8>, content: Seq<u8>) -> CacheV {
    let cs = chunk_list(content, cv.block_size);
    let rec = FileRecV { blocks: digest_list(cs), size: content.len() as int, name: name };
    let entry = FileEntryV { id: id, rec: rec };
    CacheV {
        block_size: cv.block_size,
        store: store_seq_v(cv.store, cs),
        files: if has_file(cv.files, id) {
            cv.files.update(file_idx(cv.files, id), entry)
        } else {
            cv.files.push(entry)
        },
        modified: true,
    }
}

/// Removing a file: its record leaves the index and one reference of each
/// of its blocks, in sequence order, is released.
pub open spec fn remove_file_v(cv: CacheV, id: Seq<u8>) -> CacheV {
    let rec = rec_of(cv.files, id);
    CacheV {
        block_size: cv.block_size,
        store: release_seq_v(cv.store, rec.blocks),
        files: cv.files.remove(file_idx(cv.files, id)),
        modified: true,
    }
}

pub proof fn lemma_count_in_nonneg(bs: Seq<Seq<u8>>, d: Seq<u8>)
    ensures
        count_in(bs, d) >= 0,
    decreases bs.len(),
{
    if bs.len() > 0 {
        lemma_count_in_nonneg(bs.drop_last(), d);
    }
}

/// Replacing one file entry changes each digest's occurrence total by the
/// difference between the new and the old record.
pub proof fn lemma_occ_update(fs: Seq<FileEntryV>, i: int, e: FileEntryV, d: Seq<u8>)
    requires
        0 <= i < fs.len(),
    ensures
        occ(fs.update(i, e), d) == occ(fs, d) - count_in(fs[i].rec.blocks, d) + count_in(
            e.rec.blocks,
            d,
        ),
    decreases fs.len(),
{
    if i == fs.len() - 1 {
        assert(fs.update(i, e).drop_last() =~= fs.drop_last());
    } else {
        lemma_occ_update(fs.drop_last(), i, e, d);
        assert(fs.update(i, e).drop_last() =~= fs.drop_last().update(i, e));
        assert(fs.update(i, e).last() == fs.last());
    }
}

/// Removing one file entry lowers each digest's occurrence total by that
/// record's own occurrences.
pub proof fn lemma_occ_remove(fs: Seq<FileEntryV>, i: int, d: Seq<u8>)
    requires
        0 <= i < fs.len(),
    ensures
        occ(fs.remove(i), d) == occ(fs, d) - count_in(fs[i].rec.blocks, d),
    decreases fs.len(),
{
    if i == fs.len() - 1 {
        assert(fs.remove(i) =~= fs.drop_last());
    } else {
        lemma_occ_remove(fs.drop_last(), i, d);
        assert(fs.remove(i).drop_last() =~= fs.drop_last().remove(i));
        assert(fs.remove(i).last() == fs.last());
    }
}

proof fn lemma_logical_update(fs: Seq<FileEntryV>, i: int, e: FileEntryV)
    requires
        0 <= i < fs.len(),
    ensures
        logical_size(fs.update(i, e)) == logical_size(fs) - fs[i].rec.size + e.rec.size,
    decreases fs.len(),
{
    if i == fs.len() - 1 {
        assert(fs.update(i, e).drop_last() =~= fs.drop_last());
    } else {
        lemma_logical_update(fs.drop_last(), i, e);
        assert(fs.update(i, e).drop_last() =~= fs.drop_last().update(i, e));
        assert(fs.update(i, e).last() == fs.last());
    }
}

proof fn lemma_logical_remove(fs: Seq<FileEntryV>, i: int)
    requires
        0 <= i < fs.len(),
    ensures
        logical_size(fs.remove(i)) == logical_size(fs) - fs[i].rec.size,
    decreases fs.len(),
{
    if i == fs.len() - 1 {
        assert(fs.remove(i) =~= fs.drop_last());
    } else {
        lemma_logical_remove(fs.drop_last(), i);
        assert(fs.remove(i).drop_last() =~= fs.drop_last().remove(i));
        assert(fs.remove(i).last() == fs.last());
    }
}

proof fn lemma_logical_prefix(fs: Seq<FileEntryV>, n: int)
    requires
        0 <= n <= fs.len(),
        forall|k: int| 0 <= k < fs.len() ==> (#[trigger] fs[k]).rec.size >= 0,
    ensures
        logical_size(fs.subrange(0, n)) <= logical_size(fs),
    decreases fs.len() - n,
{
    if n == fs.len() {
        assert(fs.subrange(0, n) =~= fs);
    } else {
        lemma_logical_prefix(fs, n + 1);
        assert(fs.subrange(0, n + 1).drop_last() =~= fs.subrange(0, n));
        assert(fs.subrange(0, n + 1).last() == fs[n]);
    }
}

/// Storing a block never lowers any reference count, and raises the stored
/// block's count by exactly one.
proof fn lemma_store_block_counts(sv: StoreV, c: Seq<u8>, d: Seq<u8>)
    requires
        sv.wf(),
    ensures
        count_of(sv.store_block_v(c).entries, d) >= count_of(sv.entries, d) + if d == digest_of(c) {
            1int
        } else {
            0int
        },
{
    let dd = digest_of(c);
    let es = sv.entries;
    let es2 = sv.store_block_v(c).entries;
    if has_digest(es, dd) {
        let i = idx_of(es, dd);
        assert(0 <= i < es.len() && es[i].digest == dd);
        assert forall|k: int| 0 <= k < es2.len() && es2[k].digest == d implies es2[k].count
            >= count_of(es, d) + if d == dd {
            1int
        } else {
            0int
        } by {
            if k == i {
                assert(es[k].digest == dd);
                assert(has_digest(es, d) && idx_of(es, d) == k) by {
                    assert(es[k].digest == d);
                    let w = idx_of(es, d);
                    assert(es[w].digest == d);
                    if w != k {
                        assert(es[w].digest != es[k].digest);
                    }
                }
            } else {
                assert(es2[k] == es[k]);
                assert(has_digest(es, d) && idx_of(es, d) == k) by {
                    assert(es[k].digest == d);
                    let w = idx_of(es, d);
                    assert(es[w].digest == d);
                    if w != k {
                        assert(es[w].digest != es[k].digest);
                    }
                }
                assert(d != dd);
            }
        }
        if has_digest(es2, d) {
            let k = idx_of(es2, d);
            assert(0 <= k < es2.len() && es2[k].digest == d);
        } else {
            assert(!has_digest(es, d)) by {
                if has_digest(es, d) {
                    let w = idx_of(es, d);
                    assert(es2[w].digest == es[w].digest);
                    assert(has_digest(es2, d));
                }
            }
            assert(d != dd);
        }
    } else {
        let e = EntryV { digest: dd, offset: sv.data.len() as int, size: c.len() as int, count: 1 };
        assert(es2 == es.push(e));
        if d == dd {
            assert(!has_digest(es, d));
            assert(count_of(es, d) == 0);
            assert(es2[es.len() as int].digest == d);
            assert(has_digest(es2, d));
            let k = idx_of(es2, d);
            assert(es2[k].digest == d);
            assert(k == es.len() as int) by {
                if k < es.len() {
                    assert(es[k].digest == d);
                    assert(has_digest(es, d));
                }
            }
        } else {
            if has_digest(es, d) {
                let w = idx_of(es, d);
                assert(es2[w].digest == d);
                assert(has_digest(es2, d));
                let k = idx_of(es2, d);
                assert(es2[k].digest == d);
                assert(k < es.len()) by {
                    if k == es.len() {
                        assert(es2[k].digest == dd);
                    }
                }
                assert(es[k].digest == d);
                assert(k == w) by {
                    if k != w {
                        assert(es[k].digest != es[w].digest);
                    }
                }
            } else {
                if has_digest(es2, d) {
                    let k = idx_of(es2, d);
                    assert(es2[k].digest == d);
                    assert(k < es.len() ==> has_digest(es, d));
                    assert(k == es.len() ==> d == dd);
                }
            }
        }
    }
}


/// Whether a loaded file record is acceptable given the records already
/// kept: a fresh identifier, 32-byte digests, and a size that keeps the
/// logical total within range.
pub open spec fn file_ok(f: FileEntryV, prev: Seq<FileEntryV>) -> bool {
    &&& !has_file(prev, f.id)
    &&& 0 <= f.rec.size
    &&& forall|j: int| 0 <= j < f.rec.blocks.len() ==> (#[trigger] f.rec.blocks[j]).len() == 32
    &&& logical_size(prev) + f.rec.size <= u64::MAX
}

/// The file records kept by a lenient load.
pub open spec fn sanitize_files_v(fs: Seq<FileEntryV>) -> Seq<FileEntryV>
    decreases fs.len(),
{
    if fs.len() == 0 {
        Seq::empty()
    } else {
        let prev = sanitize_files_v(fs.drop_last());
        if file_ok(fs.last(), prev) {
            prev.push(fs.last())
        } else {
            prev
        }
    }
}

/// A well-formed file index passes the lenient load untouched.
pub proof fn lemma_sanitize_files_identity(fs: Seq<FileEntryV>)
    requires
        forall|i: int, j: int| 0 <= i < j < fs.len() ==> fs[i].id != fs[j].id,
        forall|k: int| 0 <= k < fs.len() ==> file_rec_wf((#[trigger] fs[k]).rec),
        logical_size(fs) <= u64::MAX,
    ensures
        sanitize_files_v(fs) == fs,
    decreases fs.len(),
{
    if fs.len() > 0 {
        let prev = fs.drop_last();
        assert forall|k: int| 0 <= k < prev.len() implies file_rec_wf(
            (#[trigger] prev[k]).rec,
        ) by {
            assert(prev[k] == fs[k]);
        }
        assert(logical_size(fs) == logical_size(prev) + fs.last().rec.size);
        assert(fs.last().rec.size >= 0) by {
            assert(file_rec_wf(fs[fs.len() - 1].rec));
        }
        lemma_sanitize_files_identity(prev);
        assert(!has_file(prev, fs.last().id)) by {
            if has_file(prev, fs.last().id) {
                let w = file_idx(prev, fs.last().id);
                assert(prev[w] == fs[w]);
                assert(fs[w].id != fs[fs.len() - 1].id);
            }
        }
        assert(file_ok(fs.last(), prev));
        assert(prev.push(fs.last()) =~= fs);
    }
}

/// The cache storage: a block store and the file index over it.
pub struct CacheStorage {
    block_size: usize,
    store: BlockStore,
    files: Vec<FileEntry>,
    modified: bool,
}

impl View for CacheStorage {
    type V = CacheV;

    closed spec fn view(&self) -> CacheV {
        CacheV {
            block_size: self.block_size as int,
            store: self.store@,
            files: files_view(self.files@),
            modified: self.modified,
        }
    }
}

impl CacheStorage {
    /// A fresh cache with the given chunking block size.
    pub fn new(block_size: usize) -> (s: Self)
        requires
            1 <= block_size <= u32::MAX,
        ensures
            s@.wf(),
            s@.covered(),
            s@.store.consistent(),
            s@.block_size == block_size,
            s@.files.len() == 0,
            s@.store.entries.len() == 0,
            s@.store.data.len() == 0,
            !s@.modified,
            !s@.store.modified,
    {
        let s = CacheStorage {
            block_size,
            store: BlockStore::new(),
            files: Vec::new(),
            modified: false,
        };
        proof {
            assert forall|d: Seq<u8>| #[trigger] occ(s@.files, d) <= count_of(
                s@.store.entries,
                d,
            ) by {
                assert(occ(s@.files, d) == 0);
            }
        }
        s
    }

    /// The position of the file entry keyed by `id`, if any.
    fn find_file(&self, id: &[u8]) -> (r: Option<usize>)
        ensures
            match r {
                Some(i) => i < self@.files.len() && self@.files[i as int].id == id@,
                None => !has_file(self@.files, id@),
            },
    {
        let n = self.files.len();
        for i in 0..n
            invariant
                n == self.files@.len(),
                forall|j: int| 0 <= j < i ==> files_view(self.files@)[j].id != id@,
        {
            if bytes_eq(self.files[i].id.as_slice(), id) {
                return Some(i);
            }
        }
        None
    }

    /// Store a file's bytes under `id`: the bytes are split into chunks of
    /// the configured block size (the last chunk may be shorter), each
    /// chunk goes to the block store, and the file record is written,
    /// silently overwriting any record already under `id` without
    /// releasing that record's references. Fails exactly when some chunk
    /// meets a reference count already at its maximum; the file index is
    /// then unchanged.
    pub fn store_file(&mut self, id: &[u8], name: &[u8], content: &[u8]) -> (r: Result<
        (),
        CacheError,
    >)
        requires
            old(self)@.wf(),
            logical_size(old(self)@.files) + content@.len() <= u64::MAX,
        ensures
            final(self)@.wf(),
            old(self)@.store.consistent() ==> final(self)@.store.consistent(),
            old(self)@.covered() ==> final(self)@.covered(),
            (r is Ok) <==> store_seq_ok(
                old(self)@.store,
                chunk_list(content@, old(self)@.block_size),
            ),
            r is Ok ==> final(self)@ == store_file_v(old(self)@, id@, name@, content@),
            r is Err ==> final(self)@.files == old(self)@.files && final(self)@.block_size == old(
                self,
            )@.block_size,
    {
        let ghost cv0 = old(self)@;
        let ghost bs = cv0.block_size;
        let ghost cs = chunk_list(content@, bs);
        let mut digests: Vec<Vec<u8>> = Vec::new();
        let mut pos: usize = 0;
        let n = content.len();
        let ghost mut j: int = 0;
        proof {
            assert(cs.skip(0) =~= cs);
            assert(content@.skip(0) =~= content@);
            assert(cs.take(0) =~= Seq::<Seq<u8>>::empty());
        }
        while pos < n
            invariant
                cv0 == old(self)@,
                bs == cv0.block_size,
                self@.wf(),
                self@.block_size == bs,
                1 <= bs <= u32::MAX,
                self@.files == cv0.files,
                n == content@.len(),
                0 <= pos <= n,
                0 <= j <= cs.len(),
                cs == chunk_list(content@, bs),
                cs.skip(j) == chunk_list(content@.skip(pos as int), bs),
                (pos == n) ==> j == cs.len(),
                self@.store == store_seq_v(cv0.store, cs.take(j)),
                store_seq_ok(cv0.store, cs.take(j)),
                cv0.store.consistent() ==> self@.store.consistent(),
                blocks_view(digests@) == digest_list(cs.take(j)),
                forall|d: Seq<u8>| #[trigger] count_of(self@.store.entries, d) >= count_of(
                    cv0.store.entries,
                    d,
                ) + count_in(digest_list(cs.take(j)), d),
                forall|jj: int| 0 <= jj < j ==> (#[trigger] digest_list(cs)[jj]).len() == 32,
            decreases n - pos,
        {
            let end = if n - pos > self.block_size {
                pos + self.block_size
            } else {
                n
            };
            proof {
                let c_rem = content@.skip(pos as int);
                assert(c_rem.len() == n - pos);
                assert(c_rem.len() > 0);
                assert(cs.skip(j).len() > 0);
                assert(j < cs.len());
                if c_rem.len() <= bs {
                    assert(chunk_list(c_rem, bs) == seq![c_rem]);
                    assert(cs[j] == cs.skip(j)[0]);
                    assert(cs[j] == c_rem);
                    assert(c_rem =~= content@.subrange(pos as int, end as int));
                } else {
                    assert(chunk_list(c_rem, bs) == seq![c_rem.take(bs)] + chunk_list(
                        c_rem.skip(bs),
                        bs,
                    ));
                    assert(cs[j] == cs.skip(j)[0]);
                    assert(cs[j] == c_rem.take(bs));
                    assert(c_rem.take(bs) =~= content@.subrange(pos as int, end as int));
                }
                assert(cs[j] == content@.subrange(pos as int, end as int));
                assert(cs[j].len() == end - pos);
                assert(end - pos <= u32::MAX);
            }
            let chunk = vstd::slice::slice_subrange(content, pos, end);
            let ghost pre = self@.store;
            let dres = self.store.store_block(chunk);
            match dres {
                Ok(dg) => {
                    let ghost dpre = digests@;
                    let ghost dgv = dg@;
                    proof {
                        assert(dgv == digest_of(cs[j]));
                        assert(dgv.len() == 32);
                        assert(blocks_view(dpre).len() == dpre.len());
                        assert(digest_list(cs.take(j)).len() == j);
                        assert(dpre.len() == j);
                    }
                    digests.push(dg);
                    proof {
                        assert(digests@.len() == j + 1);
                        assert(digests@[j]@ == dgv);
                        assert(forall|ii: int| 0 <= ii < j ==> #[trigger] digests@[ii] == dpre[ii]);
                        assert(cs.take(j + 1).drop_last() =~= cs.take(j));
                        assert(cs.take(j + 1).last() == cs[j]);
                        assert(self@.store == store_seq_v(cv0.store, cs.take(j + 1)));
                        assert(store_seq_ok(cv0.store, cs.take(j + 1)));
                        assert forall|ii: int| 0 <= ii < j + 1 implies blocks_view(digests@)[ii]
                            == digest_list(cs.take(j + 1))[ii] by {
                            if ii < j {
                                assert(digests@[ii] == dpre[ii]);
                                assert(blocks_view(dpre)[ii] == digest_list(cs.take(j))[ii]);
                            }
                        }
                        assert(blocks_view(digests@) =~= digest_list(cs.take(j + 1)));
                        assert forall|d: Seq<u8>| #[trigger] count_of(self@.store.entries, d)
                            >= count_of(cv0.store.entries, d) + count_in(
                            digest_list(cs.take(j + 1)),
                            d,
                        ) by {
                            lemma_store_block_counts(pre, cs[j], d);
                            assert(digest_list(cs.take(j + 1)).drop_last() =~= digest_list(
                                cs.take(j),
                            ));
                            assert(digest_list(cs.take(j + 1)).last() == digest_of(cs[j]));
                        }
                        // the remaining chunks
                        let c_rem = content@.skip(pos as int);
                        if c_rem.len() <= bs {
                            assert(cs.skip(j + 1) =~= chunk_list(content@.skip(end as int), bs))
                            by {
                                assert(cs.skip(j).skip(1) =~= cs.skip(j + 1));
                                assert(chunk_list(c_rem, bs).len() == 1);
                                assert(end == n);
                                assert(content@.skip(end as int).len() == 0);
                            }
                        } else {
                            assert(cs.skip(j + 1) =~= chunk_list(content@.skip(end as int), bs))
                            by {
                                assert(cs.skip(j).skip(1) =~= cs.skip(j + 1));
                                assert(chunk_list(c_rem, bs).skip(1) =~= chunk_list(
                                    c_rem.skip(bs),
                                    bs,
                                ));
                                assert(c_rem.skip(bs) =~= content@.skip(end as int));
                            }
                        }
                        j = j + 1;
                        if end == n {
                            assert(content@.skip(n as int).len() == 0);
                            assert(cs.skip(j).len() == 0);
                            assert(j == cs.len());
                        }
                    }
                    pos = end;
                },
                Err(e) => {
                    proof {
                        assert(cs.take(j + 1).drop_last() =~= cs.take(j));
                        assert(cs.take(j + 1).last() == cs[j]);
                        assert(!store_seq_ok(cv0.store, cs.take(j + 1)));
                        lemma_store_seq_ok_prefix(cv0.store, cs, j + 1);
                        assert(!store_seq_ok(cv0.store, cs));
                        if cv0.covered() {
                            assert forall|d: Seq<u8>| #[trigger] occ(self@.files, d) <= count_of(
                                self@.store.entries,
                                d,
                            ) by {
                                lemma_count_in_nonneg(digest_list(cs.take(j)), d);
                            }
                        }
                    }
                    return Err(CacheError::Block(e));
                },
            }
        }
        proof {
            assert(j == cs.len());
            assert(cs.take(j) =~= cs);
        }
        let size = n as u64;
        let mut name_v: Vec<u8> = Vec::new();
        let m = name.len();
        for k in 0..m
            invariant
                m == name@.len(),
                name_v@ == name@.subrange(0, k as int),
        {
            name_v.push(name[k]);
            proof {
                assert(name_v@ =~= name@.subrange(0, k + 1 as int));
            }
        }
        proof {
            assert(name_v@ =~= name@);
        }
        let entry = FileEntry { id: copy_bytes(id), info: FileInfo { blocks: digests, size, name: name_v } };
        let ghost ev = FileEntryV {
            id: id@,
            rec: FileRecV { blocks: digest_list(cs), size: n as int, name: name@ },
        };
        let ghost files0 = cv0.files;
        let ghost stored = self@.store;
        match self.find_file(id) {
            Some(fi) => {
                self.files[fi] = entry;
                self.modified = true;
                proof {
                    let k = file_idx(files0, id@);
                    assert(files0[k].id == id@);
                    assert(k == fi as int) by {
                        if k != fi as int {
                            assert(files0[k].id != files0[fi as int].id);
                        }
                    }
                    assert(files_view(self.files@) =~= files0.update(fi as int, ev));
                    assert(self@ == store_file_v(cv0, id@, name@, content@));
                    lemma_logical_update(files0, fi as int, ev);
                    self.lemma_after_store(cv0, files0, stored, cs, ev, fi as int, true);
                }
            },
            None => {
                self.files.push(entry);
                self.modified = true;
                proof {
                    assert(files_view(self.files@) =~= files0.push(ev));
                    assert(self@ == store_file_v(cv0, id@, name@, content@));
                    assert(logical_size(self@.files) == logical_size(files0) + n) by {
                        assert(self@.files.drop_last() =~= files0);
                    }
                    self.lemma_after_store(cv0, files0, stored, cs, ev, files0.len() as int, false);
                }
            },
        }
        Ok(())
    }

    /// Well-formedness and coverage of the state after the file record is
    /// written.
    proof fn lemma_after_store(
        &self,
        cv0: CacheV,
        files0: Seq<FileEntryV>,
        stored: StoreV,
        cs: Seq<Seq<u8>>,
        ev: FileEntryV,
        fi: int,
        overwrite: bool,
    )
        requires
            cv0.wf(),
            stored.wf(),
            self@.store == stored,
            self@.block_size == cv0.block_size,
            cv0.files == files0,
            ev.rec.blocks == digest_list(cs),
            0 <= ev.rec.size,
            logical_size(files0) + ev.rec.size <= u64::MAX,
            forall|jj: int| 0 <= jj < cs.len() ==> (#[trigger] digest_list(cs)[jj]).len() == 32,
            overwrite ==> 0 <= fi < files0.len() && files0[fi].id == ev.id && self@.files
                == files0.update(fi, ev),
            !overwrite ==> !has_file(files0, ev.id) && self@.files == files0.push(ev),
            forall|d: Seq<u8>| #[trigger] count_of(stored.entries, d) >= count_of(
                cv0.store.entries,
                d,
            ) + count_in(digest_list(cs), d),
        ensures
            self@.wf(),
            cv0.covered() ==> self@.covered(),
    {
        let fs2 = self@.files;
        // distinct identifiers
        assert forall|i: int, j: int| 0 <= i < j < fs2.len() implies fs2[i].id != fs2[j].id by {
            if overwrite {
                if i != fi && j != fi {
                    assert(fs2[i] == files0[i] && fs2[j] == files0[j]);
                } else if i == fi {
                    assert(fs2[j] == files0[j]);
                    assert(files0[fi].id == ev.id);
                } else {
                    assert(fs2[i] == files0[i]);
                    assert(files0[fi].id == ev.id);
                }
            } else {
                if j < files0.len() {
                    assert(fs2[i] == files0[i] && fs2[j] == files0[j]);
                } else {
                    assert(fs2[i] == files0[i]);
                    assert(fs2[j] == ev);
                    if fs2[i].id == ev.id {
                        assert(has_file(files0, ev.id));
                    }
                }
            }
        }
        // records well-formed
        assert forall|k: int| 0 <= k < fs2.len() implies file_rec_wf((#[trigger] fs2[k]).rec) by {
            if (overwrite && k == fi) || (!overwrite && k == files0.len()) {
                assert(fs2[k].rec == ev.rec);
            } else {
                assert(fs2[k] == files0[k]);
            }
        }
        // logical size bound
        if overwrite {
            lemma_logical_update(files0, fi, ev);
        } else {
            assert(fs2.drop_last() =~= files0);
        }
        // coverage
        if cv0.covered() {
            assert forall|d: Seq<u8>| #[trigger] occ(fs2, d) <= count_of(stored.entries, d) by {
                lemma_count_in_nonneg(ev.rec.blocks, d);
                if overwrite {
                    lemma_occ_update(files0, fi, ev, d);
                    lemma_count_in_nonneg(files0[fi].rec.blocks, d);
                } else {
                    assert(fs2.drop_last() =~= files0);
                    assert(occ(fs2, d) == occ(files0, d) + count_in(ev.rec.blocks, d));
                }
                assert(occ(files0, d) <= count_of(cv0.store.entries, d));
            }
        }
    }

    /// Reconstitute a stored file's bytes: each of its blocks, read in
    /// sequence order and concatenated. Fails with FileNotFound exactly
    /// when the identifier is unknown, and with a block error exactly when
    /// some listed digest is not indexed.
    pub fn retrieve_file(&self, id: &[u8]) -> (r: Result<Vec<u8>, CacheError>)
        requires
            self@.wf(),
        ensures
            (r is Ok) <==> (has_file(self@.files, id@) && forall|j: int|
                0 <= j < rec_of(self@.files, id@).blocks.len() ==> self@.store.has(
                    #[trigger] rec_of(self@.files, id@).blocks[j],
                )),
            r matches Ok(b) ==> b@ == self@.file_bytes(id@),
            r matches Err(e) ==> match e {
                CacheError::FileNotFound(h) => h@ == id@ && !has_file(self@.files, id@),
                CacheError::Block(be) => has_file(self@.files, id@) && (be matches
                    BlockError::BlockNotFound(h) && !self@.store.has(h@)) && exists|j: int|
                    0 <= j < rec_of(self@.files, id@).blocks.len() && !self@.store.has(
                        #[trigger] rec_of(self@.files, id@).blocks[j],
                    ),
                CacheError::Serialization => false,
            },
    {
        match self.find_file(id) {
            Some(fi) => {
                proof {
                    let k = file_idx(self@.files, id@);
                    assert(self@.files[k].id == id@);
                    assert(k == fi as int) by {
                        if k != fi as int {
                            assert(self@.files[k].id != self@.files[fi as int].id);
                        }
                    }
                }
                let ghost rec = rec_of(self@.files, id@);
                let mut out: Vec<u8> = Vec::new();
                let nb = self.files[fi].info.blocks.len();
                proof {
                    assert(rec.blocks.len() == nb);
                }
                for j in 0..nb
                    invariant
                        self@.wf(),
                        fi < self@.files.len(),
                        self@.files[fi as int].id == id@,
                        rec == rec_of(self@.files, id@),
                        nb == self.files@[fi as int].info.blocks@.len(),
                        nb == rec.blocks.len(),
                        out@ == concat_contents(self@.store, rec.blocks.take(j as int)),
                        forall|k: int| 0 <= k < j ==> self@.store.has(#[trigger] rec.blocks[k]),
                {
                    proof {
                        assert(blocks_view(self.files@[fi as int].info.blocks@)[j as int]
                            == rec.blocks[j as int]);
                    }
                    let dres = self.store.read_block(self.files[fi].info.blocks[j].as_slice());
                    match dres {
                        Ok(mut b) => {
                            out.append(&mut b);
                            proof {
                                assert(rec.blocks.take(j + 1).drop_last() =~= rec.blocks.take(
                                    j as int,
                                ));
                                assert(rec.blocks.take(j + 1).last() == rec.blocks[j as int]);
                            }
                        },
                        Err(e) => {
                            return Err(CacheError::Block(e));
                        },
                    }
                }
                proof {
                    assert(rec.blocks.take(nb as int) =~= rec.blocks);
                }
                Ok(out)
            },
            None => {
                Err(CacheError::FileNotFound(copy_bytes(id)))
            },
        }
    }

    /// Remove a file: its record leaves the index, then one reference of
    /// each of its blocks is released, in sequence order. Fails with
    /// FileNotFound exactly when the identifier is unknown, leaving the
    /// cache unchanged. When every file reference is backed by the block
    /// store's counts, removal always succeeds.
    pub fn remove_file(&mut self, id: &[u8]) -> (r: Result<(), CacheError>)
        requires
            old(self)@.wf(),
        ensures
            final(self)@.wf(),
            old(self)@.store.consistent() ==> final(self)@.store.consistent(),
            (r matches Err(e) && e matches CacheError::FileNotFound(h) && h@ == id@) <==> !has_file(
                old(self)@.files,
                id@,
            ),
            (r is Ok) <==> (has_file(old(self)@.files, id@) && release_seq_ok(
                old(self)@.store,
                rec_of(old(self)@.files, id@).blocks,
            )),
            r is Ok ==> final(self)@ == remove_file_v(old(self)@, id@),
            old(self)@.covered() && has_file(old(self)@.files, id@) ==> r is Ok,
            old(self)@.covered() ==> final(self)@.covered(),
            !has_file(old(self)@.files, id@) ==> *final(self) == *old(self),
    {
        let ghost cv0 = old(self)@;
        match self.find_file(id) {
            Some(fi) => {
                proof {
                    let k = file_idx(cv0.files, id@);
                    assert(cv0.files[k].id == id@);
                    assert(k == fi as int) by {
                        if k != fi as int {
                            assert(cv0.files[k].id != cv0.files[fi as int].id);
                        }
                    }
                }
                let ghost rec = rec_of(cv0.files, id@);
                let entry = self.files.remove(fi);
                self.modified = true;
                let ghost files1 = files_view(self.files@);
                proof {
                    assert(files1 =~= cv0.files.remove(fi as int));
                    assert(blocks_view(entry.info.blocks@) == rec.blocks);
                    // distinct ids and record well-formedness carry over
                    assert forall|i: int, j: int| 0 <= i < j < files1.len() implies files1[i].id
                        != files1[j].id by {
                        let i0 = if i < fi as int { i } else { i + 1 };
                        let j0 = if j < fi as int { j } else { j + 1 };
                        assert(files1[i] == cv0.files[i0] && files1[j] == cv0.files[j0]);
                    }
                    assert forall|k: int| 0 <= k < files1.len() implies file_rec_wf(
                        (#[trigger] files1[k]).rec,
                    ) by {
                        let k0 = if k < fi as int { k } else { k + 1 };
                        assert(files1[k] == cv0.files[k0]);
                    }
                    lemma_logical_remove(cv0.files, fi as int);
                    if cv0.covered() {
                        assert forall|d: Seq<u8>| #[trigger] occ(files1, d) + count_in(
                            rec.blocks,
                            d,
                        ) <= count_of(self@.store.entries, d) by {
                            lemma_occ_remove(cv0.files, fi as int, d);
                        }
                    }
                    assert(rec.blocks.skip(0) =~= rec.blocks);
                    assert(rec.blocks.take(0) =~= Seq::<Seq<u8>>::empty());
                }
                let ghost s0 = cv0.store;
                let nb = entry.info.blocks.len();
                for j in 0..nb
                    invariant
                        cv0 == old(self)@,
                        has_file(cv0.files, id@),
                        rec == rec_of(cv0.files, id@),
                        s0 == cv0.store,
                        fi < cv0.files.len(),
                        fi as int == file_idx(cv0.files, id@),
                        files1 == cv0.files.remove(fi as int),
                        self@.store.wf(),
                        cv0.store.consistent() ==> self@.store.consistent(),
                        self@.block_size == cv0.block_size,
                        1 <= cv0.block_size <= u32::MAX,
                        self@.files == files1,
                        self@.modified,
                        forall|i: int, jj: int| 0 <= i < jj < files1.len() ==> files1[i].id
                            != files1[jj].id,
                        forall|k: int| 0 <= k < files1.len() ==> file_rec_wf(
                            (#[trigger] files1[k]).rec,
                        ),
                        logical_size(files1) <= u64::MAX,
                        nb == entry.info.blocks@.len(),
                        nb == rec.blocks.len(),
                        blocks_view(entry.info.blocks@) == rec.blocks,
                        self@.store == release_seq_v(s0, rec.blocks.take(j as int)),
                        release_seq_ok(s0, rec.blocks.take(j as int)),
                        cv0.covered() ==> forall|d: Seq<u8>| #[trigger] occ(files1, d) + count_in(
                            rec.blocks.skip(j as int),
                            d,
                        ) <= count_of(self@.store.entries, d),
                {
                    proof {
                        assert(blocks_view(entry.info.blocks@)[j as int] == rec.blocks[j as int]);
                        if cv0.covered() {
                            let d = rec.blocks[j as int];
                            lemma_count_in_suffix(rec.blocks, j as int, d);
                            lemma_occ_nonneg(files1, d);
                            assert(count_in(rec.blocks.skip(j as int), d) >= 1);
                            assert(count_of(self@.store.entries, d) >= 1);
                            assert(self@.store.has(d));
                        }
                    }
                    let ghost pre = self@.store;
                    let dres = self.store.decrement_ref(entry.info.blocks[j].as_slice());
                    match dres {
                        Ok(_) => {
                            proof {
                                assert(rec.blocks.take(j + 1).drop_last() =~= rec.blocks.take(
                                    j as int,
                                ));
                                assert(rec.blocks.take(j + 1).last() == rec.blocks[j as int]);
                                assert(self@.store == release_seq_v(s0, rec.blocks.take(j + 1)));
                                assert(release_seq_ok(s0, rec.blocks.take(j + 1)));
                                if cv0.covered() {
                                    assert forall|d: Seq<u8>| #[trigger] occ(files1, d) + count_in(
                                        rec.blocks.skip(j + 1),
                                        d,
                                    ) <= count_of(self@.store.entries, d) by {
                                        lemma_count_in_suffix(rec.blocks, j as int, d);
                                        lemma_release_count(pre, rec.blocks[j as int], d);
                                    }
                                }
                            }
                        },
                        Err(e) => {
                            proof {
                                assert(rec.blocks.take(j + 1).drop_last() =~= rec.blocks.take(
                                    j as int,
                                ));
                                assert(rec.blocks.take(j + 1).last() == rec.blocks[j as int]);
                                assert(!release_seq_ok(s0, rec.blocks.take(j + 1)));
                                lemma_release_seq_ok_prefix(s0, rec.blocks, j + 1);
                                if cv0.covered() {
                                    let d = rec.blocks[j as int];
                                    assert(false);
                                }
                            }
                            return Err(CacheError::Block(e));
                        },
                    }
                }
                proof {
                    assert(rec.blocks.take(nb as int) =~= rec.blocks);
                    assert(self@ == remove_file_v(cv0, id@));
                    if cv0.covered() {
                        assert forall|d: Seq<u8>| #[trigger] occ(files1, d) <= count_of(
                            self@.store.entries,
                            d,
                        ) by {
                            assert(rec.blocks.skip(nb as int).len() == 0);
                            assert(count_in(rec.blocks.skip(nb as int), d) == 0);
                        }
                    }
                }
                Ok(())
            },
            None => {
                Err(CacheError::FileNotFound(copy_bytes(id)))
            },
        }
    }


    /// Open a store over already-persisted state: the data region's bytes
    /// and the serialized index. Fails exactly when the index bytes cannot
    /// be parsed; parsed entries and records that are malformed or
    /// conflicting are skipped rather than failing the load.
    pub fn open(block_size: usize, data: Vec<u8>, index_bytes: &[u8]) -> (r: Result<
        CacheStorage,
        CacheError,
    >)
        requires
            1 <= block_size <= u32::MAX,
        ensures
            (r is Err) <==> crate::codec::dec_index(index_bytes@) is None,
            r matches Err(e) ==> e matches CacheError::Serialization,
            r matches Ok(c) ==> {
                &&& c@.wf()
                &&& c@.block_size == block_size
                &&& !c@.modified
                &&& !c@.store.modified
                &&& c@.store.data == data@
                &&& c@.store.entries == sanitize_v(
                    crate::codec::dec_index(index_bytes@)->Some_0.0,
                    data@.len() as int,
                )
                &&& c@.files == sanitize_files_v(crate::codec::dec_index(index_bytes@)->Some_0.1)
            },
    {
        match crate::codec::decode_index(index_bytes) {
            Some(pair) => {
                let (bes, fes) = pair;
                let mut store = BlockStore::from_data(data);
                store.set_index(bes);
                let mut files: Vec<FileEntry> = Vec::new();
                let mut logical: u64 = 0;
                let ghost fvs = files_view(fes@);
                let n = fes.len();
                proof {
                    assert(fvs.subrange(0, 0) =~= Seq::<FileEntryV>::empty());
                }
                for i in 0..n
                    invariant
                        n == fes@.len(),
                        fvs == files_view(fes@),
                        files_view(files@) == sanitize_files_v(fvs.subrange(0, i as int)),
                        logical == logical_size(files_view(files@)),
                        forall|a: int, b: int| 0 <= a < b < files@.len() ==> files_view(
                            files@,
                        )[a].id != files_view(files@)[b].id,
                        forall|a: int| 0 <= a < files@.len() ==> file_rec_wf(
                            (#[trigger] files_view(files@)[a]).rec,
                        ),
                {
                    proof {
                        assert(fvs[i as int] == fes@[i as int]@);
                    }
                    let mut dup = false;
                    let m = files.len();
                    for k in 0..m
                        invariant
                            m == files@.len(),
                            fvs == files_view(fes@),
                            i < fes@.len(),
                            dup <==> exists|a: int|
                                0 <= a < k && files_view(files@)[a].id == fes@[i as int]@.id,
                    {
                        let same = bytes_eq(files[k].id.as_slice(), fes[i].id.as_slice());
                        proof {
                            assert(files_view(files@)[k as int] == files@[k as int]@);
                            assert(same <==> files_view(files@)[k as int].id == fes@[
                                i as int
                            ]@.id);
                        }
                        if same {
                            dup = true;
                        }
                    }
                    let mut lens_ok = true;
                    let nb = fes[i].info.blocks.len();
                    for k in 0..nb
                        invariant
                            nb == fes@[i as int].info.blocks@.len(),
                            fvs == files_view(fes@),
                            i < fes@.len(),
                            lens_ok <==> forall|a: int|
                                0 <= a < k ==> (#[trigger] fes@[i as int]@.rec.blocks[a]).len()
                                    == 32,
                    {
                        proof {
                            assert(fes@[i as int]@.rec.blocks[k as int] == fes@[
                                i as int
                            ].info.blocks@[k as int]@);
                        }
                        if fes[i].info.blocks[k].len() != 32 {
                            lens_ok = false;
                        }
                    }
                    let ok = !dup && lens_ok && fes[i].info.size <= u64::MAX - logical;
                    let ghost prev = files_view(files@);
                    proof {
                        assert(ok == file_ok(fvs[i as int], prev));
                    }
                    if ok {
                        let ghost pre = files@;
                        let f = &fes[i];
                        files.push(
                            FileEntry {
                                id: copy_bytes(f.id.as_slice()),
                                info: FileInfo {
                                    blocks: copy_blocks(&f.info.blocks),
                                    size: f.info.size,
                                    name: copy_bytes(f.info.name.as_slice()),
                                },
                            },
                        );
                        logical = logical + fes[i].info.size;
                        proof {
                            assert(files_view(files@) =~= files_view(pre).push(fvs[i as int]));
                            assert(files_view(files@).drop_last() =~= files_view(pre));
                            assert(files_view(files@).last() == fvs[i as int]);
                        }
                    }
                    proof {
                        assert(fvs.subrange(0, i + 1).drop_last() =~= fvs.subrange(0, i as int));
                        assert(fvs.subrange(0, i + 1).last() == fvs[i as int]);
                        assert(files_view(files@) == sanitize_files_v(fvs.subrange(0, i + 1)));
                    }
                }
                proof {
                    assert(fvs.subrange(0, n as int) =~= fvs);
                }
                Ok(CacheStorage { block_size, store, files, modified: false })
            },
            None => Err(CacheError::Serialization),
        }
    }

    /// The bytes to persist, or nothing when no mutating operation has
    /// happened since construction: the serialized pair of the block index
    /// and the file index.
    pub fn save_index(&self) -> (r: Option<Vec<u8>>)
        requires
            self@.wf(),
        ensures
            (r is Some) <==> (self@.modified || self@.store.modified),
            r matches Some(b) ==> b@ == crate::codec::enc_index(self@.store.entries, self@.files),
    {
        if !self.modified && !self.store.is_modified() {
            return None;
        }
        let idx = self.store.get_index();
        let ne = idx.len();
        let nf = self.files.len();
        proof {
            assert forall|i: int| 0 <= i < self@.store.entries.len() implies
                crate::codec::enc_entry_wf(#[trigger] self@.store.entries[i]) by {
                assert(entries_view(idx@)[i] == idx@[i]@);
                assert(entry_wf(self@.store.entries[i], self@.store.data.len() as int));
            }
            assert forall|i: int| 0 <= i < self@.files.len() implies crate::codec::enc_file_wf(
                #[trigger] self@.files[i],
            ) by {
                assert(files_view(self.files@)[i] == self.files@[i]@);
                vstd::std_specs::vec::axiom_spec_len(&self.files@[i].id);
                vstd::std_specs::vec::axiom_spec_len(&self.files@[i].info.name);
                vstd::std_specs::vec::axiom_spec_len(&self.files@[i].info.blocks);
                assert(file_rec_wf(self@.files[i].rec));
            }
        }
        Some(crate::codec::encode_index(idx, &self.files))
    }

    /// Counts and sizes: number of indexed blocks, number of files, the
    /// physically reachable stored bytes, and the logical bytes (the sum
    /// of all recorded file sizes).
    pub fn get_stats(&self) -> (r: (usize, usize, u64, u64))
        requires
            self@.wf(),
        ensures
            r.0 == self@.store.entries.len(),
            r.1 == self@.files.len(),
            r.2 == sum_sizes(self@.store.entries),
            r.3 == logical_size(self@.files),
    {
        let blocks = self.store.block_count();
        let nfiles = self.files.len();
        let stored = self.store.total_size();
        let mut logical: u64 = 0;
        let n = self.files.len();
        for i in 0..n
            invariant
                self@.wf(),
                n == self.files@.len(),
                logical == logical_size(self@.files.subrange(0, i as int)),
        {
            proof {
                lemma_logical_prefix(self@.files, i + 1);
                assert(self@.files.subrange(0, i + 1).drop_last() =~= self@.files.subrange(
                    0,
                    i as int,
                ));
                assert(self@.files.subrange(0, i + 1).last() == self@.files[i as int]);
                assert(self@.files[i as int].rec.size == self.files@[i as int].info.size);
            }
            logical = logical + self.files[i].info.size;
        }
        proof {
            assert(self@.files.subrange(0, n as int) =~= self@.files);
        }
        (blocks, nfiles, stored, logical)
    }

    /// The bytes of the backing data region, as they must be persisted.
    pub fn data_bytes(&self) -> (r: &Vec<u8>)
        ensures
            r@ == self@.store.data,
    {
        self.store.data_bytes()
    }

    /// Whether any mutating operation has happened on the file index or
    /// the block store since construction.
    pub fn is_modified(&self) -> (r: bool)
        ensures
            r == (self@.modified || self@.store.modified),
    {
        self.modified || self.store.is_modified()
    }
}

/// A digest occurring at position `j` occurs in the suffix from `j`.
pub proof fn lemma_count_in_suffix(bs: Seq<Seq<u8>>, j: int, d: Seq<u8>)
    requires
        0 <= j < bs.len(),
    ensures
        bs[j] == d ==> count_in(bs.skip(j), d) >= 1,
        count_in(bs.skip(j), d) == count_in(bs.skip(j + 1), d) + if bs[j] == d {
            1int
        } else {
            0int
        },
    decreases bs.len() - j,
{
    lemma_count_in_nonneg(bs.skip(j + 1), d);
    if j == bs.len() - 1 {
        assert(bs.skip(j) =~= seq![bs[j]]);
        assert(bs.skip(j).drop_last() =~= bs.skip(j + 1));
    } else {
        lemma_count_in_suffix(bs, j + 1, d);
        assert(bs.skip(j).drop_last() =~= bs.skip(j).take(bs.len() - j - 1));
        assert(bs.skip(j).last() == bs.last());
        lemma_count_in_mid(bs, j, d);
    }
}

/// Counting a suffix from the front: taking one element off the front of
/// a suffix lowers the count by that element's contribution.
pub proof fn lemma_count_in_mid(bs: Seq<Seq<u8>>, j: int, d: Seq<u8>)
    requires
        0 <= j < bs.len(),
    ensures
        count_in(bs.skip(j), d) == count_in(bs.skip(j + 1), d) + if bs[j] == d {
            1int
        } else {
            0int
        },
    decreases bs.len() - j,
{
    if j == bs.len() - 1 {
        assert(bs.skip(j) =~= seq![bs[j]]);
        assert(bs.skip(j).drop_last() =~= bs.skip(j + 1));
        assert(bs.skip(j + 1).len() == 0);
    } else {
        assert(bs.skip(j).drop_last() =~= bs.drop_last().skip(j));
        assert(bs.skip(j + 1).drop_last() =~= bs.drop_last().skip(j + 1));
        assert(bs.skip(j).last() == bs.last());
        assert(bs.skip(j + 1).last() == bs.last());
        lemma_count_in_mid(bs.drop_last(), j, d);
        assert(bs.drop_last()[j] == bs[j]);
    }
}

pub proof fn lemma_occ_nonneg(fs: Seq<FileEntryV>, d: Seq<u8>)
    ensures
        occ(fs, d) >= 0,
    decreases fs.len(),
{
    if fs.len() > 0 {
        lemma_occ_nonneg(fs.drop_last(), d);
        lemma_count_in_nonneg(fs.last().rec.blocks, d);
    }
}

/// Releasing one reference lowers the released digest's count by one and
/// no other digest's count.
pub proof fn lemma_release_count(sv: StoreV, b: Seq<u8>, d: Seq<u8>)
    requires
        sv.wf(),
        sv.has(b),
    ensures
        count_of(sv.release_v(b).entries, d) >= count_of(sv.entries, d) - if b == d {
            1int
        } else {
            0int
        },
{
    let es = sv.entries;
    let i = idx_of(es, b);
    assert(0 <= i < es.len() && es[i].digest == b);
    let es2 = sv.release_v(b).entries;
    if count_of(es, d) <= 0 {
        assert(!has_digest(es, d));
        assert(b != d);
        if has_digest(es2, d) {
            let w = idx_of(es2, d);
            assert(0 <= w < es2.len() && es2[w].digest == d);
            if es[i].count == 1 {
                let w0 = if w < i { w } else { w + 1 };
                assert(es2[w] == es[w0]);
                assert(entry_wf(es[w0], sv.data.len() as int));
            } else {
                assert(entry_wf(es[w], sv.data.len() as int));
                if w == i {
                    assert(es2[w].count == es[w].count - 1);
                } else {
                    assert(es2[w] == es[w]);
                }
            }
            assert(es2[w].count >= 0);
        }
    } else {
        let k = idx_of(es, d);
        assert(has_digest(es, d));
        assert(0 <= k < es.len() && es[k].digest == d);
        if es[i].count == 1 {
            if k != i {
                let k2 = if k < i { k } else { k - 1 };
                assert(es2[k2] == es[k]);
                assert(has_digest(es2, d));
                let w = idx_of(es2, d);
                assert(es2[w].digest == d);
                let w0 = if w < i { w } else { w + 1 };
                assert(es2[w] == es[w0]);
                assert(w0 == k) by {
                    if w0 != k {
                        assert(es[w0].digest != es[k].digest);
                    }
                }
                assert(b != d);
            }
        } else {
            assert(es2[k].digest == d);
            assert(has_digest(es2, d));
            let w = idx_of(es2, d);
            assert(es2[w].digest == d);
            assert(w == k) by {
                if w != k {
                    assert(es[w].digest == es2[w].digest);
                    assert(es[w].digest != es[k].digest);
                }
            }
            if k == i {
                assert(b == d) by {
                    assert(es[i].digest == b && es[k].digest == d);
                }
            }
        }
    }
}

/// A failed step anywhere in a prefix fails the whole sequence.
proof fn lemma_store_seq_ok_prefix(sv: StoreV, cs: Seq<Seq<u8>>, n: int)
    requires
        0 <= n <= cs.len(),
        !store_seq_ok(sv, cs.take(n)),
    ensures
        !store_seq_ok(sv, cs),
    decreases cs.len() - n,
{
    if n == cs.len() {
        assert(cs.take(n) =~= cs);
    } else {
        assert(cs.take(n + 1).drop_last() =~= cs.take(n));
        lemma_store_seq_ok_prefix(sv, cs, n + 1);
    }
}

proof fn lemma_release_seq_ok_prefix(sv: StoreV, bs: Seq<Seq<u8>>, n: int)
    requires
        0 <= n <= bs.len(),
        !release_seq_ok(sv, bs.take(n)),
    ensures
        !release_seq_ok(sv, bs),
    decreases bs.len() - n,
{
    if n == bs.len() {
        assert(bs.take(n) =~= bs);
    } else {
        assert(bs.take(n + 1).drop_last() =~= bs.take(n));
        lemma_release_seq_ok_prefix(sv, bs, n + 1);
    }
}


/// A fresh copy of a list of digest byte vectors.
pub fn copy_blocks(src: &Vec<Vec<u8>>) -> (r: Vec<Vec<u8>>)
    ensures
        blocks_view(r@) == blocks_view(src@),
{
    let mut out: Vec<Vec<u8>> = Vec::new();
    let n = src.len();
    for k in 0..n
        invariant
            n == src@.len(),
            out@.len() == k,
            forall|j: int| 0 <= j < k ==> blocks_view(out@)[j] == blocks_view(src@)[j],
    {
        let ghost pre = out@;
        out.push(copy_bytes(src[k].as_slice()));
        proof {
            assert forall|j: int| 0 <= j < k + 1 implies blocks_view(out@)[j] == blocks_view(
                src@,
            )[j] by {
                if j < k {
                    assert(out@[j] == pre[j]);
                }
            }
        }
    }
    proof {
        assert(blocks_view(out@) =~= blocks_view(src@));
    }
    out
}

/// A fresh byte vector holding the bytes of a slice.
pub fn copy_bytes(src: &[u8]) -> (r: Vec<u8>)
    ensures
        r@ == src@,
{
    let mut out: Vec<u8> = Vec::new();
    let n = src.len();
    for k in 0..n
        invariant
            n == src@.len(),
            out@ == src@.subrange(0, k as int),
    {
        out.push(src[k]);
        proof {
            assert(out@ =~= src@.subrange(0, k + 1 as int));
        }
    }
    proof {
        assert(out@ =~= src@);
    }
    out
}

} // verus!
