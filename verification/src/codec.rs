//! The persisted form of the index: block index and file index serialized
//! as one unit. Block digests are rendered as fixed-length hexadecimal in
//! the block index; counts and lengths are little-endian 64-bit values.
//! Loading skips an entry whose digest field is not valid hexadecimal
//! rather than failing the whole load.
use vstd::prelude::*;
use vstd::bytes::{
    lemma_auto_spec_u64_to_from_le_bytes, spec_u64_from_le_bytes, spec_u64_to_le_bytes,
    u64_from_le_bytes, u64_to_le_bytes,
};
use crate::block::{BlockEntry, BlockInfo, EntryV, entries_view};
use crate::cache::{FileEntry, FileEntryV, FileInfo, FileRecV, blocks_view, copy_bytes, files_view};
use crate::hashing::{from_hex, hex_of, lemma_hex_round_trip, to_hex, unhex_of, valid_hex};

verus! {

pub open spec fn le64(x: int) -> Seq<u8> {
    spec_u64_to_le_bytes(x as u64)
}

/// The u64 read at a position.
pub open spec fn du(buf: Seq<u8>, pos: int) -> int {
    spec_u64_from_le_bytes(buf.subrange(pos, pos + 8)) as int
}

/// One serialized block index entry: 64 hexadecimal digest bytes, then
/// offset, size and reference count.
pub open spec fn enc_entry(e: EntryV) -> Seq<u8> {
    hex_of(e.digest) + le64(e.offset) + le64(e.size) + le64(e.count)
}

pub open spec fn enc_entries(es: Seq<EntryV>) -> Seq<u8>
    decreases es.len(),
{
    if es.len() == 0 {
        Seq::empty()
    } else {
        enc_entries(es.drop_last()) + enc_entry(es.last())
    }
}

pub open spec fn flat_blocks(bs: Seq<Seq<u8>>) -> Seq<u8>
    decreases bs.len(),
{
    if bs.len() == 0 {
        Seq::empty()
    } else {
        flat_blocks(bs.drop_last()) + bs.last()
    }
}

/// One serialized file record: length-prefixed identifier and name, the
/// byte size, and the length-prefixed list of raw block digests.
pub open spec fn enc_file(f: FileEntryV) -> Seq<u8> {
    le64(f.id.len() as int) + f.id + le64(f.rec.name.len() as int) + f.rec.name + le64(f.rec.size)
        + le64(f.rec.blocks.len() as int) + flat_blocks(f.rec.blocks)
}

pub open spec fn enc_files(fs: Seq<FileEntryV>) -> Seq<u8>
    decreases fs.len(),
{
    if fs.len() == 0 {
        Seq::empty()
    } else {
        enc_files(fs.drop_last()) + enc_file(fs.last())
    }
}

/// The whole serialized index: the block index then the file index, each
/// preceded by its entry count.
pub open spec fn enc_index(es: Seq<EntryV>, fs: Seq<FileEntryV>) -> Seq<u8> {
    le64(es.len() as int) + enc_entries(es) + le64(fs.len() as int) + enc_files(fs)
}

/// What the encoder itself guarantees of an index: every digest is 32
/// bytes and every numeric field fits its serialized form.
pub open spec fn enc_entry_wf(e: EntryV) -> bool {
    &&& e.digest.len() == 32
    &&& 0 <= e.offset <= u64::MAX
    &&& 0 <= e.size <= u32::MAX
    &&& 1 <= e.count <= u32::MAX
}

pub open spec fn enc_file_wf(f: FileEntryV) -> bool {
    &&& 0 <= f.rec.size <= u64::MAX
    &&& f.id.len() <= u64::MAX
    &&& f.rec.name.len() <= u64::MAX
    &&& f.rec.blocks.len() <= u64::MAX
    &&& forall|j: int| 0 <= j < f.rec.blocks.len() ==> (#[trigger] f.rec.blocks[j]).len() == 32
}

pub open spec fn enc_index_wf(es: Seq<EntryV>, fs: Seq<FileEntryV>) -> bool {
    &&& es.len() <= u64::MAX
    &&& fs.len() <= u64::MAX
    &&& forall|i: int| 0 <= i < es.len() ==> enc_entry_wf(#[trigger] es[i])
    &&& forall|i: int| 0 <= i < fs.len() ==> enc_file_wf(#[trigger] fs[i])
}

/// Parse `k` block index entries from `pos`, skipping an entry whose
/// digest field is not valid hexadecimal or whose numbers are out of
/// range.
pub open spec fn dec_entries(buf: Seq<u8>, pos: int, k: int) -> Option<(Seq<EntryV>, int)>
    decreases k,
{
    if k <= 0 {
        Option::Some((Seq::empty(), pos))
    } else if pos < 0 || pos + 88 > buf.len() {
        Option::None
    } else {
        let hx = buf.subrange(pos, pos + 64);
        let off = du(buf, pos + 64);
        let sz = du(buf, pos + 72);
        let ct = du(buf, pos + 80);
        match dec_entries(buf, pos + 88, k - 1) {
            Option::None => Option::None,
            Option::Some((rest, end)) => {
                if valid_hex(hx) && 1 <= ct <= u32::MAX && sz <= u32::MAX {
                    Option::Some(
                        (
                            seq![EntryV { digest: unhex_of(hx), offset: off, size: sz, count: ct }]
                                + rest,
                            end,
                        ),
                    )
                } else {
                    Option::Some((rest, end))
                }
            },
        }
    }
}

/// Parse `k` raw 32-byte digests from `pos`.
pub open spec fn dec_blocks(buf: Seq<u8>, pos: int, k: int) -> Option<(Seq<Seq<u8>>, int)>
    decreases k,
{
    if k <= 0 {
        Option::Some((Seq::empty(), pos))
    } else if pos < 0 || pos + 32 > buf.len() {
        Option::None
    } else {
        match dec_blocks(buf, pos + 32, k - 1) {
            Option::None => Option::None,
            Option::Some((rest, end)) => Option::Some(
                (seq![buf.subrange(pos, pos + 32)] + rest, end),
            ),
        }
    }
}

/// Parse one file record from `pos`.
pub open spec fn dec_file(buf: Seq<u8>, pos: int) -> Option<(FileEntryV, int)> {
    if pos < 0 || pos + 8 > buf.len() {
        Option::None
    } else {
        let idl = du(buf, pos);
        if pos + 8 + idl + 8 > buf.len() {
            Option::None
        } else {
            let id = buf.subrange(pos + 8, pos + 8 + idl);
            let p1 = pos + 8 + idl;
            let nml = du(buf, p1);
            if p1 + 8 + nml + 16 > buf.len() {
                Option::None
            } else {
                let name = buf.subrange(p1 + 8, p1 + 8 + nml);
                let p2 = p1 + 8 + nml;
                let size = du(buf, p2);
                let nb = du(buf, p2 + 8);
                match dec_blocks(buf, p2 + 16, nb) {
                    Option::None => Option::None,
                    Option::Some((bs, end)) => Option::Some(
                        (
                            FileEntryV { id: id, rec: FileRecV { blocks: bs, size: size, name: name } },
                            end,
                        ),
                    ),
                }
            }
        }
    }
}

pub open spec fn dec_files(buf: Seq<u8>, pos: int, k: int) -> Option<(Seq<FileEntryV>, int)>
    decreases k,
{
    if k <= 0 {
        Option::Some((Seq::empty(), pos))
    } else {
        match dec_file(buf, pos) {
            Option::None => Option::None,
            Option::Some((f, p)) => match dec_files(buf, p, k - 1) {
                Option::None => Option::None,
                Option::Some((rest, end)) => Option::Some((seq![f] + rest, end)),
            },
        }
    }
}

/// Parse a whole serialized index; the input must be consumed exactly.
pub open spec fn dec_index(buf: Seq<u8>) -> Option<(Seq<EntryV>, Seq<FileEntryV>)> {
    if buf.len() < 8 {
        Option::None
    } else {
        let m = du(buf, 0);
        match dec_entries(buf, 8, m) {
            Option::None => Option::None,
            Option::Some((es, p)) => {
                if p + 8 > buf.len() {
                    Option::None
                } else {
                    let fm = du(buf, p);
                    match dec_files(buf, p + 8, fm) {
                        Option::None => Option::None,
                        Option::Some((fs, end)) => {
                            if end == buf.len() {
                                Option::Some((es, fs))
                            } else {
                                Option::None
                            }
                        },
                    }
                }
            },
        }
    }
}

proof fn lemma_enc_entries_prepend(e: EntryV, t: Seq<EntryV>)
    ensures
        enc_entries(seq![e] + t) == enc_entry(e) + enc_entries(t),
    decreases t.len(),
{
    if t.len() == 0 {
        assert(seq![e] + t =~= seq![e]);
        assert(seq![e].drop_last() =~= Seq::<EntryV>::empty());
        assert(enc_entries(seq![e].drop_last()) == Seq::<u8>::empty());
        assert(seq![e].last() == e);
        assert(enc_entries(seq![e]) == Seq::<u8>::empty() + enc_entry(e));
        assert(enc_entries(t) == Seq::<u8>::empty());
        assert(Seq::<u8>::empty() + enc_entry(e) =~= enc_entry(e) + Seq::<u8>::empty());
    } else {
        lemma_enc_entries_prepend(e, t.drop_last());
        assert((seq![e] + t).drop_last() =~= seq![e] + t.drop_last());
        assert((seq![e] + t).last() == t.last());
        assert((enc_entry(e) + enc_entries(t.drop_last())) + enc_entry(t.last()) =~= enc_entry(e)
            + enc_entries(t));
    }
}

proof fn lemma_flat_blocks_prepend(b: Seq<u8>, t: Seq<Seq<u8>>)
    ensures
        flat_blocks(seq![b] + t) == b + flat_blocks(t),
    decreases t.len(),
{
    if t.len() == 0 {
        assert(seq![b] + t =~= seq![b]);
        assert(seq![b].drop_last() =~= Seq::<Seq<u8>>::empty());
        assert(flat_blocks(seq![b].drop_last()) == Seq::<u8>::empty());
        assert(seq![b].last() == b);
        assert(flat_blocks(seq![b]) == Seq::<u8>::empty() + b);
        assert(flat_blocks(t) == Seq::<u8>::empty());
        assert(Seq::<u8>::empty() + b =~= b + Seq::<u8>::empty());
    } else {
        lemma_flat_blocks_prepend(b, t.drop_last());
        assert((seq![b] + t).drop_last() =~= seq![b] + t.drop_last());
        assert((seq![b] + t).last() == t.last());
        assert((b + flat_blocks(t.drop_last())) + t.last() =~= b + flat_blocks(t));
    }
}

proof fn lemma_enc_files_prepend(f: FileEntryV, t: Seq<FileEntryV>)
    ensures
        enc_files(seq![f] + t) == enc_file(f) + enc_files(t),
    decreases t.len(),
{
    if t.len() == 0 {
        assert(seq![f] + t =~= seq![f]);
        assert(seq![f].drop_last() =~= Seq::<FileEntryV>::empty());
        assert(enc_files(seq![f].drop_last()) == Seq::<u8>::empty());
        assert(seq![f].last() == f);
        assert(enc_files(seq![f]) == Seq::<u8>::empty() + enc_file(f));
        assert(enc_files(t) == Seq::<u8>::empty());
        assert(Seq::<u8>::empty() + enc_file(f) =~= enc_file(f) + Seq::<u8>::empty());
    } else {
        lemma_enc_files_prepend(f, t.drop_last());
        assert((seq![f] + t).drop_last() =~= seq![f] + t.drop_last());
        assert((seq![f] + t).last() == t.last());
        assert((enc_file(f) + enc_files(t.drop_last())) + enc_file(t.last()) =~= enc_file(f)
            + enc_files(t));
    }
}

proof fn lemma_enc_entries_len(es: Seq<EntryV>)
    requires
        forall|i: int| 0 <= i < es.len() ==> enc_entry_wf(#[trigger] es[i]),
    ensures
        enc_entries(es).len() == 88 * es.len(),
    decreases es.len(),
{
    lemma_auto_spec_u64_to_from_le_bytes();
    if es.len() > 0 {
        lemma_enc_entries_len(es.drop_last());
        assert(hex_of(es.last().digest).len() == 64);
    }
}

/// Parsing what the entry encoder wrote gives back the entries.
proof fn lemma_dec_entries_round(buf: Seq<u8>, pos: int, es: Seq<EntryV>)
    requires
        0 <= pos,
        pos + 88 * es.len() <= buf.len(),
        buf.subrange(pos, pos + 88 * es.len()) == enc_entries(es),
        forall|i: int| 0 <= i < es.len() ==> enc_entry_wf(#[trigger] es[i]),
    ensures
        dec_entries(buf, pos, es.len() as int) == Option::Some((es, pos + 88 * es.len())),
    decreases es.len(),
{
    lemma_auto_spec_u64_to_from_le_bytes();
    if es.len() == 0 {
    } else {
        let e = es[0];
        let t = es.skip(1);
        assert(seq![e] + t =~= es);
        lemma_enc_entries_prepend(e, t);
        lemma_enc_entries_len(es);
        assert forall|i: int| 0 <= i < t.len() implies enc_entry_wf(#[trigger] t[i]) by {
            assert(t[i] == es[i + 1]);
        }
        lemma_enc_entries_len(t);
        lemma_hex_round_trip(e.digest);
        assert(hex_of(e.digest).len() == 64);
        let ee = enc_entry(e);
        assert(ee.len() == 88);
        assert(buf.subrange(pos, pos + 88) =~= ee) by {
            assert forall|x: int| 0 <= x < 88 implies buf.subrange(pos, pos + 88)[x] == ee[x] by {
                assert(buf.subrange(pos, pos + 88 * es.len())[x] == ee[x]);
                assert(buf.subrange(pos, pos + 88)[x] == buf[pos + x]);
                assert(buf.subrange(pos, pos + 88 * es.len())[x] == buf[pos + x]);
            }
        }
        assert(buf.subrange(pos, pos + 64) =~= hex_of(e.digest)) by {
            assert forall|x: int| 0 <= x < 64 implies buf.subrange(pos, pos + 64)[x] == hex_of(
                e.digest,
            )[x] by {
                assert(ee[x] == hex_of(e.digest)[x]);
                assert(buf.subrange(pos, pos + 88)[x] == ee[x]);
            }
        }
        assert(buf.subrange(pos + 64, pos + 72) =~= le64(e.offset)) by {
            assert forall|x: int| 0 <= x < 8 implies buf.subrange(pos + 64, pos + 72)[x] == le64(
                e.offset,
            )[x] by {
                assert(ee[64 + x] == le64(e.offset)[x]);
                assert(buf.subrange(pos, pos + 88)[64 + x] == ee[64 + x]);
            }
        }
        assert(buf.subrange(pos + 72, pos + 80) =~= le64(e.size)) by {
            assert forall|x: int| 0 <= x < 8 implies buf.subrange(pos + 72, pos + 80)[x] == le64(
                e.size,
            )[x] by {
                assert(ee[72 + x] == le64(e.size)[x]);
                assert(buf.subrange(pos, pos + 88)[72 + x] == ee[72 + x]);
            }
        }
        assert(buf.subrange(pos + 80, pos + 88) =~= le64(e.count)) by {
            assert forall|x: int| 0 <= x < 8 implies buf.subrange(pos + 80, pos + 88)[x] == le64(
                e.count,
            )[x] by {
                assert(ee[80 + x] == le64(e.count)[x]);
                assert(buf.subrange(pos, pos + 88)[80 + x] == ee[80 + x]);
            }
        }
        assert(du(buf, pos + 64) == e.offset);
        assert(du(buf, pos + 72) == e.size);
        assert(du(buf, pos + 80) == e.count);
        assert(buf.subrange(pos + 88, pos + 88 + 88 * t.len()) =~= enc_entries(t)) by {
            assert forall|x: int| 0 <= x < 88 * t.len() implies buf.subrange(
                pos + 88,
                pos + 88 + 88 * t.len(),
            )[x] == enc_entries(t)[x] by {
                assert(buf.subrange(pos, pos + 88 * es.len())[88 + x] == (ee + enc_entries(t))[88
                    + x]);
            }
        }
        lemma_dec_entries_round(buf, pos + 88, t);
        assert(unhex_of(buf.subrange(pos, pos + 64)) == e.digest);
        assert(dec_entries(buf, pos, es.len() as int) == Option::Some(
            (seq![e] + t, pos + 88 * es.len()),
        ));
    }
}

proof fn lemma_flat_blocks_len(bs: Seq<Seq<u8>>)
    requires
        forall|j: int| 0 <= j < bs.len() ==> (#[trigger] bs[j]).len() == 32,
    ensures
        flat_blocks(bs).len() == 32 * bs.len(),
    decreases bs.len(),
{
    if bs.len() > 0 {
        lemma_flat_blocks_len(bs.drop_last());
    }
}

proof fn lemma_dec_blocks_round(buf: Seq<u8>, pos: int, bs: Seq<Seq<u8>>)
    requires
        0 <= pos,
        pos + 32 * bs.len() <= buf.len(),
        buf.subrange(pos, pos + 32 * bs.len()) == flat_blocks(bs),
        forall|j: int| 0 <= j < bs.len() ==> (#[trigger] bs[j]).len() == 32,
    ensures
        dec_blocks(buf, pos, bs.len() as int) == Option::Some((bs, pos + 32 * bs.len())),
    decreases bs.len(),
{
    if bs.len() == 0 {
    } else {
        let b = bs[0];
        let t = bs.skip(1);
        assert(seq![b] + t =~= bs);
        lemma_flat_blocks_prepend(b, t);
        assert forall|j: int| 0 <= j < t.len() implies (#[trigger] t[j]).len() == 32 by {
            assert(t[j] == bs[j + 1]);
        }
        lemma_flat_blocks_len(t);
        assert(buf.subrange(pos, pos + 32) =~= b) by {
            assert forall|x: int| 0 <= x < 32 implies buf.subrange(pos, pos + 32)[x] == b[x] by {
                assert(buf.subrange(pos, pos + 32 * bs.len())[x] == (b + flat_blocks(t))[x]);
            }
        }
        assert(buf.subrange(pos + 32, pos + 32 + 32 * t.len()) =~= flat_blocks(t)) by {
            assert forall|x: int| 0 <= x < 32 * t.len() implies buf.subrange(
                pos + 32,
                pos + 32 + 32 * t.len(),
            )[x] == flat_blocks(t)[x] by {
                assert(buf.subrange(pos, pos + 32 * bs.len())[32 + x] == (b + flat_blocks(t))[32
                    + x]);
            }
        }
        lemma_dec_blocks_round(buf, pos + 32, t);
    }
}

pub open spec fn enc_file_len(f: FileEntryV) -> int {
    8 + f.id.len() as int + 8 + f.rec.name.len() as int + 16 + 32 * f.rec.blocks.len() as int
}

proof fn lemma_enc_file_len(f: FileEntryV)
    requires
        enc_file_wf(f),
    ensures
        enc_file(f).len() == enc_file_len(f),
{
    lemma_auto_spec_u64_to_from_le_bytes();
    lemma_flat_blocks_len(f.rec.blocks);
}

proof fn lemma_dec_file_round(buf: Seq<u8>, pos: int, f: FileEntryV)
    requires
        0 <= pos,
        pos + enc_file_len(f) <= buf.len(),
        buf.subrange(pos, pos + enc_file_len(f)) == enc_file(f),
        enc_file_wf(f),
    ensures
        dec_file(buf, pos) == Option::Some((f, pos + enc_file_len(f))),
{
    lemma_auto_spec_u64_to_from_le_bytes();
    lemma_enc_file_len(f);
    lemma_flat_blocks_len(f.rec.blocks);
    let ef = enc_file(f);
    let n = enc_file_len(f);

    let idl = f.id.len() as int;
    let nml = f.rec.name.len() as int;
    let nb = f.rec.blocks.len() as int;
    assert(buf.subrange(pos, pos + 8) =~= le64(idl)) by {
        assert forall|y: int| 0 <= y < 8 implies buf.subrange(pos, pos + 8)[y] == le64(idl)[y] by {
            assert(buf.subrange(pos, pos + n)[y] == ef[y]);
        }
    }
    assert(du(buf, pos) == idl);
    assert(buf.subrange(pos + 8, pos + 8 + idl) =~= f.id) by {
        assert forall|y: int| 0 <= y < idl implies buf.subrange(pos + 8, pos + 8 + idl)[y] == f.id[y]
            by {
            assert(buf.subrange(pos, pos + n)[8 + y] == ef[8 + y]);
            assert(buf.subrange(pos + 8, pos + 8 + idl)[y] == buf[pos + 8 + y]);
            assert(buf.subrange(pos, pos + n)[8 + y] == buf[pos + 8 + y]);
        }
    }
    let p1 = pos + 8 + idl;
    assert(buf.subrange(p1, p1 + 8) =~= le64(nml)) by {
        assert forall|y: int| 0 <= y < 8 implies buf.subrange(p1, p1 + 8)[y] == le64(nml)[y] by {
            assert(buf.subrange(pos, pos + n)[8 + idl + y] == ef[8 + idl + y]);
            assert(buf.subrange(p1, p1 + 8)[y] == buf[p1 + y]);
            assert(buf.subrange(pos, pos + n)[8 + idl + y] == buf[p1 + y]);
        }
    }
    assert(du(buf, p1) == nml);
    assert(buf.subrange(p1 + 8, p1 + 8 + nml) =~= f.rec.name) by {
        assert forall|y: int| 0 <= y < nml implies buf.subrange(p1 + 8, p1 + 8 + nml)[y]
            == f.rec.name[y] by {
            assert(buf.subrange(pos, pos + n)[16 + idl + y] == ef[16 + idl + y]);
            assert(buf.subrange(p1 + 8, p1 + 8 + nml)[y] == buf[p1 + 8 + y]);
            assert(buf.subrange(pos, pos + n)[16 + idl + y] == buf[p1 + 8 + y]);
        }
    }
    let p2 = p1 + 8 + nml;
    assert(buf.subrange(p2, p2 + 8) =~= le64(f.rec.size)) by {
        assert forall|y: int| 0 <= y < 8 implies buf.subrange(p2, p2 + 8)[y] == le64(f.rec.size)[y]
            by {
            assert(buf.subrange(pos, pos + n)[16 + idl + nml + y] == ef[16 + idl + nml + y]);
            assert(buf.subrange(p2, p2 + 8)[y] == buf[p2 + y]);
            assert(buf.subrange(pos, pos + n)[16 + idl + nml + y] == buf[p2 + y]);
        }
    }
    assert(du(buf, p2) == f.rec.size);
    assert(buf.subrange(p2 + 8, p2 + 16) =~= le64(nb)) by {
        assert forall|y: int| 0 <= y < 8 implies buf.subrange(p2 + 8, p2 + 16)[y] == le64(nb)[y] by {
            assert(buf.subrange(pos, pos + n)[24 + idl + nml + y] == ef[24 + idl + nml + y]);
            assert(buf.subrange(p2 + 8, p2 + 16)[y] == buf[p2 + 8 + y]);
            assert(buf.subrange(pos, pos + n)[24 + idl + nml + y] == buf[p2 + 8 + y]);
        }
    }
    assert(du(buf, p2 + 8) == nb);
    assert(buf.subrange(p2 + 16, p2 + 16 + 32 * nb) =~= flat_blocks(f.rec.blocks)) by {
        assert forall|x: int| 0 <= x < 32 * nb implies buf.subrange(p2 + 16, p2 + 16 + 32 * nb)[x]
            == flat_blocks(f.rec.blocks)[x] by {
            assert(buf.subrange(pos, pos + n)[32 + idl + nml + x] == ef[32 + idl + nml + x]);
            assert(buf.subrange(p2 + 16, p2 + 16 + 32 * nb)[x] == buf[p2 + 16 + x]);
            assert(buf.subrange(pos, pos + n)[32 + idl + nml + x] == buf[p2 + 16 + x]);
        }
    }
    lemma_dec_blocks_round(buf, p2 + 16, f.rec.blocks);
}

proof fn lemma_dec_files_round(buf: Seq<u8>, pos: int, fs: Seq<FileEntryV>)
    requires
        0 <= pos,
        pos + enc_files(fs).len() <= buf.len(),
        buf.subrange(pos, pos + enc_files(fs).len()) == enc_files(fs),
        forall|i: int| 0 <= i < fs.len() ==> enc_file_wf(#[trigger] fs[i]),
    ensures
        dec_files(buf, pos, fs.len() as int) == Option::Some((fs, pos + enc_files(fs).len())),
    decreases fs.len(),
{
    if fs.len() == 0 {
    } else {
        let f = fs[0];
        let t = fs.skip(1);
        assert(seq![f] + t =~= fs);
        lemma_enc_files_prepend(f, t);
        assert forall|i: int| 0 <= i < t.len() implies enc_file_wf(#[trigger] t[i]) by {
            assert(t[i] == fs[i + 1]);
        }
        lemma_enc_file_len(f);
        let n = enc_file_len(f);
        assert(buf.subrange(pos, pos + n) =~= enc_file(f)) by {
            assert forall|x: int| 0 <= x < n implies buf.subrange(pos, pos + n)[x] == enc_file(
                f,
            )[x] by {
                assert(buf.subrange(pos, pos + enc_files(fs).len())[x] == (enc_file(f)
                    + enc_files(t))[x]);
            }
        }
        lemma_dec_file_round(buf, pos, f);
        assert(buf.subrange(pos + n, pos + n + enc_files(t).len()) =~= enc_files(t)) by {
            assert forall|x: int| 0 <= x < enc_files(t).len() implies buf.subrange(
                pos + n,
                pos + n + enc_files(t).len(),
            )[x] == enc_files(t)[x] by {
                assert(buf.subrange(pos, pos + enc_files(fs).len())[n + x] == (enc_file(f)
                    + enc_files(t))[n + x]);
            }
        }
        lemma_dec_files_round(buf, pos + n, t);
    }
}

/// Persistence round trip: parsing the serialized index gives back the
/// very same block index entries and file records.
pub proof fn lemma_codec_round_trip(es: Seq<EntryV>, fs: Seq<FileEntryV>)
    requires
        enc_index_wf(es, fs),
    ensures
        dec_index(enc_index(es, fs)) == Option::Some((es, fs)),
{
    lemma_auto_spec_u64_to_from_le_bytes();
    let buf = enc_index(es, fs);
    lemma_enc_entries_len(es);
    let eb: int = 8 + 88 * es.len() as int;
    assert(buf.subrange(0, 8) =~= le64(es.len() as int));
    assert(du(buf, 0) == es.len());
    assert(buf.subrange(8, eb as int) =~= enc_entries(es));
    lemma_dec_entries_round(buf, 8, es);
    assert(buf.subrange(eb as int, eb + 8) =~= le64(fs.len() as int));
    assert(du(buf, eb as int) == fs.len());
    assert(buf.subrange(eb + 8, eb + 8 + enc_files(fs).len()) =~= enc_files(fs));
    lemma_dec_files_round(buf, eb + 8, fs);
    assert(eb + 8 + enc_files(fs).len() == buf.len());
}

/// Write a little-endian u64 onto the output.
fn write_u64(out: &mut Vec<u8>, x: u64)
    ensures
        final(out)@ == old(out)@ + spec_u64_to_le_bytes(x),
{
    let mut b = u64_to_le_bytes(x);
    out.append(&mut b);
}

/// Append the bytes of a slice onto the output.
fn write_bytes(out: &mut Vec<u8>, src: &[u8])
    ensures
        final(out)@ == old(out)@ + src@,
{
    let mut b = copy_bytes(src);
    out.append(&mut b);
}

/// Serialize the index: the block index with hexadecimal digests, then the
/// file index.
pub fn encode_index(entries: &Vec<BlockEntry>, files: &Vec<FileEntry>) -> (r: Vec<u8>)
    requires
        entries@.len() <= u64::MAX,
        files@.len() <= u64::MAX,
        forall|i: int| 0 <= i < entries@.len() ==> enc_entry_wf(#[trigger] entries_view(entries@)[i]),
        forall|i: int| 0 <= i < files@.len() ==> enc_file_wf(#[trigger] files_view(files@)[i]),
    ensures
        r@ == enc_index(entries_view(entries@), files_view(files@)),
{
    let ghost es = entries_view(entries@);
    let ghost fs = files_view(files@);
    let mut out: Vec<u8> = Vec::new();
    write_u64(&mut out, entries.len() as u64);
    proof {
        assert(out@ =~= le64(es.len() as int));
    }
    let n = entries.len();
    for i in 0..n
        invariant
            n == entries@.len(),
            es == entries_view(entries@),
            fs == files_view(files@),
            forall|k: int| 0 <= k < es.len() ==> enc_entry_wf(#[trigger] es[k]),
            out@ == le64(es.len() as int) + enc_entries(es.take(i as int)),
    {
        let e = &entries[i];
        proof {
            assert(es[i as int] == entries@[i as int]@);
        }
        let hx = to_hex(e.digest.as_slice());
        write_bytes(&mut out, hx.as_slice());
        write_u64(&mut out, e.info.offset);
        write_u64(&mut out, e.info.size as u64);
        write_u64(&mut out, e.info.ref_count as u64);
        proof {
            assert(es.take(i + 1).drop_last() =~= es.take(i as int));
            assert(es.take(i + 1).last() == es[i as int]);
            assert(out@ =~= le64(es.len() as int) + enc_entries(es.take(i + 1)));
        }
    }
    proof {
        assert(es.take(n as int) =~= es);
    }
    write_u64(&mut out, files.len() as u64);
    let m = files.len();
    for i in 0..m
        invariant
            m == files@.len(),
            es == entries_view(entries@),
            fs == files_view(files@),
            forall|k: int| 0 <= k < fs.len() ==> enc_file_wf(#[trigger] fs[k]),
            out@ == le64(es.len() as int) + enc_entries(es) + le64(fs.len() as int) + enc_files(
                fs.take(i as int),
            ),
    {
        let f = &files[i];
        proof {
            assert(fs[i as int] == files@[i as int]@);
        }
        write_u64(&mut out, f.id.len() as u64);
        write_bytes(&mut out, f.id.as_slice());
        write_u64(&mut out, f.info.name.len() as u64);
        write_bytes(&mut out, f.info.name.as_slice());
        write_u64(&mut out, f.info.size);
        write_u64(&mut out, f.info.blocks.len() as u64);
        let ghost fb = fs[i as int].rec.blocks;
        let nb = f.info.blocks.len();
        let ghost base = out@;
        for j in 0..nb
            invariant
                nb == f.info.blocks@.len(),
                fb == blocks_view(f.info.blocks@),
                base == out@.take(base.len() as int) && out@ == base + flat_blocks(
                    fb.take(j as int),
                ),
        {
            proof {
                assert(fb[j as int] == f.info.blocks@[j as int]@);
            }
            write_bytes(&mut out, f.info.blocks[j].as_slice());
            proof {
                assert(fb.take(j + 1).drop_last() =~= fb.take(j as int));
                assert(fb.take(j + 1).last() == fb[j as int]);
                assert(out@ =~= base + flat_blocks(fb.take(j + 1)));
                assert(base =~= out@.take(base.len() as int));
            }
        }
        proof {
            assert(fb.take(nb as int) =~= fb);
            assert(out@ =~= le64(es.len() as int) + enc_entries(es) + le64(fs.len() as int)
                + enc_files(fs.take(i as int)) + enc_file(fs[i as int]));
            assert(fs.take(i + 1).drop_last() =~= fs.take(i as int));
            assert(fs.take(i + 1).last() == fs[i as int]);
            assert(out@ =~= le64(es.len() as int) + enc_entries(es) + le64(fs.len() as int)
                + enc_files(fs.take(i + 1)));
        }
    }
    proof {
        assert(fs.take(m as int) =~= fs);
        assert(out@ =~= enc_index(es, fs));
    }
    out
}

/// Read the little-endian u64 at a position.
fn read_u64(buf: &[u8], pos: usize) -> (r: u64)
    requires
        pos + 8 <= buf@.len(),
    ensures
        r as int == du(buf@, pos as int),
{
    let n = buf.len();
    proof {
        assert(pos + 8 <= n);
    }
    u64_from_le_bytes(vstd::slice::slice_subrange(buf, pos, pos + 8))
}

/// Parse `m` block index entries, skipping malformed ones as the parser
/// specification does.
fn decode_entries(buf: &[u8], start: usize, m: u64) -> (r: Option<(Vec<BlockEntry>, usize)>)
    requires
        start <= buf@.len(),
    ensures
        match r {
            Some(p) => dec_entries(buf@, start as int, m as int) == Option::Some(
                (entries_view(p.0@), p.1 as int),
            ) && p.1 <= buf@.len(),
            None => dec_entries(buf@, start as int, m as int) is None,
        },
{
    let mut out: Vec<BlockEntry> = Vec::new();
    let mut pos: usize = start;
    let mut i: u64 = 0;
    while i < m
        invariant
            i <= m,
            pos <= buf@.len(),
            dec_entries(buf@, start as int, m as int) == match dec_entries(
                buf@,
                pos as int,
                m - i,
            ) {
                Option::None => Option::None::<(Seq<EntryV>, int)>,
                Option::Some((rest, end)) => Option::Some((entries_view(out@) + rest, end)),
            },
        decreases m - i,
    {
        if buf.len() - pos < 88 {
            return None;
        }
        let hx = vstd::slice::slice_subrange(buf, pos, pos + 64);
        let off = read_u64(buf, pos + 64);
        let sz = read_u64(buf, pos + 72);
        let ct = read_u64(buf, pos + 80);
        let ghost pre = out@;
        match from_hex(hx) {
            Some(dg) => {
                if 1 <= ct && ct <= u32::MAX as u64 && sz <= u32::MAX as u64 {
                    out.push(
                        BlockEntry {
                            digest: dg,
                            info: BlockInfo {
                                offset: off,
                                size: sz as u32,
                                ref_count: ct as u32,
                            },
                        },
                    );
                    proof {
                        let e = EntryV {
                            digest: unhex_of(buf@.subrange(pos as int, pos + 64)),
                            offset: off as int,
                            size: sz as int,
                            count: ct as int,
                        };
                        assert(entries_view(out@) =~= entries_view(pre).push(e));
                        if dec_entries(buf@, pos + 88, m - i - 1) is Some {
                            let (rest, end) = dec_entries(buf@, pos + 88, m - i - 1)->Some_0;
                            assert(entries_view(pre).push(e) + rest =~= entries_view(pre) + (
                            seq![e] + rest));
                        }
                    }
                } else {
                    proof {
                        assert(!(1 <= ct as int <= u32::MAX && sz as int <= u32::MAX));
                    }
                }
            },
            None => {
                proof {
                    assert(!valid_hex(buf@.subrange(pos as int, pos + 64)));
                }
            },
        }
        pos = pos + 88;
        i = i + 1;
    }
    proof {
        assert(entries_view(out@) + Seq::<EntryV>::empty() =~= entries_view(out@));
    }
    Some((out, pos))
}

/// Parse `k` raw digests of one file record.
fn decode_blocks(buf: &[u8], start: usize, k: u64) -> (r: Option<(Vec<Vec<u8>>, usize)>)
    requires
        start <= buf@.len(),
    ensures
        match r {
            Some(p) => dec_blocks(buf@, start as int, k as int) == Option::Some(
                (blocks_view(p.0@), p.1 as int),
            ) && p.1 <= buf@.len(),
            None => dec_blocks(buf@, start as int, k as int) is None,
        },
{
    let mut out: Vec<Vec<u8>> = Vec::new();
    let mut pos: usize = start;
    let mut i: u64 = 0;
    while i < k
        invariant
            i <= k,
            pos <= buf@.len(),
            dec_blocks(buf@, start as int, k as int) == match dec_blocks(
                buf@,
                pos as int,
                k - i,
            ) {
                Option::None => Option::None::<(Seq<Seq<u8>>, int)>,
                Option::Some((rest, end)) => Option::Some((blocks_view(out@) + rest, end)),
            },
        decreases k - i,
    {
        if buf.len() - pos < 32 {
            return None;
        }
        let d = vstd::slice::slice_to_vec(vstd::slice::slice_subrange(buf, pos, pos + 32));
        let ghost pre = out@;
        out.push(d);
        proof {
            let e = buf@.subrange(pos as int, pos + 32);
            assert(blocks_view(out@) =~= blocks_view(pre).push(e));
            if dec_blocks(buf@, pos + 32, k - i - 1) is Some {
                let (rest, end) = dec_blocks(buf@, pos + 32, k - i - 1)->Some_0;
                assert(blocks_view(pre).push(e) + rest =~= blocks_view(pre) + (seq![e] + rest));
            }
        }
        pos = pos + 32;
        i = i + 1;
    }
    proof {
        assert(blocks_view(out@) + Seq::<Seq<u8>>::empty() =~= blocks_view(out@));
    }
    Some((out, pos))
}

/// Parse one file record.
fn decode_file(buf: &[u8], start: usize) -> (r: Option<(FileEntry, usize)>)
    requires
        start <= buf@.len(),
    ensures
        match r {
            Some(p) => dec_file(buf@, start as int) == Option::Some((p.0@, p.1 as int)) && p.1
                <= buf@.len(),
            None => dec_file(buf@, start as int) is None,
        },
{
    let pos = start;
    if buf.len() - pos < 8 {
        return None;
    }
    let idl = read_u64(buf, pos);
    let rem = buf.len() - pos - 8;
    if rem < 8 || idl > (rem - 8) as u64 {
        proof {
            assert(pos + 8 + idl as int + 8 > buf@.len());
        }
        return None;
    }
    let idn = idl as usize;
    let id = vstd::slice::slice_to_vec(vstd::slice::slice_subrange(buf, pos + 8, pos + 8 + idn));
    let p1 = pos + 8 + idn;
    let nml = read_u64(buf, p1);
    let rem1 = buf.len() - p1 - 8;
    if rem1 < 16 || nml > (rem1 - 16) as u64 {
        proof {
            assert(p1 + 8 + nml as int + 16 > buf@.len());
        }
        return None;
    }
    let nmn = nml as usize;
    let name = vstd::slice::slice_to_vec(
        vstd::slice::slice_subrange(buf, p1 + 8, p1 + 8 + nmn),
    );
    let p2 = p1 + 8 + nmn;
    let size = read_u64(buf, p2);
    let nb = read_u64(buf, p2 + 8);
    match decode_blocks(buf, p2 + 16, nb) {
        Some(bp) => {
            let (blocks, end) = bp;
            let f = FileEntry { id, info: FileInfo { blocks, size, name } };
            proof {
                assert(f@.id =~= buf@.subrange(pos + 8, pos + 8 + idl as int));
                assert(f@.rec.name =~= buf@.subrange(p1 + 8, p1 + 8 + nml as int));
            }
            Some((f, end))
        },
        None => None,
    }
}

/// Parse `k` file records.
fn decode_files(buf: &[u8], start: usize, k: u64) -> (r: Option<(Vec<FileEntry>, usize)>)
    requires
        start <= buf@.len(),
    ensures
        match r {
            Some(p) => dec_files(buf@, start as int, k as int) == Option::Some(
                (files_view(p.0@), p.1 as int),
            ) && p.1 <= buf@.len(),
            None => dec_files(buf@, start as int, k as int) is None,
        },
{
    let mut out: Vec<FileEntry> = Vec::new();
    let mut pos: usize = start;
    let mut i: u64 = 0;
    while i < k
        invariant
            i <= k,
            pos <= buf@.len(),
            dec_files(buf@, start as int, k as int) == match dec_files(buf@, pos as int, k - i) {
                Option::None => Option::None::<(Seq<FileEntryV>, int)>,
                Option::Some((rest, end)) => Option::Some((files_view(out@) + rest, end)),
            },
        decreases k - i,
    {
        match decode_file(buf, pos) {
            Some(fp) => {
                let (f, end) = fp;
                let ghost fv = f@;
                let ghost pre = out@;
                out.push(f);
                proof {
                    assert(files_view(out@) =~= files_view(pre).push(fv));
                    if dec_files(buf@, end as int, k - i - 1) is Some {
                        let (rest, e2) = dec_files(buf@, end as int, k - i - 1)->Some_0;
                        assert(files_view(pre).push(fv) + rest =~= files_view(pre) + (seq![fv]
                            + rest));
                    }
                }
                pos = end;
                i = i + 1;
            },
            None => {
                return None;
            },
        }
    }
    proof {
        assert(files_view(out@) + Seq::<FileEntryV>::empty() =~= files_view(out@));
    }
    Some((out, pos))
}

/// Parse a whole serialized index. Fails exactly when the parser
/// specification rejects the bytes.
pub fn decode_index(buf: &[u8]) -> (r: Option<(Vec<BlockEntry>, Vec<FileEntry>)>)
    ensures
        match r {
            Some(p) => dec_index(buf@) == Option::Some((entries_view(p.0@), files_view(p.1@))),
            None => dec_index(buf@) is None,
        },
{
    if buf.len() < 8 {
        return None;
    }
    let m = read_u64(buf, 0);
    match decode_entries(buf, 8, m) {
        Some(ep) => {
            let (entries, p) = ep;
            if buf.len() - p < 8 {
                return None;
            }
            let fm = read_u64(buf, p);
            match decode_files(buf, p + 8, fm) {
                Some(fp) => {
                    let (files, end) = fp;
                    if end == buf.len() {
                        Some((entries, files))
                    } else {
                        None
                    }
                },
                None => None,
            }
        },
        None => None,
    }
}

} // verus!
