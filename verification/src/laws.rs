//! The general properties of the store, stated over the mathematical
//! transitions that the executable operations are proved to follow.
use vstd::prelude::*;
use crate::block::{
    EntryV, StoreV, count_of, entry_wf, has_digest, idx_of, lemma_sum_remove,
    lemma_sum_update_same_size, sum_sizes,
};
use crate::block::{lemma_sanitize_identity, sanitize_v};
use crate::cache::{
    CacheV, FileEntryV, FileRecV, chunk_list, concat_contents, count_in, digest_list, file_idx, has_file,
    file_rec_wf, lemma_count_in_nonneg, lemma_occ_nonneg, lemma_occ_remove,
    lemma_sanitize_files_identity, logical_size, occ,
    rec_of, release_seq_ok, release_seq_v, remove_file_v, sanitize_files_v, store_file_v,
    store_seq_ok, store_seq_v,
};
use crate::codec::{dec_index, enc_index, enc_index_wf, lemma_codec_round_trip};
use crate::hashing::digest_of;

verus! {

/// The recorded size of the block stored under a digest, 0 when absent.
pub open spec fn size_at(es: Seq<EntryV>, d: Seq<u8>) -> int {
    if has_digest(es, d) {
        es[idx_of(es, d)].size
    } else {
        0
    }
}

/// Storing a block keeps the store well formed, indexes the block's
/// digest, raises that digest's count by one and no other digest's count,
/// and leaves every already-stored block's bytes where they were.
pub proof fn lemma_store_v_wf(sv: StoreV, c: Seq<u8>)
    requires
        sv.wf(),
        digest_of(c).len() == 32,
        0 <= c.len() <= u32::MAX,
        count_of(sv.entries, digest_of(c)) < u32::MAX,
    ensures
        ({
            let s2 = sv.store_block_v(c);
            &&& s2.wf()
            &&& s2.has(digest_of(c))
            &&& count_of(s2.entries, digest_of(c)) == count_of(sv.entries, digest_of(c)) + 1
            &&& forall|d: Seq<u8>|
                d != digest_of(c) ==> #[trigger] count_of(s2.entries, d) == count_of(sv.entries, d)
            &&& forall|d: Seq<u8>|
                #[trigger] sv.has(d) ==> s2.has(d) && s2.content_at(d) == sv.content_at(d)
            &&& sv.has(digest_of(c)) ==> s2.data == sv.data
            &&& !sv.has(digest_of(c)) ==> s2.data == sv.data + c && s2.content_at(digest_of(c))
                == c
            &&& sv.consistent() ==> s2.consistent()
        }),
{
    let dd = digest_of(c);
    let es = sv.entries;
    let s2 = sv.store_block_v(c);
    let es2 = s2.entries;
    if has_digest(es, dd) {
        let i = idx_of(es, dd);
        assert(0 <= i < es.len() && es[i].digest == dd);
        assert(count_of(es, dd) == es[i].count) by {
            let w = idx_of(es, dd);
            if w != i {
                assert(es[w].digest != es[i].digest);
            }
        }
        lemma_sum_update_same_size(es, i, es2[i]);
        assert forall|k: int| 0 <= k < es2.len() implies entry_wf(
            #[trigger] es2[k],
            s2.data.len() as int,
        ) by {
            if k != i {
                assert(es2[k] == es[k]);
            }
            assert(entry_wf(es[k], sv.data.len() as int));
        }
        assert(es2[i].digest == dd);
        assert(has_digest(es2, dd));
        lemma_pin(es2, dd, i);
        assert forall|d: Seq<u8>| d != dd implies count_of(#[trigger] s2.entries, d) == count_of(
            es,
            d,
        ) by {
            lemma_same_keys_count(es, es2, d);
        }
        assert forall|d: Seq<u8>| sv.has(d) implies #[trigger] s2.has(d) && s2.content_at(d)
            == sv.content_at(d) by {
            let w = idx_of(es, d);
            assert(es[w].digest == d);
            assert(es2[w].digest == d);
            assert(has_digest(es2, d));
            lemma_pin(es, d, w);
            lemma_pin(es2, d, w);
            assert(es2[w].offset == es[w].offset && es2[w].size == es[w].size);
        }
        if sv.consistent() {
            assert forall|k: int| 0 <= k < es2.len() implies digest_of(
                s2.data.subrange((#[trigger] es2[k]).offset, es2[k].offset + es2[k].size),
            ) == es2[k].digest by {
                if k != i {
                    assert(es2[k] == es[k]);
                }
                assert(es2[k].offset == es[k].offset && es2[k].size == es[k].size && es2[k].digest
                    == es[k].digest);
            }
        }
    } else {
        let e = EntryV { digest: dd, offset: sv.data.len() as int, size: c.len() as int, count: 1 };
        assert(es2 == es.push(e));
        assert(es2.drop_last() =~= es);
        assert(sum_sizes(es2) == sum_sizes(es) + c.len());
        assert forall|k: int| 0 <= k < es2.len() implies entry_wf(
            #[trigger] es2[k],
            s2.data.len() as int,
        ) by {
            if k < es.len() {
                assert(es2[k] == es[k]);
                assert(entry_wf(es[k], sv.data.len() as int));
            }
        }
        assert forall|k: int, l: int| 0 <= k < l < es2.len() implies es2[k].digest
            != es2[l].digest by {
            if l < es.len() {
                assert(es2[k] == es[k] && es2[l] == es[l]);
            } else {
                assert(es2[k] == es[k]);
                if es[k].digest == dd {
                    assert(has_digest(es, dd));
                }
            }
        }
        assert(es2[es.len() as int].digest == dd);
        assert(has_digest(es2, dd));
        lemma_pin(es2, dd, es.len() as int);
        assert(count_of(es2, dd) == 1);
        assert(count_of(es, dd) == 0);
        assert forall|d: Seq<u8>| d != dd implies count_of(#[trigger] s2.entries, d) == count_of(
            es,
            d,
        ) by {
            if has_digest(es, d) {
                let w = idx_of(es, d);
                assert(es2[w].digest == d);
                lemma_pin(es, d, w);
                lemma_pin(es2, d, w);
            } else {
                if has_digest(es2, d) {
                    let w = idx_of(es2, d);
                    assert(es2[w].digest == d);
                    if w < es.len() {
                        assert(es[w].digest == d);
                    }
                }
            }
        }
        assert forall|d: Seq<u8>| sv.has(d) implies #[trigger] s2.has(d) && s2.content_at(d)
            == sv.content_at(d) by {
            let w = idx_of(es, d);
            assert(es[w].digest == d);
            assert(es2[w].digest == d);
            assert(has_digest(es2, d));
            lemma_pin(es, d, w);
            lemma_pin(es2, d, w);
            assert(entry_wf(es[w], sv.data.len() as int));
            assert(s2.data.subrange(es[w].offset, es[w].offset + es[w].size) =~= sv.data.subrange(
                es[w].offset,
                es[w].offset + es[w].size,
            ));
        }
        assert(s2.content_at(dd) =~= c) by {
            assert(es2[idx_of(es2, dd)] == e);
            assert(s2.data.subrange(e.offset, e.offset + e.size) =~= c);
        }
        if sv.consistent() {
            assert forall|k: int| 0 <= k < es2.len() implies digest_of(
                s2.data.subrange((#[trigger] es2[k]).offset, es2[k].offset + es2[k].size),
            ) == es2[k].digest by {
                if k < es.len() {
                    assert(es2[k] == es[k]);
                    assert(entry_wf(es[k], sv.data.len() as int));
                    assert(s2.data.subrange(es2[k].offset, es2[k].offset + es2[k].size)
                        =~= sv.data.subrange(es[k].offset, es[k].offset + es[k].size));
                } else {
                    assert(s2.data.subrange(es2[k].offset, es2[k].offset + es2[k].size) =~= c);
                }
            }
        }
    }
}

/// Under distinct keys, the chosen index of a present digest is the only
/// position holding it.
proof fn lemma_pin(es: Seq<EntryV>, d: Seq<u8>, i: int)
    requires
        0 <= i < es.len(),
        es[i].digest == d,
        forall|k: int, l: int| 0 <= k < l < es.len() ==> es[k].digest != es[l].digest,
    ensures
        has_digest(es, d),
        idx_of(es, d) == i,
{
    assert(has_digest(es, d));
    let w = idx_of(es, d);
    assert(es[w].digest == d);
    if w != i {
        assert(es[w].digest != es[i].digest);
    }
}

/// Two entry sequences with the same keys at the same positions and the
/// same counts at positions other than the key `d` differ nowhere in the
/// count kept under `d`.
proof fn lemma_same_keys_count(es: Seq<EntryV>, es2: Seq<EntryV>, d: Seq<u8>)
    requires
        es.len() == es2.len(),
        forall|k: int| 0 <= k < es.len() ==> (#[trigger] es2[k]).digest == es[k].digest,
        forall|k: int|
            0 <= k < es.len() && es[k].digest == d ==> (#[trigger] es2[k]).count == es[k].count,
        forall|k: int, l: int| 0 <= k < l < es.len() ==> es[k].digest != es[l].digest,
    ensures
        count_of(es2, d) == count_of(es, d),
{
    if has_digest(es, d) {
        let w = idx_of(es, d);
        assert(es[w].digest == d);
        assert(es2[w].digest == d);
        lemma_pin(es, d, w);
        lemma_pin(es2, d, w);
    } else {
        if has_digest(es2, d) {
            let w = idx_of(es2, d);
            assert(es2[w].digest == d);
            assert(es[w].digest == d);
        }
    }
}

/// Releasing one reference keeps the store well formed, lowers the
/// released digest's count by exactly one (to the point of leaving the
/// index at zero), changes no other digest's count, and never touches the
/// data region.
pub proof fn lemma_release_v_exact(sv: StoreV, b: Seq<u8>)
    requires
        sv.wf(),
        sv.has(b),
    ensures
        ({
            let s2 = sv.release_v(b);
            &&& s2.wf()
            &&& s2.data == sv.data
            &&& count_of(s2.entries, b) == count_of(sv.entries, b) - 1
            &&& forall|d: Seq<u8>|
                d != b ==> #[trigger] count_of(s2.entries, d) == count_of(sv.entries, d)
            &&& (s2.has(b) <==> count_of(sv.entries, b) > 1)
            &&& (sv.consistent() ==> s2.consistent())
            &&& forall|d: Seq<u8>|
                #[trigger] s2.has(d) ==> sv.has(d) && size_at(s2.entries, d) == size_at(
                    sv.entries,
                    d,
                )
            &&& sum_sizes(s2.entries) >= sum_sizes(sv.entries) - size_at(sv.entries, b)
        }),
{
    let es = sv.entries;
    let i = idx_of(es, b);
    assert(0 <= i < es.len() && es[i].digest == b);
    lemma_pin(es, b, i);
    let s2 = sv.release_v(b);
    let es2 = s2.entries;
    if es[i].count == 1 {
        assert(es2 == es.remove(i));
        lemma_sum_remove(es, i);
        assert forall|k: int| 0 <= k < es2.len() implies entry_wf(
            #[trigger] es2[k],
            s2.data.len() as int,
        ) by {
            let k0 = if k < i {
                k
            } else {
                k + 1
            };
            assert(es2[k] == es[k0]);
            assert(entry_wf(es[k0], sv.data.len() as int));
        }
        assert forall|k: int, l: int| 0 <= k < l < es2.len() implies es2[k].digest
            != es2[l].digest by {
            let k0 = if k < i {
                k
            } else {
                k + 1
            };
            let l0 = if l < i {
                l
            } else {
                l + 1
            };
            assert(es2[k] == es[k0] && es2[l] == es[l0]);
        }
        assert(!has_digest(es2, b)) by {
            if has_digest(es2, b) {
                let w = idx_of(es2, b);
                assert(es2[w].digest == b);
                let w0 = if w < i {
                    w
                } else {
                    w + 1
                };
                assert(es2[w] == es[w0]);
                assert(w0 != i);
                assert(es[w0].digest != es[i].digest);
            }
        }
        assert forall|d: Seq<u8>| d != b implies count_of(#[trigger] s2.entries, d) == count_of(
            es,
            d,
        ) by {
            if has_digest(es, d) {
                let w = idx_of(es, d);
                assert(es[w].digest == d);
                assert(w != i);
                let w2 = if w < i {
                    w
                } else {
                    w - 1
                };
                assert(es2[w2] == es[w]);
                lemma_pin(es, d, w);
                lemma_pin(es2, d, w2);
            } else {
                if has_digest(es2, d) {
                    let w = idx_of(es2, d);
                    assert(es2[w].digest == d);
                    let w0 = if w < i {
                        w
                    } else {
                        w + 1
                    };
                    assert(es2[w] == es[w0]);
                    assert(has_digest(es, d));
                }
            }
        }
        assert forall|d: Seq<u8>| #[trigger] s2.has(d) implies sv.has(d) && size_at(s2.entries, d)
            == size_at(es, d) by {
            let w = idx_of(es2, d);
            assert(es2[w].digest == d);
            let w0 = if w < i {
                w
            } else {
                w + 1
            };
            assert(es2[w] == es[w0]);
            assert(has_digest(es, d));
            lemma_pin(es, d, w0);
            lemma_pin(es2, d, w);
        }
        if sv.consistent() {
            assert forall|k: int| 0 <= k < es2.len() implies digest_of(
                s2.data.subrange((#[trigger] es2[k]).offset, es2[k].offset + es2[k].size),
            ) == es2[k].digest by {
                let k0 = if k < i {
                    k
                } else {
                    k + 1
                };
                assert(es2[k] == es[k0]);
            }
        }
    } else {
        let e2 = EntryV {
            digest: es[i].digest,
            offset: es[i].offset,
            size: es[i].size,
            count: es[i].count - 1,
        };
        assert(es2 == es.update(i, e2));
        lemma_sum_update_same_size(es, i, e2);
        assert forall|k: int| 0 <= k < es2.len() implies entry_wf(
            #[trigger] es2[k],
            s2.data.len() as int,
        ) by {
            if k != i {
                assert(es2[k] == es[k]);
            }
            assert(entry_wf(es[k], sv.data.len() as int));
        }
        assert(es2[i].digest == b);
        lemma_pin(es2, b, i);
        assert forall|d: Seq<u8>| d != b implies count_of(#[trigger] s2.entries, d) == count_of(
            es,
            d,
        ) by {
            lemma_same_keys_count(es, es2, d);
        }
        assert forall|d: Seq<u8>| #[trigger] s2.has(d) implies sv.has(d) && size_at(s2.entries, d)
            == size_at(es, d) by {
            let w = idx_of(es2, d);
            assert(es2[w].digest == d);
            assert(es[w].digest == d);
            assert(has_digest(es, d));
            lemma_pin(es, d, w);
            lemma_pin(es2, d, w);
            if w == i {
                assert(es2[w].size == es[w].size);
            } else {
                assert(es2[w] == es[w]);
            }
        }
        assert(size_at(es, b) >= 0) by {
            assert(entry_wf(es[i], sv.data.len() as int));
        }
        if sv.consistent() {
            assert forall|k: int| 0 <= k < es2.len() implies digest_of(
                s2.data.subrange((#[trigger] es2[k]).offset, es2[k].offset + es2[k].size),
            ) == es2[k].digest by {
                if k != i {
                    assert(es2[k] == es[k]);
                }
                assert(es2[k].offset == es[k].offset && es2[k].size == es[k].size && es2[k].digest
                    == es[k].digest);
            }
        }
    }
}

/// Idempotent deduplication: storing the same bytes a second time yields
/// the same digest (both stores yield the digest of the content), appends
/// nothing further to the data region, and only raises the block's
/// reference count by one.
pub proof fn lemma_dedup_idempotent(sv: StoreV, c: Seq<u8>)
    requires
        sv.wf(),
        digest_of(c).len() == 32,
        0 <= c.len() <= u32::MAX,
        count_of(sv.entries, digest_of(c)) + 2 <= u32::MAX,
    ensures
        ({
            let s1 = sv.store_block_v(c);
            let s2 = s1.store_block_v(c);
            &&& s2.data == s1.data
            &&& !sv.has(digest_of(c)) ==> s1.data == sv.data + c
            &&& sv.has(digest_of(c)) ==> s1.data == sv.data
            &&& count_of(s2.entries, digest_of(c)) == count_of(s1.entries, digest_of(c)) + 1
        }),
{
    let d = digest_of(c);
    lemma_store_v_wf(sv, c);
    let s1 = sv.store_block_v(c);
    lemma_store_v_wf(s1, c);
}

/// Iterated storing of one block.
pub open spec fn store_n(sv: StoreV, c: Seq<u8>, n: nat) -> StoreV
    decreases n,
{
    if n == 0 {
        sv
    } else {
        store_n(sv, c, (n - 1) as nat).store_block_v(c)
    }
}

/// Iterated releasing of one digest.
pub open spec fn release_n(sv: StoreV, d: Seq<u8>, n: nat) -> StoreV
    decreases n,
{
    if n == 0 {
        sv
    } else {
        release_n(sv, d, (n - 1) as nat).release_v(d)
    }
}

/// Storing a block `n` times, starting from a store that does not hold it,
/// indexes it with exactly `n` references.
pub proof fn lemma_store_n_count(sv: StoreV, c: Seq<u8>, n: nat)
    requires
        sv.wf(),
        digest_of(c).len() == 32,
        0 <= c.len() <= u32::MAX,
        !sv.has(digest_of(c)),
        n <= u32::MAX,
    ensures
        store_n(sv, c, n).wf(),
        count_of(store_n(sv, c, n).entries, digest_of(c)) == n,
    decreases n,
{
    if n > 0 {
        lemma_store_n_count(sv, c, (n - 1) as nat);
        lemma_store_v_wf(store_n(sv, c, (n - 1) as nat), c);
    }
}

/// Reference counting: after a block is stored `n` times into a store that
/// did not hold it, the first `n - 1` releases leave it indexed (hence
/// still readable) and the `n`-th release removes it from the index.
pub proof fn lemma_refcount_round(sv: StoreV, c: Seq<u8>, n: nat, k: nat)
    requires
        sv.wf(),
        digest_of(c).len() == 32,
        0 <= c.len() <= u32::MAX,
        !sv.has(digest_of(c)),
        1 <= n <= u32::MAX,
        k <= n,
    ensures
        ({
            let s = store_n(sv, c, n);
            let r = release_n(s, digest_of(c), k);
            &&& r.wf()
            &&& count_of(r.entries, digest_of(c)) == n - k
            &&& (k < n ==> r.has(digest_of(c)))
            &&& (k == n ==> !r.has(digest_of(c)))
        }),
    decreases k,
{
    let d = digest_of(c);
    lemma_store_n_count(sv, c, n);
    let s = store_n(sv, c, n);
    if k == 0 {
        assert(count_of(s.entries, d) == n);
        assert(n > 0 ==> s.has(d)) by {
            if !s.has(d) {
                assert(count_of(s.entries, d) == 0);
            }
        }
    } else {
        lemma_refcount_round(sv, c, n, (k - 1) as nat);
        let r0 = release_n(s, d, (k - 1) as nat);
        assert(r0.has(d)) by {
            if !r0.has(d) {
                assert(count_of(r0.entries, d) == 0);
            }
        }
        lemma_release_v_exact(r0, d);
        let r = release_n(s, d, k);
        assert(count_of(r.entries, d) == n - k);
        if k < n {
            assert(r.has(d)) by {
                if !r.has(d) {
                    assert(count_of(r.entries, d) == 0);
                }
            }
        } else {
            assert(!r.has(d)) by {
                if r.has(d) {
                    assert(count_of(r.entries, d) == r.entries[idx_of(r.entries, d)].count);
                    assert(entry_wf(
                        r.entries[idx_of(r.entries, d)],
                        r.data.len() as int,
                    ));
                }
            }
        }
    }
}

/// Releasing a list of digests whose multiplicities, together with all
/// references still recorded in a file index, are backed by the store's
/// counts: every release finds its digest, and the remaining counts still
/// back the file index.
pub proof fn lemma_release_all(
    sv: StoreV,
    fs: Seq<FileEntryV>,
    bs: Seq<Seq<u8>>,
    rest: Seq<Seq<u8>>,
)
    requires
        sv.wf(),
        forall|d: Seq<u8>|
            occ(fs, d) + count_in(bs, d) + count_in(#[trigger] rest.push(d), d) - 1 <= count_of(
                sv.entries,
                d,
            ),
    ensures
        release_seq_ok(sv, bs),
        release_seq_v(sv, bs).wf(),
        release_seq_v(sv, bs).data == sv.data,
        sv.consistent() ==> release_seq_v(sv, bs).consistent(),
        forall|d: Seq<u8>|
            occ(fs, d) + count_in(#[trigger] rest.push(d), d) - 1 <= count_of(
                release_seq_v(sv, bs).entries,
                d,
            ),
    decreases bs.len(),
{
    if bs.len() == 0 {
        assert forall|d: Seq<u8>|
            occ(fs, d) + count_in(#[trigger] rest.push(d), d) - 1 <= count_of(
                release_seq_v(sv, bs).entries,
                d,
            ) by {
            lemma_count_in_nonneg(bs, d);
            assert(count_in(bs, d) == 0);
        }
    } else {
        let b = bs.last();
        let pre = release_seq_v(sv, bs.drop_last());
        assert forall|d: Seq<u8>|
            occ(fs, d) + count_in(bs.drop_last(), d) + count_in(
                #[trigger] rest.push(b).push(d),
                d,
            ) - 1 <= count_of(sv.entries, d) by {
            assert(rest.push(b).push(d).drop_last() =~= rest.push(b));
            assert(rest.push(d).drop_last() =~= rest);
            assert(count_in(rest.push(b), d) == count_in(rest, d) + if b == d {
                1int
            } else {
                0int
            }) by {
                assert(rest.push(b).drop_last() =~= rest);
            }
            assert(count_in(bs, d) == count_in(bs.drop_last(), d) + if b == d {
                1int
            } else {
                0int
            });
        }
        lemma_release_all(sv, fs, bs.drop_last(), rest.push(b));
        assert(pre.has(b)) by {
            lemma_occ_nonneg(fs, b);
            lemma_count_in_nonneg(rest, b);
            let rr = rest.push(b);
            assert(count_in(rr, b) == count_in(rest, b) + 1) by {
                assert(rr.drop_last() =~= rest);
            }
            assert(count_in(rr.push(b), b) == count_in(rr, b) + 1) by {
                assert(rr.push(b).drop_last() =~= rr);
            }
            assert(occ(fs, b) + count_in(rr.push(b), b) - 1 <= count_of(pre.entries, b));
            assert(count_of(pre.entries, b) >= 1);
            if !has_digest(pre.entries, b) {
                assert(count_of(pre.entries, b) == 0);
            }
        }
        lemma_release_v_exact(pre, b);
        assert forall|d: Seq<u8>|
            occ(fs, d) + count_in(#[trigger] rest.push(d), d) - 1 <= count_of(
                release_seq_v(sv, bs).entries,
                d,
            ) by {
            assert(count_in(rest.push(b), d) == count_in(rest, d) + if b == d {
                1int
            } else {
                0int
            }) by {
                assert(rest.push(b).drop_last() =~= rest);
            }
            assert(count_in(rest.push(d), d) == count_in(rest, d) + 1) by {
                assert(rest.push(d).drop_last() =~= rest);
            }
            assert(count_in(rest.push(b).push(d), d) == count_in(rest.push(b), d) + 1) by {
                assert(rest.push(b).push(d).drop_last() =~= rest.push(b));
            }
        }
    }
}

/// A file entry's own block occurrences are part of the index-wide total.
pub proof fn lemma_occ_lower(fs: Seq<FileEntryV>, k: int, d: Seq<u8>)
    requires
        0 <= k < fs.len(),
    ensures
        occ(fs, d) >= count_in(fs[k].rec.blocks, d),
    decreases fs.len(),
{
    if k == fs.len() - 1 {
        lemma_occ_nonneg(fs.drop_last(), d);
    } else {
        lemma_occ_lower(fs.drop_last(), k, d);
        lemma_count_in_nonneg(fs.last().rec.blocks, d);
    }
}

/// A digest standing at some position of a block list occurs in it.
pub proof fn lemma_count_in_member(bs: Seq<Seq<u8>>, j: int)
    requires
        0 <= j < bs.len(),
    ensures
        count_in(bs, bs[j]) >= 1,
    decreases bs.len(),
{
    if j == bs.len() - 1 {
        lemma_count_in_nonneg(bs.drop_last(), bs[j]);
    } else {
        lemma_count_in_member(bs.drop_last(), j);
    }
}

/// Removing a file releases exactly its own references: when every
/// recorded block reference is backed by the store's counts, removal finds
/// every digest it releases, and every block of any other still-present
/// file stays indexed (hence readable).
pub proof fn lemma_remove_keeps_shared(cv: CacheV, id1: Seq<u8>, id2: Seq<u8>)
    requires
        cv.wf(),
        cv.covered(),
        has_file(cv.files, id1),
        has_file(cv.files, id2),
        id1 != id2,
    ensures
        release_seq_ok(cv.store, rec_of(cv.files, id1).blocks),
        remove_file_v(cv, id1).covered(),
        forall|j: int|
            0 <= j < rec_of(cv.files, id2).blocks.len() ==> remove_file_v(cv, id1).store.has(
                #[trigger] rec_of(cv.files, id2).blocks[j],
            ),
{
    let i1 = file_idx(cv.files, id1);
    assert(0 <= i1 < cv.files.len() && cv.files[i1].id == id1);
    let rec1 = rec_of(cv.files, id1);
    let fs2 = cv.files.remove(i1);
    assert forall|d: Seq<u8>|
        occ(fs2, d) + count_in(rec1.blocks, d) + count_in(
            #[trigger] Seq::<Seq<u8>>::empty().push(d),
            d,
        ) - 1 <= count_of(cv.store.entries, d) by {
        lemma_occ_remove(cv.files, i1, d);
        assert(count_in(Seq::<Seq<u8>>::empty().push(d), d) == 1) by {
            let s1 = Seq::<Seq<u8>>::empty().push(d);
            assert(s1.len() == 1);
            assert(s1.last() == d);
            assert(s1.drop_last() =~= Seq::<Seq<u8>>::empty());
            assert(count_in(s1.drop_last(), d) == 0);
        }
        assert(occ(cv.files, d) <= count_of(cv.store.entries, d));
    }
    lemma_release_all(cv.store, fs2, rec1.blocks, Seq::<Seq<u8>>::empty());
    let s2 = release_seq_v(cv.store, rec1.blocks);
    assert forall|d: Seq<u8>| #[trigger] occ(fs2, d) <= count_of(s2.entries, d) by {
        assert(occ(fs2, d) + count_in(Seq::<Seq<u8>>::empty().push(d), d) - 1 <= count_of(
            s2.entries,
            d,
        ));
        assert(count_in(Seq::<Seq<u8>>::empty().push(d), d) == 1) by {
            let s1 = Seq::<Seq<u8>>::empty().push(d);
            assert(s1.len() == 1);
            assert(s1.last() == d);
            assert(s1.drop_last() =~= Seq::<Seq<u8>>::empty());
            assert(count_in(s1.drop_last(), d) == 0);
        }
    }
    let i2 = file_idx(cv.files, id2);
    assert(0 <= i2 < cv.files.len() && cv.files[i2].id == id2);
    assert(i1 != i2);
    let k2 = if i2 < i1 {
        i2
    } else {
        i2 - 1
    };
    assert(fs2[k2] == cv.files[i2]);
    assert forall|j: int| 0 <= j < rec_of(cv.files, id2).blocks.len() implies remove_file_v(
        cv,
        id1,
    ).store.has(#[trigger] rec_of(cv.files, id2).blocks[j]) by {
        let d = rec_of(cv.files, id2).blocks[j];
        lemma_count_in_member(rec_of(cv.files, id2).blocks, j);
        lemma_occ_lower(fs2, k2, d);
        assert(count_of(s2.entries, d) >= 1);
        if !has_digest(s2.entries, d) {
            assert(count_of(s2.entries, d) == 0);
        }
    }
}


/// Round trip at the file layer: after a file is stored, the bytes its
/// record reconstitutes to are the stored content, under the same
/// collision-freedom hypotheses as the block-level round trip.
pub proof fn lemma_file_round_trip(cv: CacheV, id: Seq<u8>, name: Seq<u8>, content: Seq<u8>)
    requires
        cv.wf(),
        cv.store.consistent(),
        forall|i: int| 0 <= i < chunk_list(content, cv.block_size).len() ==> (#[trigger] digest_of(
            chunk_list(content, cv.block_size)[i],
        )).len() == 32,
        store_seq_ok(cv.store, chunk_list(content, cv.block_size)),
        forall|i: int|
            0 <= i < chunk_list(content, cv.block_size).len() && cv.store.has(digest_of(
                #[trigger] chunk_list(content, cv.block_size)[i],
            )) ==> cv.store.content_at(digest_of(chunk_list(content, cv.block_size)[i]))
                == chunk_list(content, cv.block_size)[i],
        forall|i: int, j: int|
            0 <= i < j < chunk_list(content, cv.block_size).len() && digest_of(
                #[trigger] chunk_list(content, cv.block_size)[i],
            ) == digest_of(#[trigger] chunk_list(content, cv.block_size)[j]) ==> chunk_list(
                content,
                cv.block_size,
            )[i] == chunk_list(content, cv.block_size)[j],
    ensures
        has_file(store_file_v(cv, id, name, content).files, id),
        store_file_v(cv, id, name, content).file_bytes(id) == content,
{
    let cs = chunk_list(content, cv.block_size);
    let cv2 = store_file_v(cv, id, name, content);
    let rec = FileRecV { blocks: digest_list(cs), size: content.len() as int, name: name };
    let entry = FileEntryV { id: id, rec: rec };
    if has_file(cv.files, id) {
        let i = file_idx(cv.files, id);
        assert(0 <= i < cv.files.len() && cv.files[i].id == id);
        assert(cv2.files[i] == entry);
        assert(has_file(cv2.files, id));
        let w = file_idx(cv2.files, id);
        assert(cv2.files[w].id == id);
        assert(w == i) by {
            if w != i {
                assert(cv2.files[w] == cv.files[w]);
                assert(cv.files[w].id != cv.files[i].id);
            }
        }
        assert(rec_of(cv2.files, id) == rec);
    } else {
        let i = cv.files.len() as int;
        assert(cv2.files[i] == entry);
        assert(has_file(cv2.files, id));
        let w = file_idx(cv2.files, id);
        assert(cv2.files[w].id == id);
        assert(w == i) by {
            if w < i {
                assert(cv2.files[w] == cv.files[w]);
                assert(has_file(cv.files, id));
            }
        }
        assert(rec_of(cv2.files, id) == rec);
    }
    lemma_round_trip(cv.store, content, cv.block_size);
}

/// The bytes of the chunks of a sequence, concatenated in order, are the
/// sequence itself.
pub open spec fn concat_chunks(cs: Seq<Seq<u8>>) -> Seq<u8>
    decreases cs.len(),
{
    if cs.len() == 0 {
        Seq::empty()
    } else {
        concat_chunks(cs.drop_last()) + cs.last()
    }
}

proof fn lemma_concat_prepend(a: Seq<u8>, t: Seq<Seq<u8>>)
    ensures
        concat_chunks(seq![a] + t) == a + concat_chunks(t),
    decreases t.len(),
{
    if t.len() == 0 {
        assert(seq![a] + t =~= seq![a]);
        assert(concat_chunks(seq![a]) == concat_chunks(seq![a].drop_last()) + a);
        assert(seq![a].drop_last() =~= Seq::<Seq<u8>>::empty());
        assert(concat_chunks(seq![a] + t) =~= a + concat_chunks(t));
    } else {
        lemma_concat_prepend(a, t.drop_last());
        assert((seq![a] + t).drop_last() =~= seq![a] + t.drop_last());
        assert((seq![a] + t).last() == t.last());
        assert(concat_chunks(seq![a] + t) == (a + concat_chunks(t.drop_last())) + t.last());
        assert((a + concat_chunks(t.drop_last())) + t.last() =~= a + (concat_chunks(t.drop_last())
            + t.last()));
    }
}

pub proof fn lemma_chunks_concat(content: Seq<u8>, bs: int)
    requires
        1 <= bs,
    ensures
        concat_chunks(chunk_list(content, bs)) == content,
    decreases content.len(),
{
    let cs = chunk_list(content, bs);
    if content.len() == 0 {
        assert(cs =~= Seq::<Seq<u8>>::empty());
        assert(concat_chunks(cs) == Seq::<u8>::empty());
        assert(concat_chunks(cs) =~= content);
    } else if content.len() <= bs {
        assert(cs == seq![content]);
        assert(cs.len() == 1);
        assert(cs.last() == content);
        assert(cs.drop_last() =~= Seq::<Seq<u8>>::empty());
        assert(concat_chunks(cs.drop_last()) == Seq::<u8>::empty());
        assert(concat_chunks(cs) =~= content);
    } else {
        lemma_chunks_concat(content.skip(bs), bs);
        lemma_concat_prepend(content.take(bs), chunk_list(content.skip(bs), bs));
        assert(content.take(bs) + content.skip(bs) =~= content);
    }
}

/// Round trip: storing a file's chunks and then reading them back by their
/// digests, in order, reconstitutes the file byte for byte — provided no
/// two distinct block contents in play (already stored or in the file)
/// share a digest. Distinct byte sequences with equal digests would be
/// silently deduplicated into one block; none is known for the digest
/// function relied on.
pub proof fn lemma_round_trip(sv: StoreV, content: Seq<u8>, bs: int)
    requires
        sv.wf(),
        sv.consistent(),
        1 <= bs <= u32::MAX,
        forall|i: int| 0 <= i < chunk_list(content, bs).len() ==> (#[trigger] digest_of(
            chunk_list(content, bs)[i],
        )).len() == 32,
        store_seq_ok(sv, chunk_list(content, bs)),
        forall|i: int|
            0 <= i < chunk_list(content, bs).len() && sv.has(digest_of(
                #[trigger] chunk_list(content, bs)[i],
            )) ==> sv.content_at(digest_of(chunk_list(content, bs)[i])) == chunk_list(
                content,
                bs,
            )[i],
        forall|i: int, j: int|
            0 <= i < j < chunk_list(content, bs).len() && digest_of(
                #[trigger] chunk_list(content, bs)[i],
            ) == digest_of(#[trigger] chunk_list(content, bs)[j]) ==> chunk_list(content, bs)[i]
                == chunk_list(content, bs)[j],
    ensures
        concat_contents(store_seq_v(sv, chunk_list(content, bs)), digest_list(chunk_list(content, bs)))
            == content,
{
    let cs = chunk_list(content, bs);
    lemma_chunk_sizes(content, bs);
    lemma_store_chunks_contents(sv, cs, cs.len() as int);
    let sn = store_seq_v(sv, cs);
    assert(cs.take(cs.len() as int) =~= cs);
    lemma_concat_eq(sn, cs, cs.len() as int);
    assert(digest_list(cs).take(cs.len() as int) =~= digest_list(cs));
    assert(cs.take(cs.len() as int) =~= cs);
    lemma_chunks_concat(content, bs);
}

/// Every chunk fits a block: chunk lengths are positive and at most the
/// block size.
pub proof fn lemma_chunk_sizes(content: Seq<u8>, bs: int)
    requires
        1 <= bs,
    ensures
        forall|i: int|
            0 <= i < chunk_list(content, bs).len() ==> 0 < (#[trigger] chunk_list(
                content,
                bs,
            )[i]).len() <= bs,
    decreases content.len(),
{
    let cs = chunk_list(content, bs);
    if content.len() == 0 {
    } else if content.len() <= bs {
        assert(cs == seq![content]);
    } else {
        lemma_chunk_sizes(content.skip(bs), bs);
        assert forall|i: int| 0 <= i < cs.len() implies 0 < (#[trigger] cs[i]).len() <= bs by {
            if i == 0 {
                assert(cs[0] == content.take(bs));
            } else {
                assert(cs[i] == chunk_list(content.skip(bs), bs)[i - 1]);
            }
        }
    }
}

/// After storing the first `n` chunks, each of them is indexed and holds
/// its own bytes, and every block of the starting store is untouched.
#[verifier::rlimit(50)]
#[verifier::spinoff_prover]
proof fn lemma_store_chunks_contents(sv: StoreV, cs: Seq<Seq<u8>>, n: int)
    requires
        sv.wf(),
        sv.consistent(),
        0 <= n <= cs.len(),
        forall|i: int| 0 <= i < cs.len() ==> (#[trigger] digest_of(cs[i])).len() == 32,
        forall|i: int| 0 <= i < cs.len() ==> 0 < (#[trigger] cs[i]).len() <= u32::MAX,
        store_seq_ok(sv, cs),
        forall|i: int|
            0 <= i < cs.len() && sv.has(digest_of(#[trigger] cs[i])) ==> sv.content_at(
                digest_of(cs[i]),
            ) == cs[i],
        forall|i: int, j: int|
            0 <= i < j < cs.len() && digest_of(#[trigger] cs[i]) == digest_of(#[trigger] cs[j])
                ==> cs[i] == cs[j],
    ensures
        store_seq_v(sv, cs.take(n)).wf(),
        store_seq_v(sv, cs.take(n)).consistent(),
        forall|i: int|
            0 <= i < n ==> store_seq_v(sv, cs.take(n)).has(digest_of(#[trigger] cs[i]))
                && store_seq_v(sv, cs.take(n)).content_at(digest_of(cs[i])) == cs[i],
        forall|d: Seq<u8>|
            #[trigger] sv.has(d) ==> store_seq_v(sv, cs.take(n)).has(d) && store_seq_v(
                sv,
                cs.take(n),
            ).content_at(d) == sv.content_at(d),
        forall|i: int|
            n <= i < cs.len() && store_seq_v(sv, cs.take(n)).has(digest_of(#[trigger] cs[i]))
                ==> store_seq_v(sv, cs.take(n)).content_at(digest_of(cs[i])) == cs[i],
    decreases n,
{
    if n == 0 {
        assert(cs.take(0) =~= Seq::<Seq<u8>>::empty());
    } else {
        lemma_store_chunks_contents(sv, cs, n - 1);
        let sp = store_seq_v(sv, cs.take(n - 1));
        let c = cs[n - 1];
        let d = digest_of(c);
        assert(cs.take(n).drop_last() =~= cs.take(n - 1));
        assert(cs.take(n).last() == c);
        let sn = store_seq_v(sv, cs.take(n));
        assert(sn == sp.store_block_v(c));
        assert(count_of(sp.entries, d) < u32::MAX) by {
            lemma_store_ok_at(sv, cs, n);
            if sp.has(d) {
            } else {
                assert(count_of(sp.entries, d) == 0);
            }
        }
        lemma_store_v_wf(sp, c);
        if sp.has(d) {
            assert(sp.content_at(d) == c) by {
                if sv.has(d) {
                } else {
                    assert(exists|i: int|
                        0 <= i < n - 1 && digest_of(#[trigger] cs[i]) == d) by {
                        lemma_new_digest_from_chunks(sv, cs, n - 1, d);
                    }
                    let i = choose|i: int| 0 <= i < n - 1 && digest_of(#[trigger] cs[i]) == d;
                    assert(cs[i] == c);
                }
            }
        }
        assert forall|dd: Seq<u8>| #[trigger] sv.has(dd) implies sn.has(dd) && sn.content_at(dd)
            == sv.content_at(dd) by {
            assert(store_seq_v(sv, cs.take(n - 1)).has(dd) && store_seq_v(
                sv,
                cs.take(n - 1),
            ).content_at(dd) == sv.content_at(dd));
            assert(sp.has(dd) && sp.content_at(dd) == sv.content_at(dd));
            assert(sn.has(dd) && sn.content_at(dd) == sp.content_at(dd));
        }
        assert forall|i: int|
            0 <= i < n implies sn.has(digest_of(#[trigger] cs[i])) && sn.content_at(
            digest_of(cs[i]),
        ) == cs[i] by {
            if i < n - 1 {
                assert(sp.has(digest_of(cs[i])) && sp.content_at(digest_of(cs[i])) == cs[i]);
                assert(sn.has(digest_of(cs[i])) && sn.content_at(digest_of(cs[i])) == sp.content_at(
                    digest_of(cs[i]),
                ));
            } else {
                if sp.has(d) {
                    assert(sn.content_at(d) == sp.content_at(d));
                } else {
                    assert(sn.content_at(d) == c);
                }
            }
        }
        assert forall|i: int|
            n <= i < cs.len() && sn.has(digest_of(#[trigger] cs[i])) implies sn.content_at(
            digest_of(cs[i]),
        ) == cs[i] by {
            let di = digest_of(cs[i]);
            if sp.has(di) {
                assert(sn.content_at(di) == sp.content_at(di));
                assert(sp.content_at(di) == cs[i]);
            } else {
                assert(di == d) by {
                    if di != d {
                        lemma_store_block_new_keys(sp, c, di);
                    }
                }
                assert(cs[i] == c);
                assert(sn.content_at(d) == c);
            }
        }
    }
}

/// A digest indexed after one store but not before it is the stored
/// block's digest.
proof fn lemma_store_block_new_keys(sv: StoreV, c: Seq<u8>, d: Seq<u8>)
    requires
        !sv.has(d),
        sv.store_block_v(c).has(d),
    ensures
        d == digest_of(c),
{
    let es = sv.entries;
    let es2 = sv.store_block_v(c).entries;
    let w = idx_of(es2, d);
    assert(es2[w].digest == d);
    if has_digest(es, digest_of(c)) {
        let i = idx_of(es, digest_of(c));
        if w == i {
            assert(es[i].digest == digest_of(c));
        } else {
            assert(es2[w] == es[w]);
            assert(has_digest(es, d));
        }
    } else {
        if w < es.len() {
            assert(es2[w] == es[w]);
            assert(has_digest(es, d));
        } else {
            assert(es2[w].digest == digest_of(c));
        }
    }
}

/// A digest indexed after the first `m` chunks but not at the start is
/// some already-stored chunk's digest.
proof fn lemma_new_digest_from_chunks(sv: StoreV, cs: Seq<Seq<u8>>, m: int, d: Seq<u8>)
    requires
        0 <= m <= cs.len(),
        !sv.has(d),
        store_seq_v(sv, cs.take(m)).has(d),
    ensures
        exists|i: int| 0 <= i < m && digest_of(#[trigger] cs[i]) == d,
    decreases m,
{
    if m == 0 {
        assert(cs.take(0) =~= Seq::<Seq<u8>>::empty());
        assert(false);
    } else {
        assert(cs.take(m).drop_last() =~= cs.take(m - 1));
        assert(cs.take(m).last() == cs[m - 1]);
        let sp = store_seq_v(sv, cs.take(m - 1));
        if sp.has(d) {
            lemma_new_digest_from_chunks(sv, cs, m - 1, d);
            let i = choose|i: int| 0 <= i < m - 1 && digest_of(#[trigger] cs[i]) == d;
            assert(digest_of(cs[i]) == d);
        } else {
            lemma_store_block_new_keys(sp, cs[m - 1], d);
            assert(digest_of(cs[m - 1]) == d);
        }
    }
}

/// Storing is allowed at every prefix of an allowed sequence.
proof fn lemma_store_ok_at(sv: StoreV, cs: Seq<Seq<u8>>, n: int)
    requires
        1 <= n <= cs.len(),
        store_seq_ok(sv, cs),
    ensures
        !(store_seq_v(sv, cs.take(n - 1)).has(digest_of(cs[n - 1])) && store_seq_v(
            sv,
            cs.take(n - 1),
        ).count(digest_of(cs[n - 1])) == u32::MAX),
    decreases cs.len(),
{
    if n == cs.len() {
        assert(cs.take(n) =~= cs);
        assert(cs.drop_last() =~= cs.take(n - 1));
        assert(cs.last() == cs[n - 1]);
    } else {
        assert(cs.drop_last().take(n - 1) =~= cs.take(n - 1));
        assert(cs.drop_last()[n - 1] == cs[n - 1]);
        lemma_store_ok_at(sv, cs.drop_last(), n);
    }
}

/// Reading back the first `n` stored chunks, by digest, concatenates to
/// the first `n` chunks themselves.
proof fn lemma_concat_eq(sn: StoreV, cs: Seq<Seq<u8>>, n: int)
    requires
        0 <= n <= cs.len(),
        forall|i: int|
            0 <= i < cs.len() ==> sn.has(digest_of(#[trigger] cs[i])) && sn.content_at(
                digest_of(cs[i]),
            ) == cs[i],
    ensures
        concat_contents(sn, digest_list(cs).take(n)) == concat_chunks(cs.take(n)),
    decreases n,
{
    if n == 0 {
        assert(digest_list(cs).take(0) =~= Seq::<Seq<u8>>::empty());
        assert(cs.take(0) =~= Seq::<Seq<u8>>::empty());
    } else {
        lemma_concat_eq(sn, cs, n - 1);
        assert(digest_list(cs).take(n).drop_last() =~= digest_list(cs).take(n - 1));
        assert(digest_list(cs).take(n).last() == digest_of(cs[n - 1]));
        assert(cs.take(n).drop_last() =~= cs.take(n - 1));
        assert(cs.take(n).last() == cs[n - 1]);
    }
}

/// Persistence round trip: serializing a well-formed cache's index and
/// loading it back, over the unchanged data region, reproduces the very
/// same block index entries and file records — nothing is skipped by the
/// lenient load. The second hypothesis holds of every index a store holds
/// in memory, whose lengths and numbers come from machine words.
pub proof fn lemma_persistence_round_trip(cv: CacheV)
    requires
        cv.wf(),
        enc_index_wf(cv.store.entries, cv.files),
    ensures
        dec_index(enc_index(cv.store.entries, cv.files)) == Option::Some(
            (cv.store.entries, cv.files),
        ),
        sanitize_v(cv.store.entries, cv.store.data.len() as int) == cv.store.entries,
        sanitize_files_v(cv.files) == cv.files,
{
    lemma_codec_round_trip(cv.store.entries, cv.files);
    assert forall|i: int| 0 <= i < cv.store.entries.len() implies entry_wf(
        #[trigger] cv.store.entries[i],
        cv.store.data.len() as int,
    ) by {}
    lemma_sanitize_identity(cv.store.entries, cv.store.data.len() as int);
    lemma_sanitize_files_identity(cv.files);
}

/// The sizes of the listed digests' blocks, summed with multiplicity.
pub open spec fn wsum(es: Seq<EntryV>, bs: Seq<Seq<u8>>) -> int
    decreases bs.len(),
{
    if bs.len() == 0 {
        0
    } else {
        wsum(es, bs.drop_last()) + size_at(es, bs.last())
    }
}

/// The reference counts are exactly the file index's occurrence totals:
/// no reference was ever leaked (no record was overwritten in place).
pub open spec fn tight(cv: CacheV) -> bool {
    forall|d: Seq<u8>| #[trigger] occ(cv.files, d) == count_of(cv.store.entries, d)
}

/// Every file record's size is the sum of its blocks' stored sizes.
pub open spec fn sized(cv: CacheV) -> bool {
    forall|k: int|
        0 <= k < cv.files.len() ==> (#[trigger] cv.files[k]).rec.size == wsum(
            cv.store.entries,
            cv.files[k].rec.blocks,
        )
}

/// Releasing a list of digests, each found when its turn comes, lowers
/// each count by its multiplicity, keeps every surviving block's size,
/// and lowers the stored total by at most the released blocks' sizes.
proof fn lemma_release_seq_exact(sv: StoreV, bs: Seq<Seq<u8>>)
    requires
        sv.wf(),
        release_seq_ok(sv, bs),
    ensures
        ({
            let r = release_seq_v(sv, bs);
            &&& r.wf()
            &&& forall|d: Seq<u8>|
                #[trigger] count_of(r.entries, d) == count_of(sv.entries, d) - count_in(bs, d)
            &&& forall|d: Seq<u8>|
                #[trigger] r.has(d) ==> sv.has(d) && size_at(r.entries, d) == size_at(
                    sv.entries,
                    d,
                )
            &&& sum_sizes(r.entries) >= sum_sizes(sv.entries) - wsum(sv.entries, bs)
        }),
    decreases bs.len(),
{
    if bs.len() == 0 {
        assert forall|d: Seq<u8>|
            #[trigger] count_of(release_seq_v(sv, bs).entries, d) == count_of(sv.entries, d)
                - count_in(bs, d) by {
            assert(count_in(bs, d) == 0);
        }
    } else {
        let b = bs.last();
        let pre = release_seq_v(sv, bs.drop_last());
        lemma_release_seq_exact(sv, bs.drop_last());
        assert(pre.has(b));
        lemma_release_v_exact(pre, b);
        let r = release_seq_v(sv, bs);
        assert forall|d: Seq<u8>|
            #[trigger] count_of(r.entries, d) == count_of(sv.entries, d) - count_in(bs, d) by {
            if d == b {
                assert(count_of(r.entries, b) == count_of(pre.entries, b) - 1);
            } else {
                assert(count_of(r.entries, d) == count_of(pre.entries, d));
            }
        }
        assert forall|d: Seq<u8>|
            #[trigger] r.has(d) implies sv.has(d) && size_at(r.entries, d) == size_at(
            sv.entries,
            d,
        ) by {
            assert(pre.has(d) && size_at(r.entries, d) == size_at(pre.entries, d));
        }
        assert(size_at(pre.entries, b) == size_at(sv.entries, b)) by {
            assert(pre.has(b));
        }
        assert(sum_sizes(r.entries) >= sum_sizes(pre.entries) - size_at(pre.entries, b));
    }
}

/// Under distinct keys and positive counts, a store whose counts are all
/// zero has no entries.
proof fn lemma_no_counts_no_entries(sv: StoreV)
    requires
        sv.wf(),
        forall|d: Seq<u8>| #[trigger] count_of(sv.entries, d) == 0,
    ensures
        sv.entries.len() == 0,
        sum_sizes(sv.entries) == 0,
{
    if sv.entries.len() > 0 {
        let d0 = sv.entries[0].digest;
        lemma_pin(sv.entries, d0, 0);
        assert(entry_wf(sv.entries[0], sv.data.len() as int));
        assert(count_of(sv.entries, d0) >= 1);
    }
}

/// Stats invariant: when every reference count equals its occurrence
/// total (no record was ever overwritten in place) and every file's size
/// is the sum of its blocks' stored sizes, the logical byte total is at
/// least the stored byte total: deduplication can only shrink the
/// physical footprint. Overwriting a file record in place leaks
/// references and can push the stored total above the logical one, so
/// those states are left out here.
pub proof fn lemma_stats_invariant(cv: CacheV)
    requires
        cv.wf(),
        tight(cv),
        sized(cv),
    ensures
        logical_size(cv.files) >= sum_sizes(cv.store.entries),
    decreases cv.files.len(),
{
    let sv = cv.store;
    let fs = cv.files;
    if fs.len() == 0 {
        assert forall|d: Seq<u8>| #[trigger] count_of(sv.entries, d) == 0 by {
            assert(occ(fs, d) == 0);
        }
        lemma_no_counts_no_entries(sv);
    } else {
        let f = fs.last();
        let fs2 = fs.drop_last();
        let bs = f.rec.blocks;
        assert forall|d: Seq<u8>|
            occ(fs2, d) + count_in(bs, d) + count_in(#[trigger] Seq::<Seq<u8>>::empty().push(d), d)
                - 1 <= count_of(sv.entries, d) by {
            assert(occ(fs, d) == occ(fs2, d) + count_in(bs, d));
            assert(count_in(Seq::<Seq<u8>>::empty().push(d), d) == 1) by {
                let s1 = Seq::<Seq<u8>>::empty().push(d);
                assert(s1.drop_last() =~= Seq::<Seq<u8>>::empty());
                assert(count_in(s1.drop_last(), d) == 0);
            }
        }
        lemma_release_all(sv, fs2, bs, Seq::<Seq<u8>>::empty());
        lemma_release_seq_exact(sv, bs);
        let sv2 = release_seq_v(sv, bs);
        let cv2 = CacheV { block_size: cv.block_size, store: sv2, files: fs2, modified: true };
        assert(tight(cv2)) by {
            assert forall|d: Seq<u8>| #[trigger] occ(fs2, d) == count_of(sv2.entries, d) by {
                assert(occ(fs, d) == occ(fs2, d) + count_in(bs, d));
                assert(count_of(sv2.entries, d) == count_of(sv.entries, d) - count_in(bs, d));
            }
        }
        assert(cv2.wf()) by {
            assert forall|i: int, j: int| 0 <= i < j < fs2.len() implies fs2[i].id
                != fs2[j].id by {
                assert(fs2[i] == fs[i] && fs2[j] == fs[j]);
            }
            assert forall|k: int| 0 <= k < fs2.len() implies file_rec_wf(
                (#[trigger] fs2[k]).rec,
            ) by {
                assert(fs2[k] == fs[k]);
                assert(file_rec_wf(fs[k].rec));
            }
            assert(file_rec_wf(fs[fs.len() - 1].rec));
            assert(logical_size(fs) == logical_size(fs2) + f.rec.size);
        }
        assert(sized(cv2)) by {
            assert forall|k: int| 0 <= k < fs2.len() implies (#[trigger] fs2[k]).rec.size == wsum(
                sv2.entries,
                fs2[k].rec.blocks,
            ) by {
                assert(fs2[k] == fs[k]);
                assert(fs[k].rec.size == wsum(sv.entries, fs[k].rec.blocks));
                assert forall|d: Seq<u8>| #[trigger] occ(fs2, d) <= count_of(
                    sv2.entries,
                    d,
                ) by {
                    assert(occ(fs2, d) == count_of(sv2.entries, d));
                }
                lemma_wsum_same(sv, sv2, fs2, k, fs2[k].rec.blocks, fs2[k].rec.blocks.len() as int);
                assert(fs2[k].rec.blocks.take(fs2[k].rec.blocks.len() as int) =~= fs2[
                    k
                ].rec.blocks);
            }
        }
        lemma_stats_invariant(cv2);
        assert(f.rec.size == wsum(sv.entries, bs)) by {
            assert(fs[fs.len() - 1].rec.size == wsum(sv.entries, fs[fs.len() - 1].rec.blocks));
        }
        assert(logical_size(fs) == logical_size(fs2) + f.rec.size);
        assert(sum_sizes(sv.entries) <= sum_sizes(sv2.entries) + wsum(sv.entries, bs));
    }
}

/// A still-referenced block keeps its size across the removal of another
/// file: the weighted sum of any remaining file's blocks is unchanged.
proof fn lemma_wsum_same(
    sv: StoreV,
    sv2: StoreV,
    fs2: Seq<FileEntryV>,
    k: int,
    bs: Seq<Seq<u8>>,
    n: int,
)
    requires
        0 <= k < fs2.len(),
        0 <= n <= bs.len(),
        bs == fs2[k].rec.blocks,
        forall|d: Seq<u8>|
            #[trigger] sv2.has(d) ==> sv.has(d) && size_at(sv2.entries, d) == size_at(
                sv.entries,
                d,
            ),
        forall|d: Seq<u8>| #[trigger] occ(fs2, d) <= count_of(sv2.entries, d),
    ensures
        wsum(sv2.entries, bs.take(n)) == wsum(sv.entries, bs.take(n)),
    decreases n,
{
    if n > 0 {
        lemma_wsum_same(sv, sv2, fs2, k, bs, n - 1);
        assert(bs.take(n).drop_last() =~= bs.take(n - 1));
        assert(bs.take(n).last() == bs[n - 1]);
        let d = bs[n - 1];
        lemma_count_in_member(bs, n - 1);
        lemma_occ_lower(fs2, k, d);
        assert(count_of(sv2.entries, d) >= 1);
        assert(sv2.has(d)) by {
            if !sv2.has(d) {
                assert(count_of(sv2.entries, d) == 0);
            }
        }
        assert(size_at(sv2.entries, d) == size_at(sv.entries, d));
    }
}

/// Sum of the lengths of a list of byte sequences.
pub open spec fn sum_lens(cs: Seq<Seq<u8>>) -> int
    decreases cs.len(),
{
    if cs.len() == 0 {
        0
    } else {
        sum_lens(cs.drop_last()) + cs.last().len()
    }
}

proof fn lemma_concat_len(cs: Seq<Seq<u8>>)
    ensures
        concat_chunks(cs).len() == sum_lens(cs),
    decreases cs.len(),
{
    if cs.len() > 0 {
        lemma_concat_len(cs.drop_last());
    }
}

/// Storing a list of blocks raises each digest's count by exactly its
/// multiplicity among the blocks' digests.
proof fn lemma_store_seq_counts(sv: StoreV, cs: Seq<Seq<u8>>)
    requires
        sv.wf(),
        forall|i: int| 0 <= i < cs.len() ==> (#[trigger] digest_of(cs[i])).len() == 32,
        forall|i: int| 0 <= i < cs.len() ==> (#[trigger] cs[i]).len() <= u32::MAX,
        store_seq_ok(sv, cs),
    ensures
        store_seq_v(sv, cs).wf(),
        forall|d: Seq<u8>|
            #[trigger] count_of(store_seq_v(sv, cs).entries, d) == count_of(sv.entries, d)
                + count_in(digest_list(cs), d),
    decreases cs.len(),
{
    if cs.len() == 0 {
        assert forall|d: Seq<u8>|
            #[trigger] count_of(store_seq_v(sv, cs).entries, d) == count_of(sv.entries, d)
                + count_in(digest_list(cs), d) by {
            assert(count_in(digest_list(cs), d) == 0);
        }
    } else {
        let c = cs.last();
        let t = cs.drop_last();
        assert forall|i: int| 0 <= i < t.len() implies (#[trigger] digest_of(t[i])).len()
            == 32 by {
            assert(t[i] == cs[i]);
        }
        assert forall|i: int| 0 <= i < t.len() implies (#[trigger] t[i]).len() <= u32::MAX by {
            assert(t[i] == cs[i]);
        }
        lemma_store_seq_counts(sv, t);
        let pre = store_seq_v(sv, t);
        assert(count_of(pre.entries, digest_of(c)) < u32::MAX) by {
            if pre.has(digest_of(c)) {
            } else {
                assert(count_of(pre.entries, digest_of(c)) == 0);
            }
        }
        lemma_store_v_wf(pre, c);
        assert forall|d: Seq<u8>|
            #[trigger] count_of(store_seq_v(sv, cs).entries, d) == count_of(sv.entries, d)
                + count_in(digest_list(cs), d) by {
            assert(digest_list(cs).drop_last() =~= digest_list(t));
            assert(digest_list(cs).last() == digest_of(c));
            if d == digest_of(c) {
                assert(count_of(store_seq_v(sv, cs).entries, d) == count_of(pre.entries, d) + 1);
            } else {
                assert(count_of(store_seq_v(sv, cs).entries, d) == count_of(pre.entries, d));
            }
        }
    }
}

/// The recorded size of an indexed block is the length of its bytes.
proof fn lemma_size_is_content_len(sv: StoreV, d: Seq<u8>)
    requires
        sv.wf(),
        sv.has(d),
    ensures
        size_at(sv.entries, d) == sv.content_at(d).len(),
{
    let i = idx_of(sv.entries, d);
    assert(sv.entries[i].digest == d);
    assert(entry_wf(sv.entries[i], sv.data.len() as int));
}

/// Storing a file under a fresh identifier keeps the reference counts
/// tight and the file sizes exact, under the same collision-freedom
/// hypotheses as the round trip.
pub proof fn lemma_store_file_keeps_tight(cv: CacheV, id: Seq<u8>, name: Seq<u8>, content: Seq<u8>)
    requires
        cv.wf(),
        tight(cv),
        sized(cv),
        cv.store.consistent(),
        !has_file(cv.files, id),
        forall|i: int| 0 <= i < chunk_list(content, cv.block_size).len() ==> (#[trigger] digest_of(
            chunk_list(content, cv.block_size)[i],
        )).len() == 32,
        store_seq_ok(cv.store, chunk_list(content, cv.block_size)),
        forall|i: int|
            0 <= i < chunk_list(content, cv.block_size).len() && cv.store.has(digest_of(
                #[trigger] chunk_list(content, cv.block_size)[i],
            )) ==> cv.store.content_at(digest_of(chunk_list(content, cv.block_size)[i]))
                == chunk_list(content, cv.block_size)[i],
        forall|i: int, j: int|
            0 <= i < j < chunk_list(content, cv.block_size).len() && digest_of(
                #[trigger] chunk_list(content, cv.block_size)[i],
            ) == digest_of(#[trigger] chunk_list(content, cv.block_size)[j]) ==> chunk_list(
                content,
                cv.block_size,
            )[i] == chunk_list(content, cv.block_size)[j],
    ensures
        tight(store_file_v(cv, id, name, content)),
        sized(store_file_v(cv, id, name, content)),
{
    let sv = cv.store;
    let bs = cv.block_size;
    let cs = chunk_list(content, bs);
    let cv2 = store_file_v(cv, id, name, content);
    let sv2 = cv2.store;
    lemma_chunk_sizes(content, bs);
    lemma_store_seq_counts(sv, cs);
    lemma_store_chunks_contents(sv, cs, cs.len() as int);
    assert(cs.take(cs.len() as int) =~= cs);
    let rec = FileRecV { blocks: digest_list(cs), size: content.len() as int, name: name };
    assert(cv2.files == cv.files.push(FileEntryV { id: id, rec: rec }));
    assert(tight(cv2)) by {
        assert forall|d: Seq<u8>| #[trigger] occ(cv2.files, d) == count_of(sv2.entries, d) by {
            assert(cv2.files.drop_last() =~= cv.files);
            assert(occ(cv2.files, d) == occ(cv.files, d) + count_in(rec.blocks, d));
        }
    }
    // every previously indexed block keeps its bytes, hence its size
    assert forall|d: Seq<u8>| #[trigger] sv.has(d) implies sv2.has(d) && size_at(sv2.entries, d)
        == size_at(sv.entries, d) by {
        assert(sv2.has(d) && sv2.content_at(d) == sv.content_at(d));
        lemma_size_is_content_len(sv, d);
        lemma_size_is_content_len(sv2, d);
    }
    assert(sized(cv2)) by {
        assert forall|k: int| 0 <= k < cv2.files.len() implies (#[trigger] cv2.files[k]).rec.size
            == wsum(sv2.entries, cv2.files[k].rec.blocks) by {
            if k < cv.files.len() {
                assert(cv2.files[k] == cv.files[k]);
                assert(cv.files[k].rec.size == wsum(sv.entries, cv.files[k].rec.blocks));
                lemma_wsum_blocks_same(sv, sv2, cv.files, k, cv.files[k].rec.blocks,
                    cv.files[k].rec.blocks.len() as int);
                assert(cv.files[k].rec.blocks.take(cv.files[k].rec.blocks.len() as int) =~= cv
                    .files[k].rec.blocks);
            } else {
                assert(cv2.files[k].rec == rec);
                lemma_wsum_is_sum_lens(sv2, cs, cs.len() as int);
                assert(cs.take(cs.len() as int) =~= cs);
                assert(digest_list(cs).take(cs.len() as int) =~= digest_list(cs));
                lemma_chunks_concat(content, bs);
                lemma_concat_len(cs);
            }
        }
    }
}

/// A block referenced by a still-present file keeps its size when the
/// store only gains references and keeps all stored bytes.
proof fn lemma_wsum_blocks_same(
    sv: StoreV,
    sv2: StoreV,
    fs: Seq<FileEntryV>,
    k: int,
    bs: Seq<Seq<u8>>,
    n: int,
)
    requires
        sv.wf(),
        0 <= k < fs.len(),
        0 <= n <= bs.len(),
        bs == fs[k].rec.blocks,
        forall|d: Seq<u8>|
            #[trigger] sv.has(d) ==> sv2.has(d) && size_at(sv2.entries, d) == size_at(
                sv.entries,
                d,
            ),
        forall|d: Seq<u8>| #[trigger] occ(fs, d) == count_of(sv.entries, d),
    ensures
        wsum(sv2.entries, bs.take(n)) == wsum(sv.entries, bs.take(n)),
    decreases n,
{
    if n > 0 {
        lemma_wsum_blocks_same(sv, sv2, fs, k, bs, n - 1);
        assert(bs.take(n).drop_last() =~= bs.take(n - 1));
        assert(bs.take(n).last() == bs[n - 1]);
        let d = bs[n - 1];
        lemma_count_in_member(bs, n - 1);
        lemma_occ_lower(fs, k, d);
        assert(count_of(sv.entries, d) >= 1);
        assert(sv.has(d)) by {
            if !sv.has(d) {
                assert(count_of(sv.entries, d) == 0);
            }
        }
    }
}

/// Reading the stored chunks' sizes back, with multiplicity, totals the
/// chunks' lengths.
proof fn lemma_wsum_is_sum_lens(sn: StoreV, cs: Seq<Seq<u8>>, n: int)
    requires
        sn.wf(),
        0 <= n <= cs.len(),
        forall|i: int|
            0 <= i < cs.len() ==> sn.has(digest_of(#[trigger] cs[i])) && sn.content_at(
                digest_of(cs[i]),
            ) == cs[i],
    ensures
        wsum(sn.entries, digest_list(cs).take(n)) == sum_lens(cs.take(n)),
    decreases n,
{
    if n > 0 {
        lemma_wsum_is_sum_lens(sn, cs, n - 1);
        assert(digest_list(cs).take(n).drop_last() =~= digest_list(cs).take(n - 1));
        assert(digest_list(cs).take(n).last() == digest_of(cs[n - 1]));
        assert(cs.take(n).drop_last() =~= cs.take(n - 1));
        assert(cs.take(n).last() == cs[n - 1]);
        lemma_size_is_content_len(sn, digest_of(cs[n - 1]));
    }
}

/// Removing a file keeps the reference counts tight and the remaining
/// file sizes exact.
pub proof fn lemma_remove_file_keeps_tight(cv: CacheV, id: Seq<u8>)
    requires
        cv.wf(),
        tight(cv),
        sized(cv),
        has_file(cv.files, id),
    ensures
        tight(remove_file_v(cv, id)),
        sized(remove_file_v(cv, id)),
{
    let sv = cv.store;
    let i = file_idx(cv.files, id);
    assert(0 <= i < cv.files.len() && cv.files[i].id == id);
    let bs = cv.files[i].rec.blocks;
    let fs2 = cv.files.remove(i);
    assert forall|d: Seq<u8>|
        occ(fs2, d) + count_in(bs, d) + count_in(#[trigger] Seq::<Seq<u8>>::empty().push(d), d) - 1
            <= count_of(sv.entries, d) by {
        lemma_occ_remove(cv.files, i, d);
        assert(count_in(Seq::<Seq<u8>>::empty().push(d), d) == 1) by {
            let s1 = Seq::<Seq<u8>>::empty().push(d);
            assert(s1.drop_last() =~= Seq::<Seq<u8>>::empty());
            assert(count_in(s1.drop_last(), d) == 0);
        }
    }
    lemma_release_all(sv, fs2, bs, Seq::<Seq<u8>>::empty());
    lemma_release_seq_exact(sv, bs);
    let cv2 = remove_file_v(cv, id);
    let sv2 = cv2.store;
    assert(tight(cv2)) by {
        assert forall|d: Seq<u8>| #[trigger] occ(fs2, d) == count_of(sv2.entries, d) by {
            lemma_occ_remove(cv.files, i, d);
            assert(count_of(sv2.entries, d) == count_of(sv.entries, d) - count_in(bs, d));
        }
    }
    assert(sized(cv2)) by {
        assert forall|k: int| 0 <= k < fs2.len() implies (#[trigger] fs2[k]).rec.size == wsum(
            sv2.entries,
            fs2[k].rec.blocks,
        ) by {
            let k0 = if k < i {
                k
            } else {
                k + 1
            };
            assert(fs2[k] == cv.files[k0]);
            assert(cv.files[k0].rec.size == wsum(sv.entries, cv.files[k0].rec.blocks));
            assert forall|d: Seq<u8>| #[trigger] occ(fs2, d) <= count_of(sv2.entries, d) by {
                lemma_occ_remove(cv.files, i, d);
                assert(occ(cv.files, d) == count_of(sv.entries, d));
                assert(count_of(sv2.entries, d) == count_of(sv.entries, d) - count_in(bs, d));
            }
            lemma_wsum_same(sv, sv2, fs2, k, fs2[k].rec.blocks, fs2[k].rec.blocks.len() as int);
            assert(fs2[k].rec.blocks.take(fs2[k].rec.blocks.len() as int) =~= fs2[k].rec.blocks);
        }
    }
}

} // verus!
