//! Multi-version store for versioned account states.
//!
//! For each address it keeps a version history, keyed by the writing
//! transaction's index, so a reader sees the write of the greatest strictly
//! lower index. Each entry records its readers, and each address records the
//! transactions that fell through to the initial snapshot, so a writer can
//! name exactly the later readers its write invalidates.

use vstd::prelude::*;

use crate::types::{AccountState, Address, Incarnation, TxnIndex, Version};

verus! {

/// Entry in the version history for an address.
#[derive(Debug, Clone)]
pub struct VersionedEntry {
    pub version: Version,
    pub state: AccountState,
    /// Transactions that have read from this version (for push-based invalidation).
    pub readers: Vec<TxnIndex>,
}

/// The mathematical reading of a [`VersionedEntry`].
pub ghost struct EntryModel {
    pub version: Version,
    pub state: AccountState,
    pub readers: Seq<TxnIndex>,
}

impl VersionedEntry {
    pub open spec fn model(self) -> EntryModel {
        EntryModel { version: self.version, state: self.state, readers: self.readers@ }
    }
}

/// Result of reading from the multi-version store.
#[derive(Debug, Clone)]
pub enum ReadResult {
    /// Value found at a specific version.
    Versioned(Version, AccountState),
    /// No version found; read from base storage.
    Storage,
    /// Dependency on a transaction that is still executing.
    Dependency(TxnIndex),
}

/// Result of writing to the multi-version store.
#[derive(Debug, Clone)]
pub struct WriteResult {
    /// Transactions that had read a superseded version and need invalidation.
    pub invalidated_readers: Vec<TxnIndex>,
}

/// A history is sorted by writer index, strictly increasing: at most one
/// entry per transaction, ordered for greatest-lower-bound reads.
pub open spec fn sorted_history(h: Seq<EntryModel>) -> bool {
    forall|i: int, j: int|
        0 <= i < j < h.len() ==> (#[trigger] h[i]).version.txn_idx < (#[trigger] h[j]).version.txn_idx
}

/// Whether some entry of `h` was written by transaction `j`.
pub open spec fn has_entry(h: Seq<EntryModel>, j: int) -> bool {
    exists|i: int| 0 <= i < h.len() && (#[trigger] h[i]).version.txn_idx == j
}

/// The position of the entry written by transaction `j`.
pub open spec fn idx_of(h: Seq<EntryModel>, j: int) -> int {
    choose|i: int| 0 <= i < h.len() && (#[trigger] h[i]).version.txn_idx == j
}

/// The entry written by transaction `j`.
pub open spec fn entry_at(h: Seq<EntryModel>, j: int) -> EntryModel {
    h[idx_of(h, j)]
}

/// Whether `h` has an entry by a transaction of index below `r`.
pub open spec fn exists_below(h: Seq<EntryModel>, r: int) -> bool {
    exists|i: int| 0 <= i < h.len() && (#[trigger] h[i]).version.txn_idx < r
}

/// The position of the last entry of index below `r` (the authoritative read
/// for reader `r` in a sorted history).
pub open spec fn max_below(h: Seq<EntryModel>, r: int) -> int
    decreases h.len(),
{
    if h.len() == 0 {
        -1
    } else if h.last().version.txn_idx < r {
        h.len() - 1
    } else {
        max_below(h.drop_last(), r)
    }
}

/// What a read by transaction `r` returns from history `h`: the entry of the
/// greatest index strictly below `r`, or `Storage` when there is none.
pub open spec fn read_spec(h: Seq<EntryModel>, r: int) -> ReadResult
    decreases h.len(),
{
    if h.len() == 0 {
        ReadResult::Storage
    } else if h.last().version.txn_idx < r {
        ReadResult::Versioned(h.last().version, h.last().state)
    } else {
        read_spec(h.drop_last(), r)
    }
}

/// `max_below` finds the authoritative read position: an entry below `r`
/// whose index dominates every other entry below `r`.
pub proof fn lemma_max_below(h: Seq<EntryModel>, r: int)
    requires
        exists_below(h, r),
    ensures
        0 <= max_below(h, r) < h.len(),
        h[max_below(h, r)].version.txn_idx < r,
        forall|i: int|
            0 <= i < h.len() && (#[trigger] h[i]).version.txn_idx < r ==> i <= max_below(h, r),
        read_spec(h, r) == ReadResult::Versioned(
            h[max_below(h, r)].version,
            h[max_below(h, r)].state,
        ),
    decreases h.len(),
{
    if h.len() > 0 && !(h.last().version.txn_idx < r) {
        assert(exists_below(h.drop_last(), r)) by {
            let i = choose|i: int| 0 <= i < h.len() && (#[trigger] h[i]).version.txn_idx < r;
            assert(h.drop_last()[i] == h[i]);
        }
        lemma_max_below(h.drop_last(), r);
        assert forall|i: int|
            0 <= i < h.len() && (#[trigger] h[i]).version.txn_idx < r implies i <= max_below(h, r) by {
            assert(h.drop_last()[i] == h[i]);
        }
    }
}

/// An entry with its reader set erased: what remains is the version and the
/// state, the facts a write or a read is about.
pub open spec fn bare_entry(e: EntryModel) -> EntryModel {
    EntryModel { version: e.version, state: e.state, readers: Seq::empty() }
}

/// A history with all reader sets erased.
pub open spec fn bare(h: Seq<EntryModel>) -> Seq<EntryModel> {
    h.map_values(|e: EntryModel| bare_entry(e))
}

/// Whether `x` is recorded as a reader on any entry of `h`.
pub open spec fn reader_in(h: Seq<EntryModel>, x: TxnIndex) -> bool {
    exists|p: int| 0 <= p < h.len() && (#[trigger] h[p]).readers.contains(x)
}

/// A read from a history with nothing below `r` falls through to storage.
pub proof fn lemma_read_spec_storage(h: Seq<EntryModel>, r: int)
    requires
        !exists_below(h, r),
    ensures
        read_spec(h, r) == ReadResult::Storage,
    decreases h.len(),
{
    if h.len() > 0 {
        assert(!exists_below(h.drop_last(), r)) by {
            if exists_below(h.drop_last(), r) {
                let i = choose|i: int|
                    0 <= i < h.drop_last().len() && (#[trigger] h.drop_last()[i]).version.txn_idx
                        < r;
                assert(h[i] == h.drop_last()[i]);
            }
        }
        lemma_read_spec_storage(h.drop_last(), r);
    }
}

/// The history after `reader` registers its read of the entry of version
/// `v`, exactly as `record_read` installs it: the reader appended to that
/// entry's reader set when the entry is still current and the reader is
/// new, the history untouched otherwise.
pub open spec fn recorded_history(h: Seq<EntryModel>, reader: TxnIndex, v: Version) -> Seq<
    EntryModel,
> {
    let j = v.txn_idx as int;
    if has_entry(h, j) && entry_at(h, j).version == v && !entry_at(h, j).readers.contains(reader) {
        h.update(
            idx_of(h, j),
            EntryModel {
                version: entry_at(h, j).version,
                state: entry_at(h, j).state,
                readers: entry_at(h, j).readers.push(reader),
            },
        )
    } else {
        h
    }
}

/// The storage-read index after `reader` registers, exactly as
/// `record_storage_read` installs it.
pub open spec fn recorded_storage(srs: Seq<TxnIndex>, reader: TxnIndex) -> Seq<TxnIndex> {
    if srs.contains(reader) {
        srs
    } else {
        srs.push(reader)
    }
}

/// Registering the read a sorted history answered leaves the reader in the
/// reader set of the entry it observed: the entry the read returned is the
/// current one for its writer, and after recording it carries the reader.
pub proof fn lemma_read_registers(h: Seq<EntryModel>, reader: TxnIndex, v: Version, s: AccountState, r: int)
    requires
        sorted_history(h),
        read_spec(h, r) == ReadResult::Versioned(v, s),
    ensures
        (v.txn_idx as int) < r,
        has_entry(h, v.txn_idx as int),
        entry_at(h, v.txn_idx as int).version == v,
        sorted_history(recorded_history(h, reader, v)),
        has_entry(recorded_history(h, reader, v), v.txn_idx as int),
        entry_at(recorded_history(h, reader, v), v.txn_idx as int).readers.contains(reader),
{
    let j = v.txn_idx as int;
    assert(exists_below(h, r)) by {
        if !exists_below(h, r) {
            lemma_read_spec_storage(h, r);
        }
    }
    lemma_max_below(h, r);
    let m = max_below(h, r);
    assert(h[m].version == v);
    assert(has_entry(h, j));
    assert(idx_of(h, j) == m) by {
        let k = idx_of(h, j);
        assert(0 <= k < h.len() && h[k].version.txn_idx == j);
        if k < m {
            assert(h[k].version.txn_idx < h[m].version.txn_idx);
        } else if k > m {
            assert(h[m].version.txn_idx < h[k].version.txn_idx);
        }
    }
    let hr = recorded_history(h, reader, v);
    if entry_at(h, j).readers.contains(reader) {
        assert(hr == h);
    } else {
        assert(hr == h.update(
            m,
            EntryModel {
                version: h[m].version,
                state: h[m].state,
                readers: h[m].readers.push(reader),
            },
        ));
        assert forall|p: int, q: int| 0 <= p < q < hr.len() implies (
        #[trigger] hr[p]).version.txn_idx < (#[trigger] hr[q]).version.txn_idx by {
            assert(hr[p].version.txn_idx == h[p].version.txn_idx);
            assert(hr[q].version.txn_idx == h[q].version.txn_idx);
        }
        assert(hr[m].version.txn_idx == j);
        assert(has_entry(hr, j));
        assert(idx_of(hr, j) == m) by {
            let k = idx_of(hr, j);
            assert(0 <= k < hr.len() && hr[k].version.txn_idx == j);
            if k < m {
                assert(hr[k].version.txn_idx < hr[m].version.txn_idx);
            } else if k > m {
                assert(hr[m].version.txn_idx < hr[k].version.txn_idx);
            }
        }
        assert(hr[m].readers == h[m].readers.push(reader));
        assert(hr[m].readers.contains(reader)) by {
            assert(hr[m].readers[h[m].readers.len() as int] == reader);
        }
    }
}

/// The readers a write by transaction `w` must invalidate: the recorded
/// readers above `w` of the entry that was the authoritative read below `w`,
/// or, when no entry below `w` exists, the storage readers above `w` (they
/// resolved the address from the snapshot and must now see this write).
pub open spec fn invalidation_targets(
    h: Seq<EntryModel>,
    srs: Seq<TxnIndex>,
    w: int,
) -> Set<TxnIndex> {
    if exists_below(h, w) {
        Set::new(|j: TxnIndex| h[max_below(h, w)].readers.contains(j) && j as int > w)
    } else {
        Set::new(|j: TxnIndex| srs.contains(j) && j as int > w)
    }
}

/// The history after inserting or replacing the entry of `e`'s transaction,
/// keeping the order by writer index.
pub open spec fn upsert(h: Seq<EntryModel>, e: EntryModel) -> Seq<EntryModel>
    decreases h.len(),
{
    if h.len() == 0 {
        seq![e]
    } else if h.last().version.txn_idx < e.version.txn_idx {
        h.push(e)
    } else if h.last().version.txn_idx == e.version.txn_idx {
        h.drop_last().push(e)
    } else {
        upsert(h.drop_last(), e).push(h.last())
    }
}

/// `max_below` stays in range.
pub proof fn lemma_max_below_bounds(h: Seq<EntryModel>, r: int)
    ensures
        -1 <= max_below(h, r) < h.len(),
    decreases h.len(),
{
    if h.len() > 0 && !(h.last().version.txn_idx < r) {
        lemma_max_below_bounds(h.drop_last(), r);
    }
}

/// Where the upserted entry lands: at the position right after the entries
/// below it, replacing an entry of the same transaction if there is one.
pub proof fn lemma_upsert_shape(h: Seq<EntryModel>, e: EntryModel)
    requires
        sorted_history(h),
    ensures
        ({
            let w = e.version.txn_idx as int;
            let pos = max_below(h, w) + 1;
            &&& 0 <= pos <= h.len()
            &&& (if pos < h.len() && h[pos].version.txn_idx == w {
                upsert(h, e) == h.update(pos, e)
            } else {
                upsert(h, e) == h.insert(pos, e)
            })
        }),
    decreases h.len(),
{
    let w = e.version.txn_idx as int;
    lemma_max_below_bounds(h, w);
    let pos = max_below(h, w) + 1;
    if h.len() == 0 {
        assert(upsert(h, e) =~= h.insert(0, e));
    } else if h.last().version.txn_idx < w {
        assert(pos == h.len());
        assert(upsert(h, e) =~= h.insert(pos, e));
    } else if h.last().version.txn_idx == w {
        assert(sorted_history(h.drop_last())) by {
            assert forall|i: int, j: int| 0 <= i < j < h.drop_last().len() implies (
            #[trigger] h.drop_last()[i]).version.txn_idx < (
            #[trigger] h.drop_last()[j]).version.txn_idx by {
                assert(h.drop_last()[i] == h[i]);
                assert(h.drop_last()[j] == h[j]);
            }
        }
        assert(max_below(h, w) == max_below(h.drop_last(), w));
        if h.len() > 1 {
            assert(h.drop_last().last().version.txn_idx == h[h.len() - 2].version.txn_idx);
            assert(h[h.len() - 2].version.txn_idx < w);
            assert(max_below(h.drop_last(), w) == h.len() - 2);
        } else {
            assert(max_below(h.drop_last(), w) == -1);
        }
        assert(pos == h.len() - 1);
        assert(h[pos].version.txn_idx == w);
        assert(upsert(h, e) =~= h.update(pos, e));
    } else {
        assert(sorted_history(h.drop_last())) by {
            assert forall|i: int, j: int| 0 <= i < j < h.drop_last().len() implies (
            #[trigger] h.drop_last()[i]).version.txn_idx < (
            #[trigger] h.drop_last()[j]).version.txn_idx by {
                assert(h.drop_last()[i] == h[i]);
                assert(h.drop_last()[j] == h[j]);
            }
        }
        lemma_upsert_shape(h.drop_last(), e);
        assert(max_below(h, w) == max_below(h.drop_last(), w));
        let hd = h.drop_last();
        lemma_max_below_bounds(hd, w);
        if pos < hd.len() && hd[pos].version.txn_idx == w {
            assert(h[pos] == hd[pos]);
            assert(upsert(hd, e) == hd.update(pos, e));
            assert(upsert(h, e) =~= h.update(pos, e));
        } else {
            assert(upsert(hd, e) == hd.insert(pos, e));
            if pos < h.len() && h[pos].version.txn_idx == w {
                // The matching entry would have to be the last one, whose
                // index exceeds w in this branch.
                assert(pos == h.len() - 1);
                assert(false);
            }
            hd.insert_ensures(pos, e);
            h.insert_ensures(pos, e);
            assert(upsert(h, e) =~= h.insert(pos, e));
        }
    }
}

/// The upserted history is still sorted, and its entries are the new entry
/// plus every entry of another transaction, in place.
pub proof fn lemma_upsert_sorted(h: Seq<EntryModel>, e: EntryModel)
    requires
        sorted_history(h),
    ensures
        sorted_history(upsert(h, e)),
{
    let w = e.version.txn_idx as int;
    lemma_upsert_shape(h, e);
    lemma_max_below_bounds(h, w);
    let pos = max_below(h, w) + 1;
    if exists_below(h, w) {
        lemma_max_below(h, w);
    }
    assert forall|i: int| pos <= i < h.len() implies (#[trigger] h[i]).version.txn_idx >= w by {
        if h[i].version.txn_idx < w {
            lemma_max_below(h, w);
        }
    }
    assert forall|i: int| 0 <= i < pos implies (#[trigger] h[i]).version.txn_idx < w by {
        assert(h[pos - 1].version.txn_idx < w) by {
            if exists_below(h, w) {
                lemma_max_below(h, w);
            } else {
                assert(max_below(h, w) == -1) by {
                    lemma_max_below_neg(h, w);
                }
            }
        }
        if i < pos - 1 {
            assert(h[i].version.txn_idx < h[pos - 1].version.txn_idx);
        }
    }
    if pos < h.len() && h[pos].version.txn_idx == w {
        let u = h.update(pos, e);
        assert forall|i: int, j: int| 0 <= i < j < u.len() implies (#[trigger] u[i]).version.txn_idx
            < (#[trigger] u[j]).version.txn_idx by {}
    } else {
        let u = h.insert(pos, e);
        h.insert_ensures(pos, e);
        assert forall|i: int, j: int| 0 <= i < j < u.len() implies (#[trigger] u[i]).version.txn_idx
            < (#[trigger] u[j]).version.txn_idx by {
            if i > pos {
                assert(u[i] == h[i - 1]);
            }
            if j > pos {
                assert(u[j] == h[j - 1]);
            }
        }
    }
}

/// Installing a write leaves every entry of another transaction in place,
/// reader set included.
pub proof fn lemma_upsert_preserves_entry(h: Seq<EntryModel>, e: EntryModel, j: int)
    requires
        sorted_history(h),
        has_entry(h, j),
        j != e.version.txn_idx,
    ensures
        has_entry(upsert(h, e), j),
        entry_at(upsert(h, e), j) == entry_at(h, j),
{
    let u = upsert(h, e);
    lemma_upsert_shape(h, e);
    lemma_upsert_sorted(h, e);
    lemma_max_below_bounds(h, e.version.txn_idx as int);
    let pos = max_below(h, e.version.txn_idx as int) + 1;
    let q = idx_of(h, j);
    assert(0 <= q < h.len() && h[q].version.txn_idx == j);
    if pos < h.len() && h[pos].version.txn_idx == e.version.txn_idx {
        assert(u == h.update(pos, e));
        assert(q != pos);
        assert(u[q] == h[q]);
        assert(has_entry(u, j));
        assert(idx_of(u, j) == q) by {
            let k = idx_of(u, j);
            assert(0 <= k < u.len() && u[k].version.txn_idx == j);
            if k < q {
                assert(u[k].version.txn_idx < u[q].version.txn_idx);
            } else if k > q {
                assert(u[q].version.txn_idx < u[k].version.txn_idx);
            }
        }
    } else {
        assert(u == h.insert(pos, e));
        h.insert_ensures(pos, e);
        let q2: int = if q < pos {
            q
        } else {
            q + 1
        };
        assert(u[q2] == h[q]);
        assert(has_entry(u, j));
        assert(idx_of(u, j) == q2) by {
            let k = idx_of(u, j);
            assert(0 <= k < u.len() && u[k].version.txn_idx == j);
            if k < q2 {
                assert(u[k].version.txn_idx < u[q2].version.txn_idx);
            } else if k > q2 {
                assert(u[q2].version.txn_idx < u[k].version.txn_idx);
            }
        }
    }
}

/// When nothing sits below `r`, `max_below` is -1.
pub proof fn lemma_max_below_neg(h: Seq<EntryModel>, r: int)
    requires
        !exists_below(h, r),
    ensures
        max_below(h, r) == -1,
    decreases h.len(),
{
    if h.len() > 0 {
        assert(!(h.last().version.txn_idx < r));
        assert(!exists_below(h.drop_last(), r)) by {
            if exists_below(h.drop_last(), r) {
                let i = choose|i: int|
                    0 <= i < h.drop_last().len() && (#[trigger] h.drop_last()[i]).version.txn_idx
                        < r;
                assert(h[i] == h.drop_last()[i]);
            }
        }
        lemma_max_below_neg(h.drop_last(), r);
    }
}

/// An ascending duplicate-free list of transaction indices.
pub open spec fn sorted_strict(s: Seq<TxnIndex>) -> bool {
    forall|i: int, j: int| 0 <= i < j < s.len() ==> (#[trigger] s[i]) < (#[trigger] s[j])
}

/// Inserts `x` into an ascending duplicate-free vector, keeping it so.
pub(crate) fn sorted_insert(v: &mut Vec<TxnIndex>, x: TxnIndex)
    requires
        sorted_strict(old(v)@),
    ensures
        sorted_strict(final(v)@),
        forall|j: TxnIndex| #[trigger] final(v)@.contains(j) <==> (old(v)@.contains(j) || j == x),
{
    let n = v.len();
    let mut i: usize = 0;
    while i < n && v[i] < x
        invariant
            n == v.len(),
            i <= n,
            sorted_strict(v@),
            v@ == old(v)@,
            forall|k: int| 0 <= k < i ==> (#[trigger] v@[k]) < x,
        decreases n - i,
    {
        i = i + 1;
    }
    if i < n && v[i] == x {
        proof {
            assert(v@.contains(x)) by {
                assert(v@[i as int] == x);
            }
        }
        return ;
    }
    proof {
        assert forall|k: int| i <= k < v@.len() implies (#[trigger] v@[k]) > x by {
            if i < v@.len() {
                assert(v@[i as int] != x);
                assert(v@[i as int] >= x);
                if k > i {
                    assert(v@[i as int] < v@[k]);
                }
            }
        }
    }
    let ghost oldv = v@;
    v.insert(i, x);
    proof {
        oldv.insert_ensures(i as int, x);
        assert forall|p: int, q: int| 0 <= p < q < v@.len() implies (#[trigger] v@[p]) < (
        #[trigger] v@[q]) by {
            if p > i {
                assert(v@[p] == oldv[p - 1]);
            }
            if q > i {
                assert(v@[q] == oldv[q - 1]);
            }
        }
        assert forall|j: TxnIndex| #[trigger] v@.contains(j) <==> (oldv.contains(j) || j == x) by {
            if v@.contains(j) {
                let p = choose|p: int| 0 <= p < v@.len() && v@[p] == j;
                if p < i {
                    assert(oldv[p] == j);
                    assert(oldv.contains(j));
                } else if p > i {
                    assert(oldv[p - 1] == j);
                    assert(oldv.contains(j));
                }
            }
            if oldv.contains(j) {
                let p = choose|p: int| 0 <= p < oldv.len() && oldv[p] == j;
                if p < i {
                    assert(v@[p] == j);
                } else {
                    assert(v@[p + 1] == j);
                }
                assert(v@.contains(j));
            }
            if j == x {
                assert(v@[i as int] == j);
                assert(v@.contains(j));
            }
        }
    }
}

/// `s` with every occurrence of `x` removed.
pub open spec fn remove_all(s: Seq<TxnIndex>, x: TxnIndex) -> Seq<TxnIndex>
    decreases s.len(),
{
    if s.len() == 0 {
        Seq::empty()
    } else if s.last() == x {
        remove_all(s.drop_last(), x)
    } else {
        remove_all(s.drop_last(), x).push(s.last())
    }
}

/// The history after transaction `j` is cleared: its entry removed, and `j`
/// dropped from every reader set.
pub open spec fn scrub(h: Seq<EntryModel>, j: TxnIndex) -> Seq<EntryModel>
    decreases h.len(),
{
    if h.len() == 0 {
        Seq::empty()
    } else {
        let rest = scrub(h.drop_last(), j);
        let e = h.last();
        if e.version.txn_idx == j {
            rest
        } else {
            rest.push(
                EntryModel {
                    version: e.version,
                    state: e.state,
                    readers: remove_all(e.readers, j),
                },
            )
        }
    }
}

/// A scrubbed history is still sorted, and every surviving entry keeps the
/// writer index it had before the scrub.
pub proof fn lemma_scrub_sorted(h: Seq<EntryModel>, j: TxnIndex)
    requires
        sorted_history(h),
    ensures
        sorted_history(scrub(h, j)),
        forall|p: int|
            0 <= p < scrub(h, j).len() ==> exists|q: int|
                0 <= q < h.len() && (#[trigger] scrub(h, j)[p]).version.txn_idx
                    == h[q].version.txn_idx,
    decreases h.len(),
{
    if h.len() > 0 {
        let hd = h.drop_last();
        assert(sorted_history(hd)) by {
            assert forall|i: int, q: int| 0 <= i < q < hd.len() implies (
            #[trigger] hd[i]).version.txn_idx < (#[trigger] hd[q]).version.txn_idx by {
                assert(hd[i] == h[i]);
                assert(hd[q] == h[q]);
            }
        }
        lemma_scrub_sorted(hd, j);
        if h.last().version.txn_idx == j {
            assert forall|p: int| 0 <= p < scrub(h, j).len() implies exists|q: int|
                0 <= q < h.len() && (#[trigger] scrub(h, j)[p]).version.txn_idx
                    == h[q].version.txn_idx by {
                let q = choose|q: int|
                    0 <= q < hd.len() && (#[trigger] scrub(hd, j)[p]).version.txn_idx
                        == hd[q].version.txn_idx;
                assert(hd[q] == h[q]);
            }
        } else {
            let s = scrub(h, j);
            assert forall|p: int| 0 <= p < s.len() implies exists|q: int|
                0 <= q < h.len() && (#[trigger] s[p]).version.txn_idx == h[q].version.txn_idx by {
                if p < s.len() - 1 {
                    let q = choose|q: int|
                        0 <= q < hd.len() && (#[trigger] scrub(hd, j)[p]).version.txn_idx
                            == hd[q].version.txn_idx;
                    assert(hd[q] == h[q]);
                    assert(s[p] == scrub(hd, j)[p]);
                } else {
                    assert(s[p].version.txn_idx == h[h.len() - 1].version.txn_idx);
                }
            }
            assert forall|p: int, q: int| 0 <= p < q < s.len() implies (
            #[trigger] s[p]).version.txn_idx < (#[trigger] s[q]).version.txn_idx by {
                if q < s.len() - 1 {
                    assert(s[p] == scrub(hd, j)[p]);
                    assert(s[q] == scrub(hd, j)[q]);
                } else {
                    assert(s[p] == scrub(hd, j)[p]);
                    let q0 = choose|q0: int|
                        0 <= q0 < hd.len() && (#[trigger] scrub(hd, j)[p]).version.txn_idx
                            == hd[q0].version.txn_idx;
                    assert(hd[q0] == h[q0]);
                    assert(h[q0].version.txn_idx < h[h.len() - 1].version.txn_idx);
                }
            }
        }
    }
}

/// Reader-set soundness of a single write: a write by `w` reports every
/// recorded reader above `w` whose read it supersedes. If a reader `k > w`
/// was answered from below `w` and registered itself — on the entry that was
/// authoritative for it, or in the storage-read index when it fell through
/// to the snapshot — then `k` is in the write's invalidated set: no honored
/// registration is missed.
pub proof fn lemma_write_invalidates_stale_reader(
    h: Seq<EntryModel>,
    srs: Seq<TxnIndex>,
    w: int,
    k: TxnIndex,
)
    requires
        sorted_history(h),
        k as int > w,
        ({
            if exists_below(h, k as int) {
                h[max_below(h, k as int)].version.txn_idx < w && h[max_below(
                    h,
                    k as int,
                )].readers.contains(k)
            } else {
                srs.contains(k)
            }
        }),
    ensures
        invalidation_targets(h, srs, w).contains(k),
{
    if exists_below(h, k as int) {
        lemma_max_below(h, k as int);
        let mk = max_below(h, k as int);
        assert(h[mk].version.txn_idx < w);
        assert(exists_below(h, w));
        lemma_max_below(h, w);
        let mw = max_below(h, w);
        assert(mk <= mw) by {
            assert(h[mk].version.txn_idx < w);
        }
        assert(mw <= mk) by {
            assert(h[mw].version.txn_idx < w);
            assert(w < k as int || w == k as int || w > k as int);
            assert(h[mw].version.txn_idx < k as int);
        }
        assert(mw == mk);
    } else {
        assert(!exists_below(h, w)) by {
            if exists_below(h, w) {
                let i = choose|i: int| 0 <= i < h.len() && (#[trigger] h[i]).version.txn_idx < w;
                assert(h[i].version.txn_idx < k as int);
                assert(exists_below(h, k as int));
            }
        }
    }
}

/// Builds `v` with every occurrence of `x` removed.
fn remove_value(v: &Vec<TxnIndex>, x: TxnIndex) -> (r: Vec<TxnIndex>)
    ensures
        r@ == remove_all(v@, x),
{
    let mut r: Vec<TxnIndex> = Vec::new();
    let n = v.len();
    proof {
        assert(v@.take(0) =~= Seq::<TxnIndex>::empty());
    }
    for i in 0..n
        invariant
            n == v.len(),
            r@ == remove_all(v@.take(i as int), x),
    {
        proof {
            assert(v@.take(i as int + 1).drop_last() =~= v@.take(i as int));
            assert(v@.take(i as int + 1).last() == v@[i as int]);
        }
        if v[i] != x {
            r.push(v[i]);
        }
    }
    proof {
        assert(v@.take(n as int) =~= v@);
    }
    r
}

/// Whether `v` holds `x`.
fn vec_contains(v: &Vec<TxnIndex>, x: TxnIndex) -> (r: bool)
    ensures
        r == v@.contains(x),
{
    let n = v.len();
    for i in 0..n
        invariant
            n == v.len(),
            forall|j: int| 0 <= j < i ==> v@[j] != x,
    {
        if v[i] == x {
            return true;
        }
    }
    assert(!v@.contains(x));
    false
}

/// One address's version history and storage-read index.
struct AddressHistory {
    addr: Address,
    /// Sorted by writer index, strictly increasing.
    entries: Vec<VersionedEntry>,
    /// Transactions that resolved this address from the initial snapshot.
    storage_readers: Vec<TxnIndex>,
}

impl AddressHistory {
    spec fn model(self) -> Seq<EntryModel> {
        self.entries@.map_values(|e: VersionedEntry| e.model())
    }
}

/// Multi-version store: address-keyed version histories with reader tracking.
pub struct MVHashMap {
    data: Vec<AddressHistory>,
}

impl MVHashMap {
    /// Whether any transaction has written `a` or registered a storage read
    /// of it.
    pub closed spec fn has_addr(self, a: Address) -> bool {
        exists|i: int| 0 <= i < self.data@.len() && (#[trigger] self.data@[i]).addr == a
    }

    closed spec fn addr_idx(self, a: Address) -> int {
        choose|i: int| 0 <= i < self.data@.len() && (#[trigger] self.data@[i]).addr == a
    }

    /// The version history of `a`, empty when `a` is unknown.
    pub closed spec fn history(self, a: Address) -> Seq<EntryModel> {
        if self.has_addr(a) {
            self.data@[self.addr_idx(a)].model()
        } else {
            Seq::empty()
        }
    }

    /// The storage-read index of `a`: transactions that read `a` from the
    /// initial snapshot.
    pub closed spec fn storage_readers(self, a: Address) -> Seq<TxnIndex> {
        if self.has_addr(a) {
            self.data@[self.addr_idx(a)].storage_readers@
        } else {
            Seq::empty()
        }
    }

    /// Internal shape: one history per address, each sorted by writer index.
    pub closed spec fn wf(self) -> bool {
        &&& forall|i: int, j: int|
            0 <= i < j < self.data@.len() ==> (#[trigger] self.data@[i]).addr != (
            #[trigger] self.data@[j]).addr
        &&& forall|i: int|
            0 <= i < self.data@.len() ==> sorted_history((#[trigger] self.data@[i]).model())
    }

    /// Every history of the store is sorted.
    pub proof fn lemma_wf_sorted(self, a: Address)
        requires
            self.wf(),
        ensures
            sorted_history(self.history(a)),
    {
    }

    /// Creates a new empty multi-version store.
    pub fn new() -> (r: Self)
        ensures
            r.wf(),
            forall|a: Address| !(#[trigger] r.has_addr(a)),
            forall|a: Address| #[trigger] r.history(a) == Seq::<EntryModel>::empty(),
            forall|a: Address| #[trigger] r.storage_readers(a) == Seq::<TxnIndex>::empty(),
    {
        Self { data: Vec::new() }
    }

    /// The position of `a`'s history in the store, if any.
    fn find_addr(&self, a: &Address) -> (r: Option<usize>)
        ensures
            match r {
                Some(i) => i < self.data@.len() && self.data@[i as int].addr == *a
                    && self.has_addr(*a),
                None => !self.has_addr(*a),
            },
    {
        let n = self.data.len();
        for i in 0..n
            invariant
                n == self.data.len(),
                forall|j: int| 0 <= j < i ==> (#[trigger] self.data@[j]).addr != *a,
        {
            if self.data[i].addr == *a {
                return Some(i);
            }
        }
        None
    }

    /// Replacing one address's row, without touching its address field,
    /// leaves every other address's view of the store unchanged.
    proof fn lemma_frame(pre: MVHashMap, post: MVHashMap, di: int)
        requires
            pre.wf(),
            0 <= di < pre.data@.len(),
            post.data@.len() == pre.data@.len(),
            forall|j: int| 0 <= j < pre.data@.len() && j != di ==> post.data@[j] == pre.data@[j],
            post.data@[di].addr == pre.data@[di].addr,
        ensures
            forall|b: Address| #[trigger] post.has_addr(b) == pre.has_addr(b),
            forall|b: Address|
                b != pre.data@[di].addr ==> #[trigger] post.history(b) == pre.history(b)
                    && post.storage_readers(b) == pre.storage_readers(b),
            pre.has_addr(pre.data@[di].addr),
            pre.addr_idx(pre.data@[di].addr) == di,
            post.addr_idx(pre.data@[di].addr) == di,
            post.history(pre.data@[di].addr) == post.data@[di].model(),
            post.storage_readers(pre.data@[di].addr) == post.data@[di].storage_readers@,
            forall|i: int, j: int|
                0 <= i < j < post.data@.len() ==> (#[trigger] post.data@[i]).addr != (
                #[trigger] post.data@[j]).addr,
    {
        let a = pre.data@[di].addr;
        assert(pre.has_addr(a));
        assert(pre.addr_idx(a) == di) by {
            if pre.addr_idx(a) != di {
                assert(pre.data@[pre.addr_idx(a)].addr == a);
            }
        }
        assert forall|i: int, j: int| 0 <= i < j < post.data@.len() implies (
        #[trigger] post.data@[i]).addr != (#[trigger] post.data@[j]).addr by {
            assert(post.data@[i].addr == pre.data@[i].addr);
            assert(post.data@[j].addr == pre.data@[j].addr);
        }
        assert forall|b: Address| #[trigger] post.has_addr(b) == pre.has_addr(b) by {
            if pre.has_addr(b) {
                let i = pre.addr_idx(b);
                assert(post.data@[i].addr == b);
            }
            if post.has_addr(b) {
                let i = post.addr_idx(b);
                assert(pre.data@[i].addr == b);
            }
        }
        assert(post.has_addr(a));
        assert(post.addr_idx(a) == di) by {
            if post.addr_idx(a) != di {
                assert(pre.data@[post.addr_idx(a)].addr == a);
            }
        }
        assert forall|b: Address| b != a implies #[trigger] post.history(b) == pre.history(b)
            && post.storage_readers(b) == pre.storage_readers(b) by {
            if pre.has_addr(b) {
                let i = pre.addr_idx(b);
                assert(i != di);
                assert(post.data@[i].addr == b);
                assert(post.addr_idx(b) == i) by {
                    if post.addr_idx(b) != i {
                        assert(pre.data@[post.addr_idx(b)].addr == b);
                    }
                }
            }
        }
    }

    /// Appending a row for a fresh address leaves every other address's view
    /// of the store unchanged.
    proof fn lemma_push_frame(pre: MVHashMap, post: MVHashMap, a: Address)
        requires
            pre.wf(),
            !pre.has_addr(a),
            post.data@.len() == pre.data@.len() + 1,
            forall|j: int| 0 <= j < pre.data@.len() ==> post.data@[j] == pre.data@[j],
            post.data@[pre.data@.len() as int].addr == a,
        ensures
            post.has_addr(a),
            post.addr_idx(a) == pre.data@.len(),
            forall|b: Address| b != a ==> #[trigger] post.has_addr(b) == pre.has_addr(b),
            forall|b: Address|
                b != a ==> #[trigger] post.history(b) == pre.history(b) && post.storage_readers(b)
                    == pre.storage_readers(b),
            post.history(a) == post.data@[pre.data@.len() as int].model(),
            post.storage_readers(a) == post.data@[pre.data@.len() as int].storage_readers@,
            forall|i: int, j: int|
                0 <= i < j < post.data@.len() ==> (#[trigger] post.data@[i]).addr != (
                #[trigger] post.data@[j]).addr,
    {
        let di = pre.data@.len() as int;
        assert forall|i: int, j: int| 0 <= i < j < post.data@.len() implies (
        #[trigger] post.data@[i]).addr != (#[trigger] post.data@[j]).addr by {
            if j < di {
                assert(post.data@[i] == pre.data@[i]);
                assert(post.data@[j] == pre.data@[j]);
            } else {
                assert(post.data@[i] == pre.data@[i]);
                if pre.data@[i].addr == a {
                    assert(pre.has_addr(a));
                }
            }
        }
        assert(post.has_addr(a));
        assert(post.addr_idx(a) == di) by {
            if post.addr_idx(a) != di {
                assert(post.data@[post.addr_idx(a)].addr == a);
                assert(pre.data@[post.addr_idx(a)].addr == a);
                assert(pre.has_addr(a));
            }
        }
        assert forall|b: Address| b != a implies #[trigger] post.has_addr(b) == pre.has_addr(b) by {
            if pre.has_addr(b) {
                let i = pre.addr_idx(b);
                assert(post.data@[i].addr == b);
            }
            if post.has_addr(b) {
                let i = post.addr_idx(b);
                assert(i != di);
                assert(pre.data@[i].addr == b);
            }
        }
        assert forall|b: Address| b != a implies #[trigger] post.history(b) == pre.history(b)
            && post.storage_readers(b) == pre.storage_readers(b) by {
            if pre.has_addr(b) {
                let i = pre.addr_idx(b);
                assert(post.data@[i].addr == b);
                assert(post.addr_idx(b) == i) by {
                    if post.addr_idx(b) != i {
                        let k = post.addr_idx(b);
                        assert(post.data@[k].addr == b);
                        assert(k != di);
                        assert(pre.data@[k].addr == b);
                    }
                }
            }
        }
    }

    /// Writes a new version of an account state: installs (or replaces) the
    /// entry of the writing transaction with an empty reader set, and
    /// returns, de-duplicated and sorted, the transactions this write
    /// invalidates.
    pub fn write(
        &mut self,
        address: Address,
        writer_txn_idx: TxnIndex,
        incarnation: Incarnation,
        state: AccountState,
    ) -> (r: WriteResult)
        requires
            old(self).wf(),
        ensures
            final(self).wf(),
            final(self).has_addr(address),
            forall|b: Address|
                b != address ==> #[trigger] final(self).has_addr(b) == old(self).has_addr(b),
            forall|b: Address|
                b != address ==> #[trigger] final(self).history(b) == old(self).history(b),
            forall|b: Address|
                #[trigger] final(self).storage_readers(b) == old(self).storage_readers(b),
            final(self).history(address) == upsert(
                old(self).history(address),
                EntryModel {
                    version: Version { txn_idx: writer_txn_idx, incarnation },
                    state,
                    readers: Seq::empty(),
                },
            ),
            sorted_strict(r.invalidated_readers@),
            forall|j: TxnIndex|
                #[trigger] r.invalidated_readers@.contains(j) <==> invalidation_targets(
                    old(self).history(address),
                    old(self).storage_readers(address),
                    writer_txn_idx as int,
                ).contains(j),
    {
        let ghost pre = *self;
        let ghost em = EntryModel {
            version: Version { txn_idx: writer_txn_idx, incarnation },
            state,
            readers: Seq::empty(),
        };
        let ghost w = writer_txn_idx as int;
        match self.find_addr(&address) {
            None => {
                let mut entries: Vec<VersionedEntry> = Vec::new();
                entries.push(
                    VersionedEntry {
                        version: Version::new(writer_txn_idx, incarnation),
                        state,
                        readers: Vec::new(),
                    },
                );
                self.data.push(
                    AddressHistory { addr: address, entries, storage_readers: Vec::new() },
                );
                proof {
                    Self::lemma_push_frame(pre, *self, address);
                    let di = pre.data@.len() as int;
                    assert(self.data@[di].model() =~= seq![em]);
                    assert(upsert(Seq::<EntryModel>::empty(), em) =~= seq![em]);
                    assert(pre.history(address) =~= Seq::<EntryModel>::empty());
                    assert(self.history(address) == upsert(pre.history(address), em));
                    assert(self.storage_readers(address) =~= Seq::<TxnIndex>::empty());
                    assert(pre.storage_readers(address) =~= Seq::<TxnIndex>::empty());
                    assert(!exists_below(pre.history(address), w));
                    assert forall|j: TxnIndex|
                        !(#[trigger] invalidation_targets(
                            pre.history(address),
                            pre.storage_readers(address),
                            w,
                        ).contains(j)) by {
                        assert(!pre.storage_readers(address).contains(j));
                    }
                    assert forall|i: int|
                        0 <= i < self.data@.len() implies sorted_history(
                        (#[trigger] self.data@[i]).model(),
                    ) by {
                        if i < di {
                            assert(self.data@[i] == pre.data@[i]);
                        } else {
                            assert(self.data@[i].model() =~= seq![em]);
                        }
                    }
                }
                WriteResult { invalidated_readers: Vec::new() }
            },
            Some(di) => {
                proof {
                    assert(pre.addr_idx(address) == di) by {
                        if pre.addr_idx(address) != di {
                            assert(pre.data@[pre.addr_idx(address)].addr == address);
                        }
                    }
                }
                let ghost h = pre.history(address);
                let ghost srs = pre.storage_readers(address);
                let n = self.data[di].entries.len();
                let mut pos: usize = 0;
                while pos < n && self.data[di].entries[pos].version.txn_idx < writer_txn_idx
                    invariant
                        *self == pre,
                        0 <= di < self.data@.len(),
                        self.data@[di as int].addr == address,
                        h == self.data@[di as int].model(),
                        n == self.data@[di as int].entries@.len(),
                        pos <= n,
                        forall|k: int|
                            0 <= k < pos ==> (#[trigger] h[k]).version.txn_idx < writer_txn_idx,
                    decreases n - pos,
                {
                    proof {
                        assert(h[pos as int] == self.data@[di as int].entries@[pos as int].model());
                    }
                    pos = pos + 1;
                }
                proof {
                    assert(sorted_history(h));
                    if pos < n {
                        assert(h[pos as int] == self.data@[di as int].entries@[pos as int].model());
                        assert(h[pos as int].version.txn_idx >= writer_txn_idx);
                    }
                    lemma_max_below_bounds(h, w);
                    if pos > 0 {
                        assert(h[pos as int - 1].version.txn_idx < w);
                        assert(exists_below(h, w));
                        lemma_max_below(h, w);
                        assert(max_below(h, w) >= pos - 1);
                        if max_below(h, w) > pos - 1 {
                            let m = max_below(h, w);
                            assert(h[m].version.txn_idx < w);
                            assert(h[pos as int].version.txn_idx <= h[m].version.txn_idx) by {
                                if (pos as int) < m {
                                    assert(h[pos as int].version.txn_idx < h[m].version.txn_idx);
                                }
                            }
                            assert(false);
                        }
                        assert(max_below(h, w) == pos - 1);
                    } else {
                        assert(!exists_below(h, w)) by {
                            if exists_below(h, w) {
                                let i = choose|i: int|
                                    0 <= i < h.len() && (#[trigger] h[i]).version.txn_idx < w;
                                assert(h[0].version.txn_idx <= h[i].version.txn_idx) by {
                                    if 0 < i {
                                        assert(h[0].version.txn_idx < h[i].version.txn_idx);
                                    }
                                }
                            }
                        }
                        lemma_max_below_neg(h, w);
                    }
                }
                let mut result: Vec<TxnIndex> = Vec::new();
                if pos > 0 {
                    let m = pos - 1;
                    let ghost cand = h[m as int].readers;
                    proof {
                        assert(h[m as int] == self.data@[di as int].entries@[m as int].model());
                    }
                    let cnt = self.data[di].entries[m].readers.len();
                    for k in 0..cnt
                        invariant
                            *self == pre,
                            0 <= di < self.data@.len(),
                            self.data@[di as int].addr == address,
                            h == self.data@[di as int].model(),
                            m < self.data@[di as int].entries@.len(),
                            cand == self.data@[di as int].entries@[m as int].readers@,
                            cnt == cand.len(),
                            w == writer_txn_idx as int,
                            sorted_strict(result@),
                            forall|j: TxnIndex|
                                #[trigger] result@.contains(j) <==> (exists|q: int|
                                    0 <= q < k && cand[q] == j && j as int > w),
                    {
                        let x = self.data[di].entries[m].readers[k];
                        let ghost prev_result = result@;
                        if x > writer_txn_idx {
                            sorted_insert(&mut result, x);
                        }
                        proof {
                            assert forall|j: TxnIndex|
                                #[trigger] result@.contains(j) <==> (exists|q: int|
                                    0 <= q < k + 1 && cand[q] == j && j as int > w) by {
                                if result@.contains(j) {
                                    if prev_result.contains(j) {
                                        let q = choose|q: int|
                                            0 <= q < k && cand[q] == j && j as int > w;
                                        assert(0 <= q < k + 1 && cand[q] == j && j as int > w);
                                    } else {
                                        assert(j == x && x as int > w);
                                        assert(cand[k as int] == j);
                                    }
                                }
                                if exists|q: int| 0 <= q < k + 1 && cand[q] == j && j as int > w {
                                    let q = choose|q: int|
                                        0 <= q < k + 1 && cand[q] == j && j as int > w;
                                    if q < k {
                                        assert(prev_result.contains(j));
                                    } else {
                                        assert(j == x);
                                    }
                                    assert(result@.contains(j));
                                }
                            }
                        }
                    }
                    proof {
                        assert forall|j: TxnIndex|
                            #[trigger] result@.contains(j) <==> invalidation_targets(
                                h,
                                srs,
                                w,
                            ).contains(j) by {
                            assert(exists_below(h, w));
                            assert(max_below(h, w) == m);
                            if result@.contains(j) {
                                let q = choose|q: int|
                                    0 <= q < cand.len() && cand[q] == j && j as int > w;
                                assert(cand.contains(j));
                            }
                            if invalidation_targets(h, srs, w).contains(j) {
                                assert(cand.contains(j) && j as int > w);
                                let q = choose|q: int| 0 <= q < cand.len() && cand[q] == j;
                                assert(0 <= q < cand.len() && cand[q] == j && j as int > w);
                            }
                        }
                    }
                } else {
                    let ghost cand = srs;
                    proof {
                        assert(srs == self.data@[di as int].storage_readers@);
                    }
                    let cnt = self.data[di].storage_readers.len();
                    for k in 0..cnt
                        invariant
                            *self == pre,
                            0 <= di < self.data@.len(),
                            self.data@[di as int].addr == address,
                            cand == self.data@[di as int].storage_readers@,
                            cnt == cand.len(),
                            w == writer_txn_idx as int,
                            sorted_strict(result@),
                            forall|j: TxnIndex|
                                #[trigger] result@.contains(j) <==> (exists|q: int|
                                    0 <= q < k && cand[q] == j && j as int > w),
                    {
                        let x = self.data[di].storage_readers[k];
                        let ghost prev_result = result@;
                        if x > writer_txn_idx {
                            sorted_insert(&mut result, x);
                        }
                        proof {
                            assert forall|j: TxnIndex|
                                #[trigger] result@.contains(j) <==> (exists|q: int|
                                    0 <= q < k + 1 && cand[q] == j && j as int > w) by {
                                if result@.contains(j) {
                                    if prev_result.contains(j) {
                                        let q = choose|q: int|
                                            0 <= q < k && cand[q] == j && j as int > w;
                                        assert(0 <= q < k + 1 && cand[q] == j && j as int > w);
                                    } else {
                                        assert(j == x && x as int > w);
                                        assert(cand[k as int] == j);
                                    }
                                }
                                if exists|q: int| 0 <= q < k + 1 && cand[q] == j && j as int > w {
                                    let q = choose|q: int|
                                        0 <= q < k + 1 && cand[q] == j && j as int > w;
                                    if q < k {
                                        assert(prev_result.contains(j));
                                    } else {
                                        assert(j == x);
                                    }
                                    assert(result@.contains(j));
                                }
                            }
                        }
                    }
                    proof {
                        assert forall|j: TxnIndex|
                            #[trigger] result@.contains(j) <==> invalidation_targets(
                                h,
                                srs,
                                w,
                            ).contains(j) by {
                            assert(!exists_below(h, w));
                            if result@.contains(j) {
                                let q = choose|q: int|
                                    0 <= q < cand.len() && cand[q] == j && j as int > w;
                                assert(cand.contains(j));
                            }
                            if invalidation_targets(h, srs, w).contains(j) {
                                assert(cand.contains(j) && j as int > w);
                                let q = choose|q: int| 0 <= q < cand.len() && cand[q] == j;
                                assert(0 <= q < cand.len() && cand[q] == j && j as int > w);
                            }
                        }
                    }
                }
                let replace = pos < n && self.data[di].entries[pos].version.txn_idx
                    == writer_txn_idx;
                let new_entry = VersionedEntry {
                    version: Version::new(writer_txn_idx, incarnation),
                    state,
                    readers: Vec::new(),
                };
                if replace {
                    self.data[di].entries.set(pos, new_entry);
                    proof {
                        lemma_upsert_shape(h, em);
                        assert(h[pos as int].version.txn_idx == w);
                        assert(self.data@[di as int].entries@ == pre.data@[di as int].entries@
                            .update(pos as int, new_entry));
                        assert(self.data@[di as int].model() =~= h.update(pos as int, em));
                        assert(upsert(h, em) == h.update(pos as int, em));
                    }
                } else {
                    self.data[di].entries.insert(pos, new_entry);
                    proof {
                        lemma_upsert_shape(h, em);
                        if pos < n {
                            assert(h[pos as int].version.txn_idx != w);
                        }
                        let oldents = pre.data@[di as int].entries@;
                        assert(self.data@[di as int].entries@ == oldents.insert(
                            pos as int,
                            new_entry,
                        ));
                        oldents.insert_ensures(pos as int, new_entry);
                        h.insert_ensures(pos as int, em);
                        assert(self.data@[di as int].model() =~= h.insert(pos as int, em));
                        assert(upsert(h, em) == h.insert(pos as int, em));
                    }
                }
                proof {
                    Self::lemma_frame(pre, *self, di as int);
                    lemma_upsert_sorted(h, em);
                    assert forall|i: int|
                        0 <= i < self.data@.len() implies sorted_history(
                        (#[trigger] self.data@[i]).model(),
                    ) by {
                        if i != di as int {
                            assert(self.data@[i] == pre.data@[i]);
                        } else {
                            assert(self.data@[i].model() == upsert(h, em));
                        }
                    }
                    assert(self.history(address) == upsert(h, em));
                }
                WriteResult { invalidated_readers: result }
            },
        }
    }

    /// Clears all traces of a transaction, for abort and re-execution: its
    /// entry is removed from every history, and its index from every reader
    /// set and storage-read index, so stale writes cannot shadow the results
    /// of the re-execution.
    pub fn clear_transaction(&mut self, txn_idx: TxnIndex)
        requires
            old(self).wf(),
        ensures
            final(self).wf(),
            forall|b: Address| #[trigger] final(self).has_addr(b) == old(self).has_addr(b),
            forall|b: Address|
                #[trigger] final(self).history(b) == scrub(old(self).history(b), txn_idx),
            forall|b: Address|
                #[trigger] final(self).storage_readers(b) == remove_all(
                    old(self).storage_readers(b),
                    txn_idx,
                ),
    {
        let ghost pre = *self;
        let n = self.data.len();
        for di in 0..n
            invariant
                n == self.data@.len(),
                n == pre.data@.len(),
                pre.wf(),
                forall|k: int|
                    0 <= k < di ==> (#[trigger] self.data@[k]).addr == pre.data@[k].addr
                        && self.data@[k].model() == scrub(pre.data@[k].model(), txn_idx)
                        && self.data@[k].storage_readers@ == remove_all(
                        pre.data@[k].storage_readers@,
                        txn_idx,
                    ),
                forall|k: int| di <= k < n ==> #[trigger] self.data@[k] == pre.data@[k],
        {
            let row_addr = self.data[di].addr;
            let new_srs = remove_value(&self.data[di].storage_readers, txn_idx);
            let m = self.data[di].entries.len();
            let ghost h = pre.data@[di as int].model();
            let mut new_entries: Vec<VersionedEntry> = Vec::new();
            proof {
                assert(h.take(0) =~= Seq::<EntryModel>::empty());
            }
            for ei in 0..m
                invariant
                    0 <= di < n,
                    n == self.data@.len(),
                    forall|k: int| di <= k < n ==> #[trigger] self.data@[k] == pre.data@[k],
                    m == self.data@[di as int].entries@.len(),
                    h == self.data@[di as int].model(),
                    new_entries@.map_values(|e: VersionedEntry| e.model()) == scrub(
                        h.take(ei as int),
                        txn_idx,
                    ),
            {
                proof {
                    assert(h.take(ei as int + 1).drop_last() =~= h.take(ei as int));
                    assert(h.take(ei as int + 1).last() == h[ei as int]);
                    assert(h[ei as int] == self.data@[di as int].entries@[ei as int].model());
                }
                if self.data[di].entries[ei].version.txn_idx != txn_idx {
                    let kept = VersionedEntry {
                        version: self.data[di].entries[ei].version,
                        state: self.data[di].entries[ei].state,
                        readers: remove_value(&self.data[di].entries[ei].readers, txn_idx),
                    };
                    new_entries.push(kept);
                    proof {
                        assert(new_entries@.map_values(|e: VersionedEntry| e.model()) =~= scrub(
                            h.take(ei as int + 1),
                            txn_idx,
                        ));
                    }
                } else {
                    proof {
                        assert(new_entries@.map_values(|e: VersionedEntry| e.model()) =~= scrub(
                            h.take(ei as int + 1),
                            txn_idx,
                        ));
                    }
                }
            }
            proof {
                assert(h.take(m as int) =~= h);
            }
            self.data.set(
                di,
                AddressHistory { addr: row_addr, entries: new_entries, storage_readers: new_srs },
            );
        }
        proof {
            assert forall|i: int, j: int| 0 <= i < j < self.data@.len() implies (
            #[trigger] self.data@[i]).addr != (#[trigger] self.data@[j]).addr by {
                assert(self.data@[i].addr == pre.data@[i].addr);
                assert(self.data@[j].addr == pre.data@[j].addr);
            }
            assert forall|b: Address| #[trigger] self.has_addr(b) == pre.has_addr(b) by {
                if pre.has_addr(b) {
                    let i = pre.addr_idx(b);
                    assert(self.data@[i].addr == b);
                }
                if self.has_addr(b) {
                    let i = self.addr_idx(b);
                    assert(pre.data@[i].addr == b);
                }
            }
            assert forall|b: Address| #[trigger] self.history(b) == scrub(
                pre.history(b),
                txn_idx,
            ) && self.storage_readers(b) == remove_all(pre.storage_readers(b), txn_idx) by {
                if pre.has_addr(b) {
                    let i = pre.addr_idx(b);
                    assert(self.data@[i].addr == b);
                    assert(self.addr_idx(b) == i) by {
                        if self.addr_idx(b) != i {
                            assert(self.data@[self.addr_idx(b)].addr == b);
                            assert(pre.data@[self.addr_idx(b)].addr == b);
                        }
                    }
                } else {
                    assert(scrub(Seq::<EntryModel>::empty(), txn_idx) =~= Seq::<
                        EntryModel,
                    >::empty());
                    assert(remove_all(Seq::<TxnIndex>::empty(), txn_idx) =~= Seq::<
                        TxnIndex,
                    >::empty());
                }
            }
            assert forall|i: int|
                0 <= i < self.data@.len() implies sorted_history(
                (#[trigger] self.data@[i]).model(),
            ) by {
                assert(sorted_history(pre.data@[i].model()));
                lemma_scrub_sorted(pre.data@[i].model(), txn_idx);
                assert(self.data@[i].model() == scrub(pre.data@[i].model(), txn_idx));
            }
        }
    }

    /// Gets the final state projection after the batch: for each address
    /// with any versioned entry, the state of the entry with the greatest
    /// writer index, each address once.
    pub fn get_committed_states(&self) -> (r: Vec<(Address, AccountState)>)
        requires
            self.wf(),
        ensures
            crate::state::unique_keys(r@),
            forall|i: int|
                0 <= i < r@.len() ==> self.has_addr((#[trigger] r@[i]).0) && self.history(
                    r@[i].0,
                ).len() > 0 && r@[i].1 == self.history(r@[i].0).last().state,
            forall|a: Address|
                #[trigger] self.history(a).len() > 0 ==> exists|i: int|
                    0 <= i < r@.len() && (#[trigger] r@[i]).0 == a,
    {
        let mut r: Vec<(Address, AccountState)> = Vec::new();
        let ghost mut rows: Seq<int> = Seq::empty();
        let ghost mut where_row: Map<int, int> = Map::empty();
        let n = self.data.len();
        for di in 0..n
            invariant
                n == self.data@.len(),
                self.wf(),
                rows.len() == r@.len(),
                forall|i1: int, i2: int| 0 <= i1 < i2 < rows.len() ==> rows[i1] < rows[i2],
                forall|i: int|
                    0 <= i < r@.len() ==> 0 <= #[trigger] rows[i] < di && (r@[i]).0
                        == self.data@[rows[i]].addr && self.data@[rows[i]].entries@.len() > 0 && (
                    r@[i]).1 == self.data@[rows[i]].model().last().state,
                forall|k: int|
                    0 <= k < di && (#[trigger] self.data@[k]).entries@.len() > 0 ==> {
                        &&& where_row.dom().contains(k)
                        &&& 0 <= where_row[k] < r@.len()
                        &&& (r@[where_row[k]]).0 == self.data@[k].addr
                    },
        {
            let cnt = self.data[di].entries.len();
            if cnt > 0 {
                let ghost prev = r@;
                let last_state = self.data[di].entries[cnt - 1].state;
                r.push((self.data[di].addr, last_state));
                proof {
                    where_row = where_row.insert(di as int, prev.len() as int);
                    rows = rows.push(di as int);
                    assert(self.data@[di as int].model().last()
                        == self.data@[di as int].entries@.last().model());
                }
            }
        }
        proof {
            assert forall|i: int|
                0 <= i < r@.len() implies self.has_addr((#[trigger] r@[i]).0) && self.history(
                r@[i].0,
            ).len() > 0 && r@[i].1 == self.history(r@[i].0).last().state by {
                let k = rows[i];
                let a = r@[i].0;
                assert(self.data@[k].addr == a);
                assert(self.has_addr(a));
                assert(self.addr_idx(a) == k) by {
                    if self.addr_idx(a) != k {
                        assert(self.data@[self.addr_idx(a)].addr == a);
                    }
                }
            }
            assert forall|a: Address|
                #[trigger] self.history(a).len() > 0 implies exists|i: int|
                0 <= i < r@.len() && (#[trigger] r@[i]).0 == a by {
                assert(self.has_addr(a));
                let k = self.addr_idx(a);
                assert(self.data@[k].entries@.len() > 0);
                assert(r@[where_row[k]].0 == a);
            }
            assert forall|i1: int, i2: int|
                0 <= i1 < i2 < r@.len() implies (#[trigger] r@[i1]).0 != (#[trigger] r@[i2]).0 by {
                assert(rows[i1] < rows[i2]);
                assert(self.data@[rows[i1]].addr != self.data@[rows[i2]].addr);
            }
            assert(crate::state::unique_keys(r@));
        }
        r
    }


    /// Records that `reader_txn_idx` read the entry identified by `version`,
    /// provided that entry is still current; an intervening re-execution that
    /// replaced it drops the record (the replacing write already scanned for
    /// readers to invalidate).
    pub fn record_read(&mut self, address: Address, reader_txn_idx: TxnIndex, version: Version)
        requires
            old(self).wf(),
        ensures
            final(self).wf(),
            forall|b: Address| #[trigger] final(self).has_addr(b) == old(self).has_addr(b),
            forall|b: Address|
                b != address ==> #[trigger] final(self).history(b) == old(self).history(b),
            forall|b: Address|
                #[trigger] final(self).storage_readers(b) == old(self).storage_readers(b),
            final(self).history(address) == recorded_history(
                old(self).history(address),
                reader_txn_idx,
                version,
            ),
    {
        let ghost pre = *self;
        let ghost h = old(self).history(address);
        let di = match self.find_addr(&address) {
            Some(i) => i,
            None => {
                proof {
                    assert(!has_entry(h, version.txn_idx as int));
                }
                return ;
            },
        };
        proof {
            assert(pre.addr_idx(address) == di) by {
                if pre.addr_idx(address) != di {
                    assert(pre.data@[pre.addr_idx(address)].addr == address);
                }
            }
            assert(h == pre.data@[di as int].model());
        }
        let n = self.data[di].entries.len();
        let mut ei: usize = 0;
        let mut found = false;
        while ei < n && !found
            invariant
                *self == pre,
                0 <= di < self.data@.len(),
                self.data@[di as int].addr == address,
                h == self.data@[di as int].model(),
                n == self.data@[di as int].entries@.len(),
                ei <= n,
                !found ==> forall|k: int|
                    0 <= k < ei ==> (#[trigger] h[k]).version.txn_idx != version.txn_idx,
                found ==> ei < n && h[ei as int].version.txn_idx == version.txn_idx,
            decreases n - ei + (if found { 0int } else { 1int }),
        {
            if self.data[di].entries[ei].version.txn_idx == version.txn_idx {
                found = true;
                proof {
                    assert(h[ei as int] == self.data@[di as int].entries@[ei as int].model());
                }
            } else {
                proof {
                    assert(h[ei as int] == self.data@[di as int].entries@[ei as int].model());
                }
                ei = ei + 1;
            }
        }
        if !found {
            proof {
                assert(!has_entry(h, version.txn_idx as int)) by {
                    if has_entry(h, version.txn_idx as int) {
                        let k = choose|k: int|
                            0 <= k < h.len() && (#[trigger] h[k]).version.txn_idx
                                == version.txn_idx;
                        assert(h[k].version.txn_idx != version.txn_idx);
                    }
                }
            }
            return ;
        }
        proof {
            assert(has_entry(h, version.txn_idx as int));
            assert(idx_of(h, version.txn_idx as int) == ei as int) by {
                let k = idx_of(h, version.txn_idx as int);
                assert(0 <= k < h.len() && h[k].version.txn_idx == version.txn_idx);
                assert(sorted_history(h));
                if k < ei as int {
                    assert(h[k].version.txn_idx < h[ei as int].version.txn_idx);
                } else if k > ei as int {
                    assert(h[ei as int].version.txn_idx < h[k].version.txn_idx);
                }
            }
        }
        proof {
            assert(h[ei as int] == self.data@[di as int].entries@[ei as int].model());
        }
        if self.data[di].entries[ei].version.incarnation != version.incarnation {
            return ;
        }
        let has_reader = vec_contains(&self.data[di].entries[ei].readers, reader_txn_idx);
        if has_reader {
            return ;
        }
        self.data[di].entries[ei].readers.push(reader_txn_idx);
        proof {
            assert(self.data@[di as int].entries@[ei as int].readers@ =~= h[ei as int].readers.push(
                reader_txn_idx,
            ));
            assert(self.data@[di as int].model() =~= h.update(
                ei as int,
                EntryModel {
                    version: h[ei as int].version,
                    state: h[ei as int].state,
                    readers: h[ei as int].readers.push(reader_txn_idx),
                },
            ));
            Self::lemma_frame(pre, *self, di as int);
            assert(sorted_history(self.data@[di as int].model()));
            assert forall|i: int|
                0 <= i < self.data@.len() implies sorted_history(
                (#[trigger] self.data@[i]).model(),
            ) by {
                if i != di as int {
                    assert(self.data@[i] == pre.data@[i]);
                }
            }
        }
    }

    /// Records that `reader_txn_idx` resolved `address` from the initial
    /// snapshot: a later write of a lower index must invalidate it.
    pub fn record_storage_read(&mut self, address: Address, reader_txn_idx: TxnIndex)
        requires
            old(self).wf(),
        ensures
            final(self).wf(),
            forall|b: Address|
                b != address ==> #[trigger] final(self).has_addr(b) == old(self).has_addr(b),
            forall|b: Address| #[trigger] final(self).history(b) == old(self).history(b),
            forall|b: Address|
                b != address ==> #[trigger] final(self).storage_readers(b) == old(
                    self,
                ).storage_readers(b),
            final(self).has_addr(address),
            final(self).storage_readers(address) == recorded_storage(
                old(self).storage_readers(address),
                reader_txn_idx,
            ),
    {
        let ghost pre = *self;
        match self.find_addr(&address) {
            Some(di) => {
                proof {
                    assert(pre.addr_idx(address) == di) by {
                        if pre.addr_idx(address) != di {
                            assert(pre.data@[pre.addr_idx(address)].addr == address);
                        }
                    }
                }
                let has_reader = vec_contains(&self.data[di].storage_readers, reader_txn_idx);
                if !has_reader {
                    self.data[di].storage_readers.push(reader_txn_idx);
                }
                proof {
                    Self::lemma_frame(pre, *self, di as int);
                    assert(self.data@[di as int].model() =~= pre.data@[di as int].model());
                    assert forall|i: int|
                        0 <= i < self.data@.len() implies sorted_history(
                        (#[trigger] self.data@[i]).model(),
                    ) by {
                        if i != di as int {
                            assert(self.data@[i] == pre.data@[i]);
                        } else {
                            assert(sorted_history(pre.data@[i].model()));
                        }
                    }
                    assert(final(self).history(address) == old(self).history(address));
                }
            },
            None => {
                let mut srs: Vec<TxnIndex> = Vec::new();
                srs.push(reader_txn_idx);
                self.data.push(
                    AddressHistory { addr: address, entries: Vec::new(), storage_readers: srs },
                );
                proof {
                    let di = pre.data@.len() as int;
                    assert(self.data@.len() == di + 1);
                    assert(self.data@[di].addr == address);
                    assert(self.data@[di].model() =~= Seq::<EntryModel>::empty());
                    assert forall|j: int| 0 <= j < di implies self.data@[j] == pre.data@[j] by {}
                    assert forall|i: int, j: int| 0 <= i < j < self.data@.len() implies (
                    #[trigger] self.data@[i]).addr != (#[trigger] self.data@[j]).addr by {
                        if j < di {
                            assert(self.data@[i] == pre.data@[i]);
                            assert(self.data@[j] == pre.data@[j]);
                        } else {
                            assert(self.data@[i] == pre.data@[i]);
                            assert(!pre.has_addr(address));
                            if pre.data@[i].addr == address {
                                assert(pre.has_addr(address));
                            }
                        }
                    }
                    assert(self.has_addr(address));
                    assert(self.addr_idx(address) == di) by {
                        if self.addr_idx(address) != di {
                            assert(self.data@[self.addr_idx(address)].addr == address);
                            assert(pre.data@[self.addr_idx(address)].addr == address);
                            assert(pre.has_addr(address));
                        }
                    }
                    assert forall|b: Address| b != address implies #[trigger] self.has_addr(b)
                        == pre.has_addr(b) by {
                        if pre.has_addr(b) {
                            let i = pre.addr_idx(b);
                            assert(self.data@[i].addr == b);
                        }
                        if self.has_addr(b) {
                            let i = self.addr_idx(b);
                            assert(i != di);
                            assert(pre.data@[i].addr == b);
                        }
                    }
                    assert forall|b: Address| b != address implies #[trigger] self.storage_readers(
                        b,
                    ) == pre.storage_readers(b) && self.history(b) == pre.history(b) by {
                        if pre.has_addr(b) {
                            let i = pre.addr_idx(b);
                            assert(self.data@[i].addr == b);
                            assert(self.addr_idx(b) == i) by {
                                if self.addr_idx(b) != i {
                                    let k = self.addr_idx(b);
                                    assert(self.data@[k].addr == b);
                                    assert(k != di);
                                    assert(pre.data@[k].addr == b);
                                }
                            }
                        }
                    }
                    assert(self.history(address) =~= pre.history(address));
                    assert(self.storage_readers(address) =~= pre.storage_readers(address).push(
                        reader_txn_idx,
                    ));
                    assert forall|i: int|
                        0 <= i < self.data@.len() implies sorted_history(
                        (#[trigger] self.data@[i]).model(),
                    ) by {
                        if i < di {
                            assert(self.data@[i] == pre.data@[i]);
                        }
                    }
                }
            },
        }
    }

    /// Reads the latest version of an account for the given transaction:
    /// the entry written by the greatest index strictly below
    /// `reader_txn_idx`, or `Storage` when no such entry exists. Entries at
    /// or above `reader_txn_idx` are writes of later transactions and are
    /// ignored.
    pub fn read(&self, address: Address, reader_txn_idx: TxnIndex) -> (r: ReadResult)
        requires
            self.wf(),
        ensures
            r == read_spec(self.history(address), reader_txn_idx as int),
    {
        let di = match self.find_addr(&address) {
            Some(i) => i,
            None => {
                return ReadResult::Storage;
            },
        };
        proof {
            if self.addr_idx(address) != di {
                assert(self.data@[self.addr_idx(address)].addr == address);
            }
        }
        let ghost h = self.history(address);
        let entries = &self.data[di].entries;
        let mut i = entries.len();
        proof {
            assert(h =~= entries@.map_values(|e: VersionedEntry| e.model()));
            assert(h.take(i as int) =~= h);
        }
        while i > 0
            invariant
                i <= entries.len(),
                h == self.history(address),
                h == entries@.map_values(|e: VersionedEntry| e.model()),
                read_spec(h, reader_txn_idx as int) == read_spec(
                    h.take(i as int),
                    reader_txn_idx as int,
                ),
            decreases i,
        {
            i = i - 1;
            proof {
                assert(h.take(i as int + 1).drop_last() =~= h.take(i as int));
                assert(h.take(i as int + 1).last() == h[i as int]);
                assert(h[i as int] == entries@[i as int].model());
            }
            if entries[i].version.txn_idx < reader_txn_idx {
                return ReadResult::Versioned(entries[i].version, entries[i].state);
            }
        }
        proof {
            assert(h.take(0) =~= Seq::<EntryModel>::empty());
        }
        ReadResult::Storage
    }
}

impl Default for MVHashMap {
    /// The default store is empty.
    fn default() -> (r: Self)
        ensures
            r.wf(),
            forall|a: Address| !(#[trigger] r.has_addr(a)),
            forall|a: Address| #[trigger] r.history(a) == Seq::<EntryModel>::empty(),
            forall|a: Address| #[trigger] r.storage_readers(a) == Seq::<TxnIndex>::empty(),
    {
        Self::new()
    }
}

} // verus!
