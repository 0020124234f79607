//! The guarantees of reconciliation, stated and proved over its
//! mathematical model: re-running is clean, survivors are unique, the
//! newest copy survives, ties keep the recorded file, and a cached entry
//! for an unchanged file is left alone.

use vstd::prelude::*;

use crate::errors::ReconcileError;
use crate::reconcile::{paths_unique, scan_mtimes, spec_reconcile, SpecEntry, SpecOutcome};

verus! {

/// Every scanned entry is accounted for: its digest is in the index, and
/// the entry either is the recorded survivor for that digest or is
/// scheduled for deletion.
pub open spec fn accounted(
    entries: Seq<SpecEntry>,
    index: Map<Seq<char>, Seq<char>>,
    dels: Seq<Seq<char>>,
) -> bool {
    forall|k: int|
        0 <= k < entries.len() ==> index.contains_key((#[trigger] entries[k]).digest) && (
        index[entries[k].digest] == entries[k].path || dels.contains(entries[k].path))
}

/// Every recorded survivor is one of the scanned files, with the digest it
/// is recorded under.
pub open spec fn index_consistent(
    index: Map<Seq<char>, Seq<char>>,
    entries: Seq<SpecEntry>,
) -> bool {
    forall|d: Seq<char>|
        #[trigger] index.contains_key(d) ==> exists|i: int|
            0 <= i < entries.len() && (#[trigger] entries[i]).digest == d && entries[i].path
                == index[d]
}

/// Every scanned file scheduled for deletion lost to a different surviving
/// file with the same digest and at least its modification time.
pub open spec fn deleted_tracked(
    entries: Seq<SpecEntry>,
    index: Map<Seq<char>, Seq<char>>,
    dels: Seq<Seq<char>>,
    mtimes: Map<Seq<char>, u64>,
) -> bool {
    forall|k: int|
        0 <= k < entries.len() && dels.contains((#[trigger] entries[k]).path)
            ==> index.contains_key(entries[k].digest) && index[entries[k].digest]
            != entries[k].path && mtimes[index[entries[k].digest]] >= entries[k].mtime
}

/// Every deleted path is the path of some scanned file.
pub open spec fn deletions_scanned(entries: Seq<SpecEntry>, dels: Seq<Seq<char>>) -> bool {
    forall|p: Seq<char>|
        #[trigger] dels.contains(p) ==> exists|i: int|
            0 <= i < entries.len() && (#[trigger] entries[i]).path == p
}

proof fn lemma_push_contains(s: Seq<Seq<char>>, x: Seq<char>, y: Seq<char>)
    ensures
        s.push(x).contains(y) <==> (s.contains(y) || y == x),
{
    if s.contains(y) {
        let i = choose|i: int| 0 <= i < s.len() && s[i] == y;
        assert(s.push(x)[i] == y);
    }
    if y == x {
        assert(s.push(x)[s.len() as int] == y);
    }
    if s.push(x).contains(y) && y != x {
        let i = choose|i: int| 0 <= i < s.push(x).len() && s.push(x)[i] == y;
        assert(s[i] == y);
    }
}

/// After a successful reconciliation every scanned entry is accounted for:
/// it survives as the recorded file for its digest, or it is scheduled for
/// deletion.
pub proof fn lemma_accounted(
    index0: Map<Seq<char>, Seq<char>>,
    entries: Seq<SpecEntry>,
    mtimes: Map<Seq<char>, u64>,
)
    requires
        spec_reconcile(index0, entries, mtimes) is Ok,
    ensures
        accounted(
            entries,
            spec_reconcile(index0, entries, mtimes)->Ok_0.index,
            spec_reconcile(index0, entries, mtimes)->Ok_0.deletions,
        ),
    decreases entries.len(),
{
    if entries.len() > 0 {
        let prev = spec_reconcile(index0, entries.drop_last(), mtimes);
        let o = spec_reconcile(index0, entries, mtimes)->Ok_0;
        lemma_accounted(index0, entries.drop_last(), mtimes);
        let o1 = prev->Ok_0;
        let e = entries.last();
        assert forall|k: int|
            0 <= k < entries.len() implies o.index.contains_key((#[trigger] entries[k]).digest)
            && (o.index[entries[k].digest] == entries[k].path || o.deletions.contains(
            entries[k].path,
        )) by {
            let d = entries[k].digest;
            let p = entries[k].path;
            if k < entries.len() - 1 {
                assert(entries.drop_last()[k] == entries[k]);
                if o1.deletions.contains(p) {
                    if o1.index.contains_key(e.digest) {
                        let ex = o1.index[e.digest];
                        lemma_push_contains(o1.deletions, ex, p);
                        lemma_push_contains(o1.deletions, e.path, p);
                    }
                    assert(o.deletions.contains(p));
                } else {
                    assert(o1.index[d] == p);
                    if o1.index.contains_key(e.digest) {
                        let ex = o1.index[e.digest];
                        if ex != e.path && mtimes.contains_key(ex) && e.mtime > mtimes[ex] {
                            if d == e.digest {
                                assert(p == ex);
                                assert(o.deletions[o1.deletions.len() as int] == p);
                                assert(o.deletions.contains(p));
                            } else {
                                assert(o.index[d] == p);
                            }
                        } else {
                            assert(o.index[d] == p);
                        }
                    } else {
                        assert(d != e.digest);
                        assert(o.index[d] == p);
                    }
                }
            } else {
                assert(entries[k] == e);
                if o1.index.contains_key(e.digest) {
                    let ex = o1.index[e.digest];
                    if ex != e.path && mtimes.contains_key(ex) && !(e.mtime > mtimes[ex]) {
                        assert(o.deletions[o1.deletions.len() as int] == p);
                        assert(o.deletions.contains(p));
                    } else {
                        assert(o.index[d] == p);
                    }
                } else {
                    assert(o.index[d] == p);
                }
            }
        }
    }
}

/// A scan in which every entry is already the recorded survivor for its
/// digest changes nothing and deletes nothing.
pub proof fn lemma_all_skips(
    index: Map<Seq<char>, Seq<char>>,
    entries: Seq<SpecEntry>,
    mtimes: Map<Seq<char>, u64>,
)
    requires
        forall|k: int|
            0 <= k < entries.len() ==> index.contains_key((#[trigger] entries[k]).digest)
                && index[entries[k].digest] == entries[k].path,
    ensures
        spec_reconcile(index, entries, mtimes) == Ok::<SpecOutcome, ReconcileError>(
            SpecOutcome { index, deletions: Seq::empty() },
        ),
    decreases entries.len(),
{
    if entries.len() > 0 {
        assert(forall|k: int|
            0 <= k < entries.len() - 1 ==> entries.drop_last()[k] == entries[k]);
        lemma_all_skips(index, entries.drop_last(), mtimes);
        assert(entries[entries.len() - 1] == entries.last());
    }
}

/// A successful reconciliation succeeded on every prefix of the scan.
pub proof fn lemma_prefix_ok(
    index0: Map<Seq<char>, Seq<char>>,
    entries: Seq<SpecEntry>,
    mtimes: Map<Seq<char>, u64>,
    n: int,
)
    requires
        0 <= n <= entries.len(),
        spec_reconcile(index0, entries, mtimes) is Ok,
    ensures
        spec_reconcile(index0, entries.take(n), mtimes) is Ok,
    decreases entries.len() - n,
{
    if n == entries.len() {
        assert(entries.take(n) =~= entries);
    } else {
        lemma_prefix_ok(index0, entries, mtimes, n + 1);
        assert(entries.take(n + 1).drop_last() =~= entries.take(n));
    }
}

/// A run whose starting index is consistent with the scan succeeds on every
/// prefix, keeps the index consistent, never schedules a recorded survivor,
/// and deletes only scanned paths that lost to a file at least as new.
proof fn lemma_consistent_run(
    index0: Map<Seq<char>, Seq<char>>,
    entries: Seq<SpecEntry>,
    mtimes: Map<Seq<char>, u64>,
    n: int,
)
    requires
        paths_unique(entries),
        mtimes == scan_mtimes(entries),
        index_consistent(index0, entries),
        0 <= n <= entries.len(),
    ensures
        spec_reconcile(index0, entries.take(n), mtimes) is Ok,
        ({
            let o = spec_reconcile(index0, entries.take(n), mtimes)->Ok_0;
            index_consistent(o.index, entries) && deleted_tracked(
                entries,
                o.index,
                o.deletions,
                mtimes,
            ) && deletions_scanned(entries, o.deletions)
        }),
    decreases n,
{
    if n == 0 {
        assert(entries.take(0) =~= Seq::<SpecEntry>::empty());
        let o = spec_reconcile(index0, entries.take(0), mtimes)->Ok_0;
        assert(forall|p: Seq<char>| !o.deletions.contains(p));
    } else {
        lemma_consistent_run(index0, entries, mtimes, n - 1);
        let o1 = spec_reconcile(index0, entries.take(n - 1), mtimes)->Ok_0;
        let e = entries[n - 1];
        assert(entries.take(n).drop_last() =~= entries.take(n - 1));
        assert(entries.take(n).last() == e);
        crate::reconcile::lemma_scan_mtimes_value(entries, n - 1);
        assert(mtimes.contains_key(e.path) && mtimes[e.path] == e.mtime);
        if !o1.index.contains_key(e.digest) {
            // A fresh digest: the entry becomes its survivor; nothing else
            // changes.
            let o = spec_reconcile(index0, entries.take(n), mtimes)->Ok_0;
            assert(o.index == o1.index.insert(e.digest, e.path));
            assert(o.deletions == o1.deletions);
            assert forall|d: Seq<char>| #[trigger] o.index.contains_key(d) implies exists|i: int|
                0 <= i < entries.len() && (#[trigger] entries[i]).digest == d && entries[i].path
                    == o.index[d] by {
                if d == e.digest {
                    assert(entries[n - 1].digest == d && entries[n - 1].path == o.index[d]);
                } else {
                    assert(o1.index.contains_key(d) && o.index[d] == o1.index[d]);
                }
            }
            assert forall|k: int|
                0 <= k < entries.len() && o.deletions.contains(
                    (#[trigger] entries[k]).path,
                ) implies o.index.contains_key(entries[k].digest) && o.index[entries[k].digest]
                != entries[k].path && mtimes[o.index[entries[k].digest]] >= entries[k].mtime by {
                if entries[k].digest == e.digest {
                    // The deleted entry would witness that the digest was
                    // already present.
                    assert(o1.index.contains_key(entries[k].digest));
                }
                assert(o.index[entries[k].digest] == o1.index[entries[k].digest]);
            }
        } else {
            let ex = o1.index[e.digest];
            let i_ex = choose|i: int|
                0 <= i < entries.len() && (#[trigger] entries[i]).digest == e.digest
                    && entries[i].path == ex;
            crate::reconcile::lemma_scan_mtimes_value(entries, i_ex);
            assert(mtimes.contains_key(ex) && mtimes[ex] == entries[i_ex].mtime);
            if ex == e.path {
                // The entry is the recorded survivor already: nothing
                // changes.
                let o = spec_reconcile(index0, entries.take(n), mtimes)->Ok_0;
                assert(o == o1);
            } else if e.mtime > mtimes[ex] {
                // The entry is strictly newer: it replaces the survivor,
                // which is scheduled for deletion.
                let o = spec_reconcile(index0, entries.take(n), mtimes)->Ok_0;
                assert(o.index == o1.index.insert(e.digest, e.path));
                assert(o.deletions == o1.deletions.push(ex));
                assert(!o1.deletions.contains(e.path)) by {
                    if o1.deletions.contains(e.path) {
                        let i = choose|i: int|
                            0 <= i < entries.len() && (#[trigger] entries[i]).path == e.path;
                        assert(i == n - 1);
                        assert(mtimes[o1.index[e.digest]] >= e.mtime);
                    }
                }
                assert forall|d: Seq<char>|
                    #[trigger] o.index.contains_key(d) implies exists|i: int|
                    0 <= i < entries.len() && (#[trigger] entries[i]).digest == d && entries[i].path
                        == o.index[d] by {
                    if d == e.digest {
                        assert(entries[n - 1].digest == d && entries[n - 1].path == o.index[d]);
                    } else {
                        assert(o1.index.contains_key(d) && o.index[d] == o1.index[d]);
                    }
                }
                assert forall|k: int|
                    0 <= k < entries.len() && o.deletions.contains(
                        (#[trigger] entries[k]).path,
                    ) implies o.index.contains_key(entries[k].digest) && o.index[entries[k].digest]
                    != entries[k].path && mtimes[o.index[entries[k].digest]]
                    >= entries[k].mtime by {
                    lemma_push_contains(o1.deletions, ex, entries[k].path);
                    if entries[k].path == ex {
                        assert(k == i_ex);
                        assert(o.index[e.digest] == e.path);
                        assert(mtimes[e.path] == e.mtime >= entries[k].mtime);
                    } else {
                        assert(o1.deletions.contains(entries[k].path));
                        if entries[k].digest == e.digest {
                            assert(o1.index[entries[k].digest] == ex);
                            assert(entries[k].path != e.path);
                            assert(o.index[e.digest] == e.path);
                            assert(mtimes[e.path] == e.mtime >= entries[k].mtime);
                        } else {
                            assert(o.index[entries[k].digest] == o1.index[entries[k].digest]);
                        }
                    }
                }
                assert forall|p: Seq<char>| #[trigger] o.deletions.contains(p) implies exists|i: int|
                    0 <= i < entries.len() && (#[trigger] entries[i]).path == p by {
                    lemma_push_contains(o1.deletions, ex, p);
                    if p == ex {
                        assert(entries[i_ex].path == p);
                    }
                }
            } else {
                // The entry is older or of equal time: it is scheduled for
                // deletion; the recorded survivor stays.
                let o = spec_reconcile(index0, entries.take(n), mtimes)->Ok_0;
                assert(o.index == o1.index);
                assert(o.deletions == o1.deletions.push(e.path));
                assert forall|k: int|
                    0 <= k < entries.len() && o.deletions.contains(
                        (#[trigger] entries[k]).path,
                    ) implies o.index.contains_key(entries[k].digest) && o.index[entries[k].digest]
                    != entries[k].path && mtimes[o.index[entries[k].digest]]
                    >= entries[k].mtime by {
                    lemma_push_contains(o1.deletions, e.path, entries[k].path);
                    if entries[k].path == e.path {
                        assert(k == n - 1);
                        assert(o.index[e.digest] == ex);
                        assert(mtimes[ex] >= e.mtime);
                    } else {
                        assert(o1.deletions.contains(entries[k].path));
                    }
                }
                assert forall|p: Seq<char>| #[trigger] o.deletions.contains(p) implies exists|i: int|
                    0 <= i < entries.len() && (#[trigger] entries[i]).path == p by {
                    lemma_push_contains(o1.deletions, e.path, p);
                    if p == e.path {
                        assert(entries[n - 1].path == p);
                    }
                }
            }
        }
    }
}

/// Idempotence: re-running reconciliation over the files a successful run
/// left in place — any scan made only of entries of the first scan whose
/// paths were not scheduled for deletion — changes nothing and deletes
/// nothing, whatever modification times are consulted.
pub proof fn lemma_second_run_is_clean(
    index0: Map<Seq<char>, Seq<char>>,
    entries: Seq<SpecEntry>,
    mtimes: Map<Seq<char>, u64>,
    rescan: Seq<SpecEntry>,
    mtimes2: Map<Seq<char>, u64>,
)
    requires
        spec_reconcile(index0, entries, mtimes) is Ok,
        forall|k: int|
            0 <= k < rescan.len() ==> entries.contains(#[trigger] rescan[k]) && !spec_reconcile(
                index0,
                entries,
                mtimes,
            )->Ok_0.deletions.contains(rescan[k].path),
    ensures
        spec_reconcile(
            spec_reconcile(index0, entries, mtimes)->Ok_0.index,
            rescan,
            mtimes2,
        ) == Ok::<SpecOutcome, ReconcileError>(
            SpecOutcome {
                index: spec_reconcile(index0, entries, mtimes)->Ok_0.index,
                deletions: Seq::empty(),
            },
        ),
{
    let o = spec_reconcile(index0, entries, mtimes)->Ok_0;
    lemma_accounted(index0, entries, mtimes);
    assert forall|k: int|
        0 <= k < rescan.len() implies o.index.contains_key((#[trigger] rescan[k]).digest)
        && o.index[rescan[k].digest] == rescan[k].path by {
        let i = choose|i: int| 0 <= i < entries.len() && entries[i] == rescan[k];
        assert(o.index.contains_key(entries[i].digest));
    }
    lemma_all_skips(o.index, rescan, mtimes2);
}

/// Uniqueness: a run whose starting index is consistent with the scan
/// succeeds, and afterwards every digest of the index is carried by exactly
/// one file that is not scheduled for deletion — the recorded one; every
/// other scanned file is either the sole survivor of its own digest or
/// scheduled for deletion.
pub proof fn lemma_unique_survivor(
    index0: Map<Seq<char>, Seq<char>>,
    entries: Seq<SpecEntry>,
    mtimes: Map<Seq<char>, u64>,
)
    requires
        paths_unique(entries),
        mtimes == scan_mtimes(entries),
        index_consistent(index0, entries),
    ensures
        spec_reconcile(index0, entries, mtimes) is Ok,
        ({
            let o = spec_reconcile(index0, entries, mtimes)->Ok_0;
            accounted(entries, o.index, o.deletions)
        }),
        ({
            let o = spec_reconcile(index0, entries, mtimes)->Ok_0;
            forall|d: Seq<char>|
                #[trigger] o.index.contains_key(d) ==> !o.deletions.contains(o.index[d]) && exists|
                    i: int,
                |
                    0 <= i < entries.len() && (#[trigger] entries[i]).digest == d && entries[i].path
                        == o.index[d]
        }),
        ({
            let o = spec_reconcile(index0, entries, mtimes)->Ok_0;
            forall|i: int, j: int|
                0 <= i < entries.len() && 0 <= j < entries.len() && (#[trigger] entries[i]).digest
                    == (#[trigger] entries[j]).digest && !o.deletions.contains(entries[i].path)
                    && !o.deletions.contains(entries[j].path) ==> i == j
        }),
{
    lemma_consistent_run(index0, entries, mtimes, entries.len() as int);
    assert(entries.take(entries.len() as int) =~= entries);
    lemma_accounted(index0, entries, mtimes);
    let o = spec_reconcile(index0, entries, mtimes)->Ok_0;
    assert forall|d: Seq<char>| #[trigger] o.index.contains_key(d) implies !o.deletions.contains(
        o.index[d],
    ) && exists|i: int|
        0 <= i < entries.len() && (#[trigger] entries[i]).digest == d && entries[i].path
            == o.index[d] by {
        let i = choose|i: int|
            0 <= i < entries.len() && (#[trigger] entries[i]).digest == d && entries[i].path
                == o.index[d];
        if o.deletions.contains(o.index[d]) {
            let k = choose|k: int|
                0 <= k < entries.len() && (#[trigger] entries[k]).path == o.index[d];
            assert(k == i);
            assert(o.index[entries[k].digest] != entries[k].path);
        }
    }
    assert forall|i: int, j: int|
        0 <= i < entries.len() && 0 <= j < entries.len() && (#[trigger] entries[i]).digest
            == (#[trigger] entries[j]).digest && !o.deletions.contains(entries[i].path)
            && !o.deletions.contains(entries[j].path) implies i == j by {
        assert(o.index[entries[i].digest] == entries[i].path);
        assert(o.index[entries[j].digest] == entries[j].path);
    }
}

/// Newest survives: for two files with the same content, the older one is
/// scheduled for deletion and the digest maps to the newer one's path,
/// whichever of the two the scan lists first, starting from an empty index.
pub proof fn lemma_newest_survives(
    a: SpecEntry,
    b: SpecEntry,
    entries: Seq<SpecEntry>,
    mtimes: Map<Seq<char>, u64>,
)
    requires
        a.digest == b.digest,
        a.path != b.path,
        a.mtime < b.mtime,
        entries == seq![a, b] || entries == seq![b, a],
        mtimes == scan_mtimes(entries),
    ensures
        spec_reconcile(Map::empty(), entries, mtimes) == Ok::<SpecOutcome, ReconcileError>(
            SpecOutcome {
                index: Map::<Seq<char>, Seq<char>>::empty().insert(a.digest, b.path),
                deletions: seq![a.path],
            },
        ),
{
    let empty_index = Map::<Seq<char>, Seq<char>>::empty();
    reveal_with_fuel(spec_reconcile, 3);
    reveal_with_fuel(scan_mtimes, 3);
    if entries == seq![a, b] {
        assert(entries.drop_last() =~= seq![a]);
        assert(seq![a].drop_last() =~= Seq::<SpecEntry>::empty());
        assert(entries.last() == b);
        assert(seq![a].last() == a);
        assert(mtimes == scan_mtimes(seq![a]).insert(b.path, b.mtime));
        assert(scan_mtimes(seq![a]) == scan_mtimes(Seq::<SpecEntry>::empty()).insert(
            a.path,
            a.mtime,
        ));
        assert(mtimes.contains_key(a.path) && mtimes[a.path] == a.mtime);
        let o1 = spec_reconcile(empty_index, seq![a], mtimes)->Ok_0;
        assert(o1.index == empty_index.insert(a.digest, a.path));
        assert(o1.index[b.digest] == a.path);
        assert(b.mtime > mtimes[a.path]);
        let o = spec_reconcile(empty_index, entries, mtimes)->Ok_0;
        assert(o.index =~= empty_index.insert(a.digest, b.path));
        assert(o.deletions =~= seq![a.path]);
    } else {
        assert(entries.drop_last() =~= seq![b]);
        assert(seq![b].drop_last() =~= Seq::<SpecEntry>::empty());
        assert(entries.last() == a);
        assert(seq![b].last() == b);
        assert(mtimes == scan_mtimes(seq![b]).insert(a.path, a.mtime));
        assert(scan_mtimes(seq![b]) == scan_mtimes(Seq::<SpecEntry>::empty()).insert(
            b.path,
            b.mtime,
        ));
        assert(mtimes.contains_key(b.path) && mtimes[b.path] == b.mtime);
        let o1 = spec_reconcile(empty_index, seq![b], mtimes)->Ok_0;
        assert(o1.index == empty_index.insert(b.digest, b.path));
        assert(o1.index[a.digest] == b.path);
        assert(!(a.mtime > mtimes[b.path]));
        let o = spec_reconcile(empty_index, entries, mtimes)->Ok_0;
        assert(o.index =~= empty_index.insert(a.digest, b.path));
        assert(o.deletions =~= seq![a.path]);
    }
}

/// Tie-break: for two files with the same content and the same modification
/// time, the one the scan lists first survives as the recorded file and the
/// second is scheduled for deletion, starting from an empty index.
pub proof fn lemma_tie_break_keeps_first(
    a: SpecEntry,
    b: SpecEntry,
    entries: Seq<SpecEntry>,
    mtimes: Map<Seq<char>, u64>,
)
    requires
        a.digest == b.digest,
        a.path != b.path,
        a.mtime == b.mtime,
        entries == seq![a, b],
        mtimes == scan_mtimes(entries),
    ensures
        spec_reconcile(Map::empty(), entries, mtimes) == Ok::<SpecOutcome, ReconcileError>(
            SpecOutcome {
                index: Map::<Seq<char>, Seq<char>>::empty().insert(a.digest, a.path),
                deletions: seq![b.path],
            },
        ),
{
    let empty_index = Map::<Seq<char>, Seq<char>>::empty();
    reveal_with_fuel(spec_reconcile, 3);
    reveal_with_fuel(scan_mtimes, 3);
    assert(entries.drop_last() =~= seq![a]);
    assert(seq![a].drop_last() =~= Seq::<SpecEntry>::empty());
    assert(entries.last() == b);
    assert(seq![a].last() == a);
    assert(mtimes == scan_mtimes(seq![a]).insert(b.path, b.mtime));
    assert(scan_mtimes(seq![a]) == scan_mtimes(Seq::<SpecEntry>::empty()).insert(a.path, a.mtime));
    assert(mtimes.contains_key(a.path) && mtimes[a.path] == a.mtime);
    let o1 = spec_reconcile(empty_index, seq![a], mtimes)->Ok_0;
    assert(o1.index == empty_index.insert(a.digest, a.path));
    assert(o1.index[b.digest] == a.path);
    assert(!(b.mtime > mtimes[a.path]));
    let o = spec_reconcile(empty_index, entries, mtimes)->Ok_0;
    assert(o.index == empty_index.insert(a.digest, a.path));
    assert(o.deletions =~= seq![b.path]);
}

proof fn lemma_cache_reuse_helper(
    index0: Map<Seq<char>, Seq<char>>,
    entries: Seq<SpecEntry>,
    mtimes: Map<Seq<char>, u64>,
    d: Seq<char>,
    fpath: Seq<char>,
    n: int,
)
    requires
        0 <= n <= entries.len(),
        spec_reconcile(index0, entries, mtimes) is Ok,
        index0.contains_key(d),
        index0[d] == fpath,
        forall|d2: Seq<char>| #[trigger] index0.contains_key(d2) && index0[d2] == fpath ==> d2 == d,
        forall|k: int|
            0 <= k < entries.len() && (#[trigger] entries[k]).digest == d ==> entries[k].path
                == fpath,
        forall|k: int|
            0 <= k < entries.len() && (#[trigger] entries[k]).path == fpath ==> entries[k].digest
                == d,
    ensures
        spec_reconcile(index0, entries.take(n), mtimes) is Ok,
        ({
            let o = spec_reconcile(index0, entries.take(n), mtimes)->Ok_0;
            o.index.contains_key(d) && o.index[d] == fpath && !o.deletions.contains(fpath)
                && forall|d2: Seq<char>|
                #[trigger] o.index.contains_key(d2) && o.index[d2] == fpath ==> d2 == d
        }),
    decreases n,
{
    lemma_prefix_ok(index0, entries, mtimes, n);
    if n == 0 {
        assert(entries.take(0) =~= Seq::<SpecEntry>::empty());
        let o = spec_reconcile(index0, entries.take(0), mtimes)->Ok_0;
        assert(forall|p: Seq<char>| !o.deletions.contains(p));
    } else {
        lemma_cache_reuse_helper(index0, entries, mtimes, d, fpath, n - 1);
        let o1 = spec_reconcile(index0, entries.take(n - 1), mtimes)->Ok_0;
        let e = entries[n - 1];
        assert(entries.take(n).drop_last() =~= entries.take(n - 1));
        assert(entries.take(n).last() == e);
        let o = spec_reconcile(index0, entries.take(n), mtimes)->Ok_0;
        if e.digest == d {
            // The cached file itself: it is the recorded survivor, so the
            // step changes nothing.
            assert(e.path == fpath);
            assert(o == o1);
        } else {
            assert(e.path != fpath);
            if !o1.index.contains_key(e.digest) {
                assert(o.deletions == o1.deletions);
            } else {
                let ex = o1.index[e.digest];
                assert(ex != fpath);
                if ex == e.path {
                    assert(o == o1);
                } else if mtimes.contains_key(ex) && e.mtime > mtimes[ex] {
                    lemma_push_contains(o1.deletions, ex, fpath);
                } else {
                    lemma_push_contains(o1.deletions, e.path, fpath);
                }
            }
        }
    }
}

/// Cache reuse: when the index maps digest `d` to a file that is scanned
/// unchanged (it still has digest `d`), no other scanned file has digest
/// `d`, and no other index entry claims its path, a successful run keeps
/// the entry for `d` exactly as it was and never schedules that file for
/// deletion.
pub proof fn lemma_cache_reuse(
    index0: Map<Seq<char>, Seq<char>>,
    entries: Seq<SpecEntry>,
    mtimes: Map<Seq<char>, u64>,
    d: Seq<char>,
    fpath: Seq<char>,
)
    requires
        spec_reconcile(index0, entries, mtimes) is Ok,
        index0.contains_key(d),
        index0[d] == fpath,
        forall|d2: Seq<char>| #[trigger] index0.contains_key(d2) && index0[d2] == fpath ==> d2 == d,
        forall|k: int|
            0 <= k < entries.len() && (#[trigger] entries[k]).digest == d ==> entries[k].path
                == fpath,
        forall|k: int|
            0 <= k < entries.len() && (#[trigger] entries[k]).path == fpath ==> entries[k].digest
                == d,
    ensures
        ({
            let o = spec_reconcile(index0, entries, mtimes)->Ok_0;
            o.index.contains_key(d) && o.index[d] == fpath && !o.deletions.contains(fpath)
        }),
{
    lemma_cache_reuse_helper(index0, entries, mtimes, d, fpath, entries.len() as int);
    assert(entries.take(entries.len() as int) =~= entries);
}

} // verus!
