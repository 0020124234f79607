use vstd::prelude::*;

use crate::algorithm::{algorithm_for_name, HashAlgorithm};
use crate::errors::ReconcileError;
use crate::hashing::{compute_digest, digest_of};
use crate::index::HashIndex;

verus! {

/// One file of the scanned directory, as the caller hands it in: its path,
/// its modification time, and its full byte content.
pub struct FileRecord {
    pub path: String,
    pub mtime: u64,
    pub content: Vec<u8>,
}

/// The mathematical shadow of a `FileRecord`.
pub ghost struct SpecFile {
    pub path: Seq<char>,
    pub mtime: u64,
    pub content: Seq<u8>,
}

impl View for FileRecord {
    type V = SpecFile;

    open spec fn view(&self) -> SpecFile {
        SpecFile { path: self.path@, mtime: self.mtime, content: self.content@ }
    }
}

/// One file as the reconciliation loop sees it: its content digest, its
/// path, and its modification time.
pub struct ScanEntry {
    pub digest: String,
    pub path: String,
    pub mtime: u64,
}

/// The mathematical shadow of a `ScanEntry`.
pub ghost struct SpecEntry {
    pub digest: Seq<char>,
    pub path: Seq<char>,
    pub mtime: u64,
}

impl View for ScanEntry {
    type V = SpecEntry;

    open spec fn view(&self) -> SpecEntry {
        SpecEntry { digest: self.digest@, path: self.path@, mtime: self.mtime }
    }
}

pub open spec fn file_views(s: Seq<FileRecord>) -> Seq<SpecFile> {
    s.map_values(|f: FileRecord| f@)
}

pub open spec fn entry_views(s: Seq<ScanEntry>) -> Seq<SpecEntry> {
    s.map_values(|e: ScanEntry| e@)
}

pub open spec fn path_views(s: Seq<String>) -> Seq<Seq<char>> {
    s.map_values(|p: String| p@)
}

/// No path occurs twice among the scanned entries: a directory lists each
/// file once.
pub open spec fn paths_unique(entries: Seq<SpecEntry>) -> bool {
    forall|i: int, j: int| 0 <= i < j < entries.len() ==> entries[i].path != entries[j].path
}

/// No path occurs twice among the scanned files.
pub open spec fn file_paths_unique(files: Seq<SpecFile>) -> bool {
    forall|i: int, j: int| 0 <= i < j < files.len() ==> files[i].path != files[j].path
}

/// The modification time of each scanned path.
pub open spec fn scan_mtimes(entries: Seq<SpecEntry>) -> Map<Seq<char>, u64>
    decreases entries.len(),
{
    if entries.len() == 0 {
        Map::empty()
    } else {
        scan_mtimes(entries.drop_last()).insert(entries.last().path, entries.last().mtime)
    }
}

pub proof fn lemma_scan_mtimes_membership(entries: Seq<SpecEntry>, p: Seq<char>)
    ensures
        scan_mtimes(entries).contains_key(p) <==> exists|i: int|
            0 <= i < entries.len() && entries[i].path == p,
    decreases entries.len(),
{
    if entries.len() > 0 {
        lemma_scan_mtimes_membership(entries.drop_last(), p);
        if scan_mtimes(entries).contains_key(p) {
            if entries.last().path != p {
                let i = choose|i: int|
                    0 <= i < entries.drop_last().len() && entries.drop_last()[i].path == p;
                assert(entries[i].path == p);
            }
        } else {
            assert(forall|i: int|
                0 <= i < entries.len() - 1 ==> entries.drop_last()[i] == entries[i]);
        }
    }
}

pub proof fn lemma_scan_mtimes_value(entries: Seq<SpecEntry>, i: int)
    requires
        paths_unique(entries),
        0 <= i < entries.len(),
    ensures
        scan_mtimes(entries).contains_key(entries[i].path),
        scan_mtimes(entries)[entries[i].path] == entries[i].mtime,
    decreases entries.len(),
{
    if entries.len() > 0 {
        assert(forall|j: int| 0 <= j < entries.len() - 1 ==> entries.drop_last()[j] == entries[j]);
        if i < entries.len() - 1 {
            lemma_scan_mtimes_value(entries.drop_last(), i);
        }
    }
}

/// The updated index and the deletions so far, as one reconciliation state.
pub ghost struct SpecOutcome {
    pub index: Map<Seq<char>, Seq<char>>,
    pub deletions: Seq<Seq<char>>,
}

/// What one scanned entry does to the index and the deletion set.
///
/// A digest never seen makes the entry the canonical survivor. A digest
/// already mapped to this very path is the prior survivor, unchanged. A
/// digest mapped to another path is a collision: the strictly newer file
/// survives, the other is scheduled for deletion, and an equal timestamp
/// keeps the recorded survivor. A recorded path that is not among the
/// scanned files has no consultable modification time and is fatal.
pub open spec fn spec_step(
    index: Map<Seq<char>, Seq<char>>,
    deletions: Seq<Seq<char>>,
    e: SpecEntry,
    mtimes: Map<Seq<char>, u64>,
) -> Result<SpecOutcome, ReconcileError> {
    if !index.contains_key(e.digest) {
        Ok(SpecOutcome { index: index.insert(e.digest, e.path), deletions })
    } else {
        let existing = index[e.digest];
        if existing == e.path {
            Ok(SpecOutcome { index, deletions })
        } else if !mtimes.contains_key(existing) {
            Err(ReconcileError::MissingIndexedFile)
        } else if e.mtime > mtimes[existing] {
            Ok(
                SpecOutcome {
                    index: index.insert(e.digest, e.path),
                    deletions: deletions.push(existing),
                },
            )
        } else {
            Ok(SpecOutcome { index, deletions: deletions.push(e.path) })
        }
    }
}

/// Reconciliation of a whole scan, entry by entry, in scan order.
pub open spec fn spec_reconcile(
    index: Map<Seq<char>, Seq<char>>,
    entries: Seq<SpecEntry>,
    mtimes: Map<Seq<char>, u64>,
) -> Result<SpecOutcome, ReconcileError>
    decreases entries.len(),
{
    if entries.len() == 0 {
        Ok(SpecOutcome { index, deletions: Seq::empty() })
    } else {
        match spec_reconcile(index, entries.drop_last(), mtimes) {
            Ok(o) => spec_step(o.index, o.deletions, entries.last(), mtimes),
            Err(e) => Err(e),
        }
    }
}

/// Reconciliation of `entries` against `index0` succeeds with final index
/// `index1` and deletion list `dels`.
pub open spec fn reconcile_ok(
    index0: Map<Seq<char>, Seq<char>>,
    entries: Seq<SpecEntry>,
    mtimes: Map<Seq<char>, u64>,
    index1: Map<Seq<char>, Seq<char>>,
    dels: Seq<Seq<char>>,
) -> bool {
    spec_reconcile(index0, entries, mtimes) == Ok::<SpecOutcome, ReconcileError>(
        SpecOutcome { index: index1, deletions: dels },
    )
}

/// An error in some prefix of the scan is the result of the whole scan.
pub proof fn lemma_error_persists(
    index0: Map<Seq<char>, Seq<char>>,
    entries: Seq<SpecEntry>,
    mtimes: Map<Seq<char>, u64>,
    n: int,
    e: ReconcileError,
)
    requires
        0 <= n <= entries.len(),
        spec_reconcile(index0, entries.take(n), mtimes) == Err::<SpecOutcome, ReconcileError>(e),
    ensures
        spec_reconcile(index0, entries, mtimes) == Err::<SpecOutcome, ReconcileError>(e),
    decreases entries.len() - n,
{
    if n < entries.len() {
        assert(entries.take(n + 1).drop_last() =~= entries.take(n));
        lemma_error_persists(index0, entries, mtimes, n + 1, e);
    } else {
        assert(entries.take(n) =~= entries);
    }
}

/// The modification time recorded for `path` in the scan, if `path` was
/// scanned.
fn find_mtime(entries: &Vec<ScanEntry>, path: &String) -> (r: Option<u64>)
    requires
        paths_unique(entry_views(entries@)),
    ensures
        (match r {
            Some(m) => scan_mtimes(entry_views(entries@)).contains_key(path@) && m == scan_mtimes(
                entry_views(entries@),
            )[path@],
            None => !scan_mtimes(entry_views(entries@)).contains_key(path@),
        }),
{
    let n = entries.len();
    let mut i: usize = 0;
    while i < n
        invariant
            paths_unique(entry_views(entries@)),
            n == entries@.len(),
            i <= n,
            forall|a: int| 0 <= a < i ==> entry_views(entries@)[a].path != path@,
        decreases n - i,
    {
        if entries[i].path == *path {
            proof {
                lemma_scan_mtimes_value(entry_views(entries@), i as int);
            }
            return Some(entries[i].mtime);
        }
        i = i + 1;
    }
    proof {
        lemma_scan_mtimes_membership(entry_views(entries@), path@);
    }
    None
}

/// Runs the reconciliation loop over the scanned entries, updating the index
/// in place and returning the paths scheduled for deletion, in the order
/// they were decided.
pub fn reconcile(index: &mut HashIndex, entries: &Vec<ScanEntry>) -> (r: Result<
    Vec<String>,
    ReconcileError,
>)
    requires
        old(index).wf(),
        paths_unique(entry_views(entries@)),
    ensures
        final(index).wf(),
        (match r {
            Ok(dels) => reconcile_ok(
                old(index)@,
                entry_views(entries@),
                scan_mtimes(entry_views(entries@)),
                final(index)@,
                path_views(dels@),
            ),
            Err(e) => spec_reconcile(
                old(index)@,
                entry_views(entries@),
                scan_mtimes(entry_views(entries@)),
            ) == Err::<SpecOutcome, ReconcileError>(e),
        }),
{
    let ghost all = entry_views(entries@);
    let ghost mtimes = scan_mtimes(all);
    let mut deletions: Vec<String> = Vec::new();
    proof {
        assert(all.take(0) =~= Seq::<SpecEntry>::empty());
        assert(path_views(deletions@) =~= Seq::<Seq<char>>::empty());
    }
    let n = entries.len();
    let mut i: usize = 0;
    while i < n
        invariant
            index.wf(),
            paths_unique(all),
            all == entry_views(entries@),
            mtimes == scan_mtimes(all),
            n == entries@.len(),
            i <= n,
            reconcile_ok(old(index)@, all.take(i as int), mtimes, index@, path_views(deletions@)),
        decreases n - i,
    {
        let e = &entries[i];
        let ghost pre_index = index@;
        let ghost pre_dels = path_views(deletions@);
        proof {
            assert(all.take(i + 1).drop_last() =~= all.take(i as int));
            assert(all.take(i + 1).last() == e@);
        }
        let existing_opt: Option<String> = match index.get(&e.digest) {
            Some(p) => Some(p.clone()),
            None => None,
        };
        match existing_opt {
            None => {
                index.set(e.digest.clone(), e.path.clone());
                proof {
                    assert(path_views(deletions@) =~= pre_dels);
                }
            },
            Some(existing) => {
                if existing == e.path {
                    proof {
                        assert(path_views(deletions@) =~= pre_dels);
                    }
                } else {
                    match find_mtime(entries, &existing) {
                        None => {
                            proof {
                                assert(spec_reconcile(old(index)@, all.take(i + 1), mtimes)
                                    == Err::<SpecOutcome, ReconcileError>(
                                    ReconcileError::MissingIndexedFile,
                                ));
                                lemma_error_persists(
                                    old(index)@,
                                    all,
                                    mtimes,
                                    i + 1,
                                    ReconcileError::MissingIndexedFile,
                                );
                            }
                            return Err(ReconcileError::MissingIndexedFile);
                        },
                        Some(existing_mtime) => {
                            if e.mtime > existing_mtime {
                                deletions.push(existing);
                                index.set(e.digest.clone(), e.path.clone());
                                proof {
                                    assert(path_views(deletions@) =~= pre_dels.push(
                                        pre_index[e@.digest],
                                    ));
                                }
                            } else {
                                deletions.push(e.path.clone());
                                proof {
                                    assert(path_views(deletions@) =~= pre_dels.push(e@.path));
                                }
                            }
                        },
                    }
                }
            },
        }
        i = i + 1;
    }
    proof {
        assert(all.take(n as int) =~= all);
    }
    Ok(deletions)
}

/// The scan the reconciler works through: every scanned file except the
/// reserved index file itself, each with the digest its content has under
/// the selected algorithm, in scan order.
pub open spec fn scan_of(alg: HashAlgorithm, index_path: Seq<char>, files: Seq<SpecFile>) -> Seq<
    SpecEntry,
>
    decreases files.len(),
{
    if files.len() == 0 {
        Seq::empty()
    } else {
        let rest = scan_of(alg, index_path, files.drop_last());
        let f = files.last();
        if f.path == index_path {
            rest
        } else {
            rest.push(SpecEntry { digest: digest_of(alg, f.content), path: f.path, mtime: f.mtime })
        }
    }
}

/// Some scanned file has the given path.
pub open spec fn path_among(files: Seq<SpecFile>, p: Seq<char>) -> bool {
    exists|i: int| 0 <= i < files.len() && files[i].path == p
}

/// Every scan path is one of the file paths; distinct file paths give
/// distinct scan paths.
pub proof fn lemma_scan_of_wf(alg: HashAlgorithm, index_path: Seq<char>, files: Seq<SpecFile>)
    requires
        file_paths_unique(files),
    ensures
        paths_unique(scan_of(alg, index_path, files)),
        forall|j: int| 0 <= j < scan_of(alg, index_path, files).len() ==> #[trigger] path_among(
            files,
            scan_of(alg, index_path, files)[j].path,
        ),
    decreases files.len(),
{
    if files.len() > 0 {
        let scan = scan_of(alg, index_path, files);
        let rest = scan_of(alg, index_path, files.drop_last());
        assert(forall|i: int| 0 <= i < files.len() - 1 ==> files.drop_last()[i] == files[i]);
        lemma_scan_of_wf(alg, index_path, files.drop_last());
        assert forall|j: int| 0 <= j < scan.len() implies #[trigger] path_among(
            files,
            scan[j].path,
        ) by {
            if j < rest.len() {
                assert(path_among(files.drop_last(), rest[j].path));
                let i = choose|i: int|
                    0 <= i < files.drop_last().len() && files.drop_last()[i].path == rest[j].path;
                assert(files[i].path == scan[j].path);
            } else {
                assert(scan[j].path == files[files.len() - 1].path);
            }
        }
        assert forall|a: int, b: int| 0 <= a < b < scan.len() implies scan[a].path
            != scan[b].path by {
            if b == scan.len() - 1 && files.last().path != index_path {
                assert(path_among(files.drop_last(), rest[a].path));
                let i = choose|i: int|
                    0 <= i < files.drop_last().len() && files.drop_last()[i].path == rest[a].path;
                assert(files[i].path != files[files.len() - 1].path);
            }
        }
    }
}

/// What one successful run leaves behind: the updated index to persist and
/// the files to delete.
pub struct RunOutcome {
    pub index: HashIndex,
    pub deletions: Vec<String>,
}

/// One whole reconciliation run on plain values.
///
/// Rejects an unrecognized algorithm name before looking at any file
/// content. Otherwise it digests every scanned file except the reserved
/// index file, reconciles the scan against the loaded index, and returns
/// the updated index with the deletion list, exactly as `spec_reconcile`
/// describes; any error of that reconciliation is returned unchanged.
pub fn run(
    algorithm_name: &str,
    index_file_name: &str,
    files: &Vec<FileRecord>,
    index: HashIndex,
) -> (r: Result<RunOutcome, ReconcileError>)
    requires
        index.wf(),
        file_paths_unique(file_views(files@)),
    ensures
        (match algorithm_for_name(algorithm_name@) {
            None => r is Err && r->Err_0 == ReconcileError::UnknownAlgorithm,
            Some(alg) => {
                let scan = scan_of(alg, index_file_name@, file_views(files@));
                match r {
                    Ok(out) => out.index.wf() && reconcile_ok(
                        index@,
                        scan,
                        scan_mtimes(scan),
                        out.index@,
                        path_views(out.deletions@),
                    ),
                    Err(e) => spec_reconcile(index@, scan, scan_mtimes(scan))
                        == Err::<SpecOutcome, ReconcileError>(e),
                }
            },
        }),
{
    let alg = match HashAlgorithm::from_name(algorithm_name) {
        Ok(alg) => alg,
        Err(e) => {
            return Err(e);
        },
    };
    let index_name = index_file_name.to_owned();
    let mut scan: Vec<ScanEntry> = Vec::new();
    let n = files.len();
    let mut i: usize = 0;
    while i < n
        invariant
            n == files@.len(),
            i <= n,
            index_name@ == index_file_name@,
            entry_views(scan@) == scan_of(alg, index_file_name@, file_views(files@).take(i as int)),
        decreases n - i,
    {
        let f = &files[i];
        proof {
            assert(file_views(files@).take(i + 1).drop_last() =~= file_views(files@).take(i as int));
            assert(file_views(files@).take(i + 1).last() == f@);
        }
        if !(f.path == index_name) {
            let digest = compute_digest(&alg, f.content.as_slice());
            scan.push(ScanEntry { digest, path: f.path.clone(), mtime: f.mtime });
            proof {
                assert(entry_views(scan@) =~= scan_of(
                    alg,
                    index_file_name@,
                    file_views(files@).take(i + 1),
                ));
            }
        }
        i = i + 1;
    }
    proof {
        assert(file_views(files@).take(n as int) =~= file_views(files@));
        lemma_scan_of_wf(alg, index_file_name@, file_views(files@));
    }
    let mut ix = index;
    match reconcile(&mut ix, &scan) {
        Ok(dels) => Ok(RunOutcome { index: ix, deletions: dels }),
        Err(e) => Err(e),
    }
}

} // verus!
