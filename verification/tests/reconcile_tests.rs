use hash_dedup::algorithm::HashAlgorithm;
use hash_dedup::errors::ReconcileError;
use hash_dedup::hashing::compute_digest;
use hash_dedup::index::HashIndex;
use hash_dedup::reconcile::{reconcile, run, FileRecord, ScanEntry};

fn file(path: &str, mtime: u64, content: &[u8]) -> FileRecord {
    FileRecord {
        path: path.to_string(),
        mtime,
        content: content.to_vec(),
    }
}

#[test]
fn empty_index_operations() {
    let mut ix = HashIndex::new();
    assert_eq!(ix.len(), 0);
    assert_eq!(ix.get(&"d1".to_string()), None);
    ix.set("d1".to_string(), "a.txt".to_string());
    assert_eq!(ix.len(), 1);
    assert_eq!(ix.get(&"d1".to_string()), Some(&"a.txt".to_string()));
    ix.set("d1".to_string(), "b.txt".to_string());
    assert_eq!(ix.len(), 1);
    assert_eq!(ix.get(&"d1".to_string()), Some(&"b.txt".to_string()));
    ix.set("d2".to_string(), "c.txt".to_string());
    assert_eq!(ix.len(), 2);
    assert_eq!(ix.get(&"d2".to_string()), Some(&"c.txt".to_string()));
}

#[test]
fn index_from_pairs_round_trip() {
    let pairs = vec![
        ("d1".to_string(), "a.txt".to_string()),
        ("d2".to_string(), "b.txt".to_string()),
    ];
    let ix = HashIndex::from_pairs(pairs.clone()).unwrap();
    assert_eq!(ix.len(), 2);
    assert_eq!(ix.pairs(), &pairs);
}

#[test]
fn index_from_pairs_rejects_duplicate_digest() {
    let pairs = vec![
        ("d1".to_string(), "a.txt".to_string()),
        ("d1".to_string(), "b.txt".to_string()),
    ];
    assert!(matches!(
        HashIndex::from_pairs(pairs),
        Err(ReconcileError::DuplicateDigest)
    ));
}

#[test]
fn newer_duplicate_replaces_older() {
    // Two files with content "X": the older one goes, whichever is scanned
    // first.
    let files = vec![file("a.txt", 1, b"X"), file("b.txt", 2, b"X")];
    let out = run("MD5", "results.json", &files, HashIndex::new()).unwrap();
    assert_eq!(out.deletions, vec!["a.txt".to_string()]);
    let d = compute_digest(&HashAlgorithm::Md5, b"X");
    assert_eq!(d.len(), 32);
    assert_eq!(out.index.len(), 1);
    assert_eq!(out.index.get(&d), Some(&"b.txt".to_string()));
}

#[test]
fn newer_duplicate_scanned_first_still_survives() {
    let files = vec![file("b.txt", 2, b"X"), file("a.txt", 1, b"X")];
    let out = run("MD5", "results.json", &files, HashIndex::new()).unwrap();
    assert_eq!(out.deletions, vec!["a.txt".to_string()]);
    let d = compute_digest(&HashAlgorithm::Md5, b"X");
    assert_eq!(out.index.get(&d), Some(&"b.txt".to_string()));
}

#[test]
fn distinct_contents_are_both_kept() {
    let files = vec![file("a.txt", 1, b"X"), file("c.txt", 2, b"Y")];
    let out = run("SHA256", "results.json", &files, HashIndex::new()).unwrap();
    assert!(out.deletions.is_empty());
    assert_eq!(out.index.len(), 2);
    let dx = compute_digest(&HashAlgorithm::Sha256, b"X");
    let dy = compute_digest(&HashAlgorithm::Sha256, b"Y");
    assert_eq!(out.index.get(&dx), Some(&"a.txt".to_string()));
    assert_eq!(out.index.get(&dy), Some(&"c.txt".to_string()));
}

#[test]
fn invalid_algorithm_stops_the_run() {
    let files = vec![file("a.txt", 1, b"X")];
    assert!(matches!(
        run("SHA3", "results.json", &files, HashIndex::new()),
        Err(ReconcileError::UnknownAlgorithm)
    ));
}

#[test]
fn equal_timestamps_keep_the_first_scanned() {
    let files = vec![file("a.txt", 7, b"X"), file("b.txt", 7, b"X")];
    let out = run("MD5", "results.json", &files, HashIndex::new()).unwrap();
    assert_eq!(out.deletions, vec!["b.txt".to_string()]);
    let d = compute_digest(&HashAlgorithm::Md5, b"X");
    assert_eq!(out.index.get(&d), Some(&"a.txt".to_string()));
}

#[test]
fn cached_entry_for_unchanged_file_is_kept() {
    let d = compute_digest(&HashAlgorithm::Md5, b"X");
    let ix = HashIndex::from_pairs(vec![(d.clone(), "a.txt".to_string())]).unwrap();
    let files = vec![file("a.txt", 5, b"X")];
    let out = run("MD5", "results.json", &files, ix).unwrap();
    assert!(out.deletions.is_empty());
    assert_eq!(out.index.len(), 1);
    assert_eq!(out.index.get(&d), Some(&"a.txt".to_string()));
}

#[test]
fn stale_index_entry_is_fatal() {
    // The index remembers a file that is no longer in the directory, while a
    // scanned duplicate needs its modification time.
    let d = compute_digest(&HashAlgorithm::Md5, b"X");
    let ix = HashIndex::from_pairs(vec![(d, "gone.txt".to_string())]).unwrap();
    let files = vec![file("a.txt", 5, b"X")];
    assert!(matches!(
        run("MD5", "results.json", &files, ix),
        Err(ReconcileError::MissingIndexedFile)
    ));
}

#[test]
fn second_run_changes_nothing() {
    let files = vec![
        file("a.txt", 1, b"X"),
        file("b.txt", 2, b"X"),
        file("c.txt", 3, b"Y"),
    ];
    let first = run("SHA1", "results.json", &files, HashIndex::new()).unwrap();
    assert_eq!(first.deletions, vec!["a.txt".to_string()]);
    let survivors: Vec<FileRecord> = files
        .into_iter()
        .filter(|f| !first.deletions.contains(&f.path))
        .collect();
    let first_pairs = first.index.pairs().clone();
    let second = run("SHA1", "results.json", &survivors, first.index).unwrap();
    assert!(second.deletions.is_empty());
    assert_eq!(second.index.pairs(), &first_pairs);
}

#[test]
fn index_file_is_not_scanned() {
    // The persisted index file lives in the directory and duplicates a data
    // file's content; it must not be hashed or deleted.
    let files = vec![file("results.json", 9, b"X"), file("a.txt", 1, b"X")];
    let out = run("MD5", "results.json", &files, HashIndex::new()).unwrap();
    assert!(out.deletions.is_empty());
    assert_eq!(out.index.len(), 1);
    let d = compute_digest(&HashAlgorithm::Md5, b"X");
    assert_eq!(out.index.get(&d), Some(&"a.txt".to_string()));
}

#[test]
fn reconcile_on_prepared_scan_entries() {
    let mut ix = HashIndex::new();
    let entries = vec![
        ScanEntry {
            digest: "d1".to_string(),
            path: "a.txt".to_string(),
            mtime: 1,
        },
        ScanEntry {
            digest: "d1".to_string(),
            path: "b.txt".to_string(),
            mtime: 2,
        },
        ScanEntry {
            digest: "d2".to_string(),
            path: "c.txt".to_string(),
            mtime: 1,
        },
    ];
    let dels = reconcile(&mut ix, &entries).unwrap();
    assert_eq!(dels, vec!["a.txt".to_string()]);
    assert_eq!(ix.get(&"d1".to_string()), Some(&"b.txt".to_string()));
    assert_eq!(ix.get(&"d2".to_string()), Some(&"c.txt".to_string()));
}

#[test]
fn empty_directory_changes_nothing() {
    let d = compute_digest(&HashAlgorithm::Md5, b"X");
    let ix = HashIndex::from_pairs(vec![(d.clone(), "a.txt".to_string())]).unwrap();
    let out = run("MD5", "results.json", &Vec::new(), ix).unwrap();
    assert!(out.deletions.is_empty());
    assert_eq!(out.index.len(), 1);
    assert_eq!(out.index.get(&d), Some(&"a.txt".to_string()));
}

#[test]
fn empty_files_are_duplicates_of_each_other() {
    let files = vec![file("a.txt", 2, b""), file("b.txt", 1, b"")];
    let out = run("SHA1", "results.json", &files, HashIndex::new()).unwrap();
    assert_eq!(out.deletions, vec!["b.txt".to_string()]);
    let d = compute_digest(&HashAlgorithm::Sha1, b"");
    assert_eq!(out.index.get(&d), Some(&"a.txt".to_string()));
}

#[test]
fn three_copies_leave_only_the_newest() {
    let files = vec![
        file("a.txt", 1, b"X"),
        file("b.txt", 3, b"X"),
        file("c.txt", 2, b"X"),
    ];
    let out = run("SHA256", "results.json", &files, HashIndex::new()).unwrap();
    assert_eq!(
        out.deletions,
        vec!["a.txt".to_string(), "c.txt".to_string()]
    );
    let d = compute_digest(&HashAlgorithm::Sha256, b"X");
    assert_eq!(out.index.len(), 1);
    assert_eq!(out.index.get(&d), Some(&"b.txt".to_string()));
}
