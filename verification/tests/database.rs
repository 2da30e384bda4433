use dupsonic::database::{
    band_hash_statements, batch_statements, count_stats, delete_batches, is_current, matching_ids,
    next_batch_step, removal_set, stale_ids, BatchStep, CachedMeta, FileMeta, FileRow, ScanResult,
    StatRow, Statement,
};

fn meta(size: i64, mtime_secs: i64) -> FileMeta {
    FileMeta { size, mtime_secs }
}

fn cached(size: i64, mtime_secs: i64, length: Option<i64>) -> CachedMeta {
    CachedMeta {
        size,
        mtime_secs,
        fingerprint_length: length,
    }
}

#[test]
fn test_is_current_unchanged_file() {
    assert!(is_current(
        Some(meta(16, 1_700_000_000)),
        Some(cached(16, 1_700_000_000, Some(120))),
        120
    ));
}

#[test]
fn test_is_current_nonexistent_file() {
    assert!(!is_current(None, None, 120));
    assert!(!is_current(None, Some(cached(16, 0, Some(120))), 120));
}

#[test]
fn test_incremental_scan_detection() {
    let stored = cached(1000, 1_700_000_000, Some(120));
    // File hasn't changed
    assert!(is_current(Some(meta(1000, 1_700_000_000)), Some(stored), 120));
    // Modified
    assert!(!is_current(Some(meta(1000, 1_700_000_001)), Some(stored), 120));
    assert!(!is_current(Some(meta(1001, 1_700_000_000)), Some(stored), 120));
}

#[test]
fn another_length_is_not_current() {
    let m = Some(meta(1, 2));
    assert!(!is_current(m, Some(cached(1, 2, Some(120))), 15));
    assert!(!is_current(m, Some(cached(1, 2, None)), 120));
    assert!(!is_current(m, None, 120));
}

fn row(id: i64, path: &str, exists: bool) -> FileRow {
    FileRow {
        id,
        path: path.to_string(),
        exists,
    }
}

#[test]
fn test_clean_stale() {
    let mut rows = vec![row(7, "/tmp/audio", true)];
    // File still exists
    assert!(stale_ids(&rows).is_empty());
    // Delete the file
    rows[0].exists = false;
    assert_eq!(stale_ids(&rows), vec![7]);
}

#[test]
fn test_clean_matching() {
    let paths = [
        "/home/user/Music/Artist/album/track.flac",
        "/home/user/Music/Podcasts/episode1.mp3",
        "/home/user/Music/Podcasts/episode2.mp3",
        "/home/user/Music/Artist/single.mp3",
        "/home/user/Music/Audiobooks/chapter1.m4a",
    ];
    let mut rows: Vec<FileRow> = (0..5)
        .map(|i| row(i as i64 + 1, paths[i], false))
        .collect();

    let mut clean = |patterns: &[&str]| -> usize {
        let patterns: Vec<String> = patterns.iter().map(|p| p.to_string()).collect();
        let set = removal_set(&patterns, "/home/user").unwrap();
        let ids = matching_ids(&rows, &set);
        rows.retain(|r| !ids.contains(&r.id));
        ids.len()
    };

    // Remove Podcasts entries
    assert_eq!(clean(&["**/Podcasts/**"]), 2);
    // Remove .mp3 files
    assert_eq!(clean(&["*.mp3"]), 1); // only single.mp3 left after Podcasts removal
    // Remaining: track.flac and chapter1.m4a; remove with multiple patterns
    assert_eq!(clean(&["*.flac", "**/Audiobooks/**"]), 2);
    assert_eq!(rows.len(), 0);
}

#[test]
fn entries_are_removed_by_gitignore_rules() {
    let paths = ["/m/Podcasts/a.mp3", "/m/Podcasts/keep.mp3", "/n/a.mp3", "/n/b.flac"];
    let rows: Vec<FileRow> = (0..4).map(|i| row(i as i64, paths[i], false)).collect();
    let removed = |dir: &str, patterns: &[&str]| -> Vec<i64> {
        let patterns: Vec<String> = patterns.iter().map(|p| p.to_string()).collect();
        matching_ids(&rows, &removal_set(&patterns, dir).unwrap())
    };
    assert_eq!(removed("/m", &["Podcasts"]), vec![0, 1]);
    assert_eq!(removed("/m", &["Podcasts/"]), vec![0, 1]);
    assert_eq!(removed("/m", &["a.mp3/"]), vec![] as Vec<i64>);
    assert_eq!(removed("/m", &["*.mp3", "!keep.mp3"]), vec![0, 2]);
    assert_eq!(removed("/m", &["Podcasts/*.mp3"]), vec![0, 1]);
    assert_eq!(removed("/n", &["Podcasts/*.mp3"]), vec![] as Vec<i64>);
    assert_eq!(removed("/m", &["/n/a.mp3"]), vec![2]);
    assert_eq!(removed("/m", &["n/a.mp3"]), vec![] as Vec<i64>);
    assert_eq!(removed("/", &["n/a.mp3"]), vec![2]);
}

#[test]
fn refused_patterns_are_named() {
    let Err(message) = removal_set(&vec!["a".to_string(), "a{b".to_string()], "/m") else {
        panic!("an unclosed alternative is refused");
    };
    assert!(message.starts_with("Invalid pattern 'a{b': "), "{message}");
}

#[test]
fn deletions_come_in_batches() {
    let ids: Vec<i64> = (0..2500).collect();
    let batches = delete_batches(&ids);
    let sizes: Vec<usize> = batches.iter().map(|b| b.len()).collect();
    assert_eq!(sizes, vec![1000, 1000, 500]);
    assert_eq!(batches.concat(), ids);
    assert!(delete_batches(&vec![]).is_empty());
}

#[test]
fn a_batch_is_one_transaction() {
    assert!(batch_statements(&vec![]).is_empty());
    let results = vec![
        ScanResult::Success {
            path: "/a.flac".to_string(),
            meta: meta(5, 6),
            duration_ns: 7,
            fingerprint: vec![0x01020304],
            fingerprint_length: 120,
            band_hashes: vec![1, u64::MAX],
        },
        ScanResult::Error {
            path: "/b.mp3".to_string(),
            meta: None,
            error: "decode failed".to_string(),
        },
        ScanResult::Error {
            path: "/c.mp3".to_string(),
            meta: Some(meta(8, 9)),
            error: "failed".to_string(),
        },
    ];
    let statements = batch_statements(&results);
    assert_eq!(statements.len(), 8);
    assert!(matches!(statements[0], Statement::Begin));
    match &statements[1] {
        Statement::PutFingerprint {
            path,
            meta: m,
            duration_ns,
            bytes,
            fingerprint_length,
        } => {
            assert_eq!(path, "/a.flac");
            assert_eq!(*m, meta(5, 6));
            assert_eq!(*duration_ns, 7);
            assert_eq!(*bytes, vec![4, 3, 2, 1]);
            assert_eq!(*fingerprint_length, 120);
        }
        other => panic!("{other:?}"),
    }
    assert!(matches!(statements[2], Statement::DropBands));
    assert!(matches!(statements[3], Statement::PutBand { index: 0, hash: 1 }));
    assert!(matches!(statements[4], Statement::PutBand { index: 1, hash: -1 }));
    match &statements[5] {
        Statement::PutError { path, meta: m, error } => {
            assert_eq!(path, "/b.mp3");
            assert_eq!(*m, meta(0, 0));
            assert_eq!(error, "decode failed");
        }
        other => panic!("{other:?}"),
    }
    match &statements[6] {
        Statement::PutError { meta: m, .. } => assert_eq!(*m, meta(8, 9)),
        other => panic!("{other:?}"),
    }
    assert!(matches!(statements[7], Statement::Commit));
}

fn stat_row(fingerprinted: bool, cached: FileMeta, on_disk: Option<FileMeta>) -> StatRow {
    StatRow {
        fingerprinted,
        failed: !fingerprinted,
        cached,
        on_disk,
    }
}

#[test]
fn test_store_error() {
    let stats = count_stats(&vec![stat_row(false, meta(9, 1), Some(meta(9, 1)))]);
    assert_eq!(stats.failed, 1);
    assert_eq!(stats.fingerprinted, 0);
}

#[test]
fn test_stats() {
    let stats = count_stats(&vec![
        stat_row(true, meta(7, 1), Some(meta(7, 1))),
        stat_row(false, meta(7, 1), Some(meta(7, 1))),
    ]);
    assert_eq!(stats.total_files, 2);
    assert_eq!(stats.fingerprinted, 1);
    assert_eq!(stats.failed, 1);
}

#[test]
fn files_that_changed_or_are_gone_are_stale() {
    let stats = count_stats(&vec![
        stat_row(true, meta(7, 1), Some(meta(7, 1))),
        stat_row(true, meta(7, 1), Some(meta(8, 1))),
        stat_row(true, meta(7, 1), Some(meta(7, 2))),
        stat_row(true, meta(7, 1), None),
    ]);
    assert_eq!((stats.total_files, stats.stale), (4, 3));
    let none = count_stats(&vec![]);
    assert_eq!(
        (none.total_files, none.fingerprinted, none.failed, none.stale),
        (0, 0, 0, 0)
    );
}

#[test]
fn a_failed_statement_rolls_the_batch_back() {
    assert_eq!(next_batch_step(3, 0, false), BatchStep::Run(0));
    assert_eq!(next_batch_step(3, 2, false), BatchStep::Run(2));
    assert_eq!(next_batch_step(3, 3, false), BatchStep::Done);
    assert_eq!(next_batch_step(3, 1, true), BatchStep::RollBack);
    assert_eq!(next_batch_step(3, 3, true), BatchStep::RollBack);
    assert_eq!(next_batch_step(0, 0, false), BatchStep::Done);
}

#[test]
fn band_hashes_are_replaced_in_one_transaction() {
    let statements = band_hash_statements(&vec![5, u64::MAX]);
    assert_eq!(statements.len(), 5);
    assert!(matches!(statements[0], Statement::Begin));
    assert!(matches!(statements[1], Statement::DropBands));
    assert!(matches!(statements[2], Statement::PutBand { index: 0, hash: 5 }));
    assert!(matches!(statements[3], Statement::PutBand { index: 1, hash: -1 }));
    assert!(matches!(statements[4], Statement::Commit));
}
