use dupsonic::database::{CachedMeta, FileMeta, ScanResult};
use dupsonic::fingerprint::FingerprintResult;
use dupsonic::matcher::compute_band_hashes;
use dupsonic::scanner::{
    all_rules, build_ignore_set, files_to_process, finished_line, ignore_files, ignore_patterns,
    is_audio_file, needs_processing, scan_result, select_audio_files, start_line,
    supported_formats, Batcher, FileState, FoundFile, IgnoreFile, BATCH_SIZE,
};

fn strings(list: &[&str]) -> Vec<String> {
    list.iter().map(|s| s.to_string()).collect()
}

fn ignore_file(base: &str, content: &str) -> IgnoreFile {
    IgnoreFile {
        base: base.to_string(),
        content: content.to_string(),
    }
}

fn found(root: &str, paths: &[&str]) -> Vec<FoundFile> {
    paths
        .iter()
        .map(|p| FoundFile {
            path: p.to_string(),
            root: root.to_string(),
        })
        .collect()
}

#[test]
fn audio_files_are_told_by_extension() {
    for ext in supported_formats().split(", ") {
        assert!(is_audio_file(&format!("/m/a.{ext}")), "{ext}");
        assert!(is_audio_file(&format!("/m/a.{}", ext.to_uppercase())), "{ext}");
    }
    assert_eq!(supported_formats().split(", ").count(), 17);
    assert!(!is_audio_file("/m/a.txt"));
    assert!(!is_audio_file("/m/mp3"));
    assert!(!is_audio_file("/m/.mp3"));
}

#[test]
fn ignore_files_hold_a_pattern_per_line() {
    let content = "# .dupsonic-ignore\n*.m4p\r\n\n  **/Podcasts/**  \n#*.mp3";
    assert_eq!(ignore_patterns(content), vec!["*.m4p", "**/Podcasts/**"]);
    assert!(ignore_patterns("").is_empty());
    assert_eq!(
        ignore_patterns("tail\\ \nback\\\\ \nplain \nspaced\\  \r"),
        vec!["tail\\ ", "back\\\\", "plain", "spaced\\ "]
    );
}

#[test]
fn lines_become_rules() {
    let rules = all_rules(
        &strings(&["#given", "/abs/x", "!sub/*.mp3"]),
        "/work",
        &vec![
            ignore_file("/m", "Podcasts\n!keep.mp3\nold/\n/top\na/b/\n**/x/**\n\\!odd\n!\n/"),
            ignore_file("/a*b [1]/", "/top"),
        ],
    );
    let seen: Vec<(&str, &str, bool, bool)> = rules
        .iter()
        .map(|r| (r.text.as_str(), r.glob.as_str(), r.negated, r.only_directories))
        .collect();
    assert_eq!(
        seen,
        vec![
            ("#given", "**/#given", false, false),
            ("/abs/x", "/abs/x", false, false),
            ("!sub/*.mp3", "/work/sub/*.mp3", true, false),
            ("Podcasts", "**/Podcasts", false, false),
            ("!keep.mp3", "**/keep.mp3", true, false),
            ("old/", "**/old", false, true),
            ("/top", "/m/top", false, false),
            ("a/b/", "/m/a/b", false, true),
            ("**/x/**", "**/x/**", false, false),
            ("\\!odd", "**/\\!odd", false, false),
            ("!", "", true, false),
            ("/", "", false, true),
            ("/top", "/a\\*b \\[1\\]/top", false, false),
        ]
    );
}

/// The files among `paths`, found below `/m`, that are scanned.
fn kept<'a>(given: &[&str], files: &[(&str, &str)], paths: &[&'a str]) -> Vec<&'a str> {
    let files = files.iter().map(|f| ignore_file(f.0, f.1)).collect();
    let set = build_ignore_set(&strings(given), "/work", &files).unwrap();
    let chosen = select_audio_files(&found("/m", paths), &set);
    paths.iter().copied().filter(|p| chosen.iter().any(|c| c == p)).collect()
}

#[test]
fn a_bare_name_ignores_a_directory() {
    let paths = ["/m/Podcasts/a.mp3", "/m/x/Podcasts/y/b.mp3", "/m/x/Podcasts.mp3"];
    assert_eq!(kept(&["Podcasts"], &[], &paths), vec!["/m/x/Podcasts.mp3"]);
    assert_eq!(kept(&[], &[("/m", "Podcasts/")], &paths), vec!["/m/x/Podcasts.mp3"]);
    assert_eq!(kept(&[], &[("/m", "/Podcasts")], &paths), paths[1..].to_vec());
    assert_eq!(kept(&[], &[("/n", "/Podcasts")], &paths), paths.to_vec());
    // What lies above the scanned directory does not count.
    assert_eq!(kept(&["m"], &[], &paths), paths.to_vec());
}

#[test]
fn wildcards_stop_at_slashes() {
    let paths = ["/m/a/b.mp3", "/m/a/c/b.mp3"];
    assert_eq!(kept(&[], &[("/m", "a/*.mp3")], &paths), vec!["/m/a/c/b.mp3"]);
    assert_eq!(kept(&[], &[("/m", "/*/b.mp3")], &paths), vec!["/m/a/c/b.mp3"]);
    assert!(kept(&[], &[("/m", "a/**/b.mp3")], &paths).is_empty());
    assert!(kept(&[], &[("/m", "b.mp?")], &paths).is_empty());
}

#[test]
fn a_later_rule_keeps_files() {
    let paths = ["/m/a.mp3", "/m/keep.mp3"];
    assert_eq!(kept(&["*.mp3", "!keep.mp3"], &[], &paths), vec!["/m/keep.mp3"]);
    assert!(kept(&["!keep.mp3", "*.mp3"], &[], &paths).is_empty());
    // A file in an ignored directory stays ignored.
    let paths = ["/m/old/keep.mp3"];
    assert!(kept(&["old/", "!keep.mp3"], &[], &paths).is_empty());
    // A literal exclamation mark.
    let paths = ["/m/!a.mp3", "/m/a.mp3"];
    assert_eq!(kept(&["\\!a.mp3"], &[], &paths), vec!["/m/a.mp3"]);
}

#[test]
fn given_rules_go_before_those_in_files() {
    let paths = ["/m/a.mp3", "/m/keep.mp3"];
    assert_eq!(
        kept(&["!keep.mp3"], &[("/m", "*.mp3")], &paths),
        vec!["/m/keep.mp3"]
    );
    assert!(kept(&["*.mp3"], &[("/m", "!keep.mp3")], &paths).is_empty());
}

#[test]
fn ignore_files_are_read_once() {
    assert_eq!(
        ignore_files(&strings(&[
            "/m/.dupsonic-ignore",
            ".dupsonic-ignore",
            "/m//.dupsonic-ignore",
            "/n/.dupsonic-ignore",
        ])),
        vec![".dupsonic-ignore", "/m/.dupsonic-ignore", "/n/.dupsonic-ignore"]
    );
}

#[test]
fn audio_files_are_sorted_without_repetition() {
    let files = vec![ignore_file("/m", "**/Podcasts/**")];
    let ignore = build_ignore_set(&strings(&["*.m4p"]), "/work", &files).unwrap();
    let paths = [
        "/m/b.mp3",
        "/m/a.flac",
        "/m/a.txt",
        "/m/c.m4p",
        "/m/Podcasts/x.mp3",
        "/m/b.mp3",
        "/m-n/a.mp3",
    ];
    // By components: the directory m comes before m-n.
    assert_eq!(
        select_audio_files(&found("/", &paths), &ignore),
        vec!["/m/a.flac", "/m/b.mp3", "/m-n/a.mp3"]
    );
}

#[test]
fn bad_ignore_patterns_are_refused() {
    let Err(message) = build_ignore_set(&strings(&["[a"]), "/work", &vec![]) else {
        panic!("an unclosed class is refused");
    };
    assert!(message.starts_with("Invalid ignore pattern '[a': "), "{message}");
    let files = vec![ignore_file("/m", "fine\nb{c\n[d")];
    let Err(message) = build_ignore_set(&strings(&["*.mp3"]), "/work", &files) else {
        panic!("an unclosed alternative is refused");
    };
    assert!(message.starts_with("Invalid ignore pattern 'b{c': "), "{message}");
}

fn state(size: i64, length: Option<i64>) -> FileState {
    FileState {
        meta: Some(FileMeta {
            size: 10,
            mtime_secs: 20,
        }),
        cached: Some(CachedMeta {
            size,
            mtime_secs: 20,
            fingerprint_length: length,
        }),
    }
}

#[test]
fn only_new_or_changed_files_are_processed() {
    let gone = FileState {
        meta: None,
        cached: None,
    };
    let states = vec![
        state(10, Some(120)),
        state(11, Some(120)),
        state(10, Some(15)),
        state(10, None),
        gone,
    ];
    assert_eq!(files_to_process(&states, 120, false), vec![1, 2, 3, 4]);
    assert_eq!(files_to_process(&states, 15, false), vec![0, 1, 3, 4]);
    assert_eq!(files_to_process(&states, 120, true), vec![0, 1, 2, 3, 4]);
    assert!(!needs_processing(&states[0], 120, false));
}

fn meta() -> Option<FileMeta> {
    Some(FileMeta {
        size: 1,
        mtime_secs: 2,
    })
}

#[test]
fn results_hold_the_band_hashes() {
    let print = FingerprintResult {
        fingerprint: vec![1, 2, 3, 4],
        duration_ns: 9,
    };
    match scan_result("/a".to_string(), Ok(print), meta(), 120) {
        ScanResult::Success {
            path,
            duration_ns,
            fingerprint,
            fingerprint_length,
            band_hashes,
            ..
        } => {
            assert_eq!(path, "/a");
            assert_eq!(duration_ns, 9);
            assert_eq!(fingerprint_length, 120);
            assert_eq!(band_hashes, compute_band_hashes(&fingerprint));
        }
        other => panic!("{other:?}"),
    }
    let print = FingerprintResult {
        fingerprint: vec![1],
        duration_ns: 9,
    };
    match scan_result("/a".to_string(), Ok(print), None, 120) {
        ScanResult::Error { meta, error, .. } => {
            assert!(meta.is_none());
            assert_eq!(error, "failed to read file metadata");
        }
        other => panic!("{other:?}"),
    }
    match scan_result("/a".to_string(), Err("broken".to_string()), meta(), 120) {
        ScanResult::Error { path, meta: m, error } => {
            assert_eq!((path.as_str(), m, error.as_str()), ("/a", meta(), "broken"));
        }
        other => panic!("{other:?}"),
    }
}

#[test]
fn results_are_stored_in_batches() {
    let mut batcher = Batcher::new();
    let mut stored = Vec::new();
    for n in 0..(2 * BATCH_SIZE + 5) {
        let outcome = if n % 3 == 0 {
            Err("broken".to_string())
        } else {
            Ok(FingerprintResult {
                fingerprint: vec![n as u32],
                duration_ns: 0,
            })
        };
        if let Some(batch) = batcher.push(scan_result(format!("/{n}"), outcome, meta(), 120)) {
            assert_eq!(batch.len(), 64);
            stored.extend(batch);
        }
    }
    assert_eq!(batcher.counts(), (88, 45));
    stored.extend(batcher.finish().unwrap());
    let paths: Vec<String> = stored
        .into_iter()
        .map(|r| match r {
            ScanResult::Success { path, .. } => path,
            ScanResult::Error { path, .. } => path,
        })
        .collect();
    let expected: Vec<String> = (0..133).map(|n| format!("/{n}")).collect();
    assert_eq!(paths, expected);
    assert!(Batcher::new().finish().is_none());
}

#[test]
fn scans_are_reported() {
    assert_eq!(start_line(12, 8), "Fingerprinting 12 files using 8 workers...");
    assert_eq!(finished_line(10, 2), "Finished: 10 fingerprinted, 2 errors");
}
