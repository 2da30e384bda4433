use dupsonic::cli::{
    confirms, log_filter, nothing_to_scan, scan_source, status_lines, too_few_files, ScanSource,
};
use dupsonic::database::Stats;

#[test]
fn logging_follows_the_verbosity() {
    let rest = ",symphonia_core=debug,symphonia_format_ogg=debug";
    for (verbose, level) in [(0, "warn"), (1, "info"), (2, "debug"), (3, "trace"), (9, "trace")] {
        assert_eq!(log_filter(verbose), format!("{level}{rest}"));
    }
}

#[test]
fn yes_is_the_default_answer() {
    for yes in ["", "\n", "y\n", " YES \r\n", "Y"] {
        assert!(confirms(yes), "{yes:?}");
    }
    for no in ["n", "no\n", "yess", "ja"] {
        assert!(!confirms(no), "{no:?}");
    }
}

#[test]
fn paths_come_from_the_command_line_first() {
    assert_eq!(scan_source(1, 2, Some(true)), ScanSource::Given);
    assert_eq!(scan_source(0, 2, Some(true)), ScanSource::Stored);
    assert_eq!(scan_source(0, 0, Some(true)), ScanSource::MusicDir);
    assert_eq!(scan_source(0, 0, Some(false)), ScanSource::MissingMusicDir);
    assert_eq!(scan_source(0, 0, None), ScanSource::NoMusicDir);
    assert_eq!(nothing_to_scan(ScanSource::Stored), None);
    assert_eq!(
        nothing_to_scan(ScanSource::NoMusicDir).unwrap(),
        "No paths specified and no previously scanned paths found."
    );
    assert_eq!(
        nothing_to_scan(ScanSource::MissingMusicDir).unwrap(),
        "No paths specified and default music directory does not exist."
    );
}

#[test]
fn two_files_are_needed() {
    assert!(too_few_files(2, None).is_none());
    assert_eq!(
        too_few_files(0, None).unwrap(),
        vec![
            "No files have been scanned yet.",
            "",
            "Run a scan first to fingerprint your audio library:",
            "",
            "  dupsonic scan <path-to-music>",
        ]
    );
    assert_eq!(
        too_few_files(1, Some("/tmp/x.db")).unwrap(),
        vec![
            "Only 1 file has been scanned — need at least 2 to find duplicates.",
            "",
            "Scan more files:",
            "",
            "  dupsonic scan <path-to-music>",
            "",
            "Note: using custom database '/tmp/x.db'. Make sure you use the same --db path when scanning.",
        ]
    );
}

#[test]
fn the_status_of_the_database() {
    let stats = Stats {
        total_files: 12,
        fingerprinted: 9,
        failed: 3,
        stale: 1,
    };
    assert_eq!(
        status_lines("/tmp/x.db", &stats),
        vec![
            "Database: /tmp/x.db",
            "  Total files: 12",
            "  Fingerprinted: 9",
            "  Failed: 3",
            "  Stale (file missing): 1",
        ]
    );
}
