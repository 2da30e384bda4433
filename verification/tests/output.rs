use dupsonic::fingerprint::Similarity;
use dupsonic::matcher::{DuplicateFile, DuplicateGroup, MatchKind};
use dupsonic::output::{
    build_detailed_group, empty_output, file_extension, format_duration, format_score_label,
    format_size, human_detailed_report, human_report, match_kind_str, FileDetails, Format,
};
use dupsonic::tags::{AudioInfo, BasicTags};

fn secs(s: f64) -> u64 {
    (s * 1e9) as u64
}

#[test]
fn test_format_duration() {
    assert_eq!(format_duration(secs(0.0)), "0:00");
    assert_eq!(format_duration(secs(59.0)), "0:59");
    assert_eq!(format_duration(secs(60.0)), "1:00");
    assert_eq!(format_duration(secs(61.5)), "1:01");
    assert_eq!(format_duration(secs(222.0)), "3:42");
    assert_eq!(format_duration(secs(3661.0)), "61:01");
}

#[test]
fn test_format_parse() {
    assert!(matches!("human".parse::<Format>(), Ok(Format::Human)));
    assert!(matches!("json".parse::<Format>(), Ok(Format::Json)));
    assert!(matches!("jsonl".parse::<Format>(), Ok(Format::Jsonl)));
    assert!(matches!("ndjson".parse::<Format>(), Ok(Format::Jsonl)));
    assert!(matches!("text".parse::<Format>(), Ok(Format::Human)));
    assert!("invalid".parse::<Format>().is_err());
}

#[test]
fn formats_are_parsed_in_any_case() {
    assert!(matches!(Format::parse("TABLE"), Ok(Format::Human)));
    assert!(matches!(Format::parse("NdJson"), Ok(Format::Jsonl)));
    assert_eq!(
        Format::parse("Xml").unwrap_err(),
        "Unknown format 'Xml'. Expected: human, json, jsonl"
    );
    assert_eq!(Format::default(), Format::Human);
}

#[test]
fn test_format_size() {
    assert_eq!(format_size(0), "0 B");
    assert_eq!(format_size(512), "512 B");
    assert_eq!(format_size(1024), "1 KB");
    assert_eq!(format_size(1_048_576), "1.0 MB");
    assert_eq!(format_size(34_567_890), "33.0 MB");
}

#[test]
fn sizes_are_rounded_like_printed_floats() {
    for bytes in [
        1023u64,
        1535,
        1536,
        1537,
        2560,
        1_048_575,
        1_100_000,
        1_205_862,
        1_310_720,
        52_480_000,
        1_073_741_823,
        1_073_741_824,
        3_865_470_566,
        u64::MAX,
    ] {
        let expected = if bytes >= 1_073_741_824 {
            format!("{:.1} GB", bytes as f64 / 1_073_741_824.0)
        } else if bytes >= 1_048_576 {
            format!("{:.1} MB", bytes as f64 / 1_048_576.0)
        } else if bytes >= 1024 {
            format!("{:.0} KB", bytes as f64 / 1024.0)
        } else {
            format!("{} B", bytes)
        };
        assert_eq!(format_size(bytes), expected);
    }
}

#[test]
fn test_empty_results() {
    assert_eq!(empty_output(Format::Human).unwrap(), "No duplicates found.");
    assert_eq!(empty_output(Format::Json).unwrap(), "[]");
    assert!(empty_output(Format::Jsonl).is_none());
}

#[test]
fn labels_of_matches() {
    let file = |match_kind| DuplicateFile {
        path: "a".to_string(),
        duration_ns: 0,
        match_kind,
    };
    assert_eq!(format_score_label(&file(MatchKind::ExactCopy)), "[exact copy]");
    assert_eq!(format_score_label(&file(MatchKind::SameAudio)), "[same audio]");
    assert_eq!(format_score_label(&file(MatchKind::Similar)), "");
    assert_eq!(match_kind_str(MatchKind::ExactCopy).unwrap(), "exact_copy");
    assert_eq!(match_kind_str(MatchKind::SameAudio).unwrap(), "same_audio");
    assert!(match_kind_str(MatchKind::Similar).is_none());
}

#[test]
fn extensions_are_lowercase() {
    assert_eq!(file_extension("/m/a.FLAC"), "flac");
    assert_eq!(file_extension("/m/a.ÄÖ"), "äö");
    assert_eq!(file_extension("/m/a"), "unknown");
    assert_eq!(file_extension("/m/.hidden"), "unknown");
}

fn group() -> DuplicateGroup {
    DuplicateGroup {
        id: "a6bacb6d0b0d38d9".to_string(),
        files: vec![
            DuplicateFile {
                path: "/music/a.flac".to_string(),
                duration_ns: secs(198.5),
                match_kind: MatchKind::Similar,
            },
            DuplicateFile {
                path: "/music/b.mp3".to_string(),
                duration_ns: secs(198.3),
                match_kind: MatchKind::ExactCopy,
            },
        ],
        similarity: Similarity { matching: 97, total: 100 },
    }
}

#[test]
fn the_human_report() {
    assert_eq!(
        human_report(&vec![group(), group()], &vec![97, 100]),
        vec![
            "── Duplicate Group a6bacb6d (2 files, 97% similar) ──",
            "  /music/a.flac (3:18)",
            "  [exact copy] /music/b.mp3 (3:18)",
            "",
            "── Duplicate Group a6bacb6d (2 files, 100% similar) ──",
            "  /music/a.flac (3:18)",
            "  [exact copy] /music/b.mp3 (3:18)",
            "",
            "Summary: 2 duplicate groups, 2 redundant files",
        ]
    );
}

fn details(mbid: Option<&str>) -> FileDetails {
    FileDetails {
        size_bytes: 34_567_890,
        audio: Some(AudioInfo {
            sample_rate: Some(44100),
            bits_per_sample: Some(16),
            channels: Some(2),
            bitrate_kbps: Some(900),
        }),
        tags: Some(BasicTags {
            artist: Some("Artist".to_string()),
            title: None,
            album: None,
        }),
        recording_mbid: mbid.map(String::from),
        acoustid: None,
    }
}

#[test]
fn the_detailed_human_report() {
    let bare = FileDetails {
        size_bytes: 0,
        audio: None,
        tags: None,
        recording_mbid: None,
        acoustid: None,
    };
    assert_eq!(
        human_detailed_report(
            &vec![group()],
            &vec![97],
            &vec![vec![details(Some("mb-1")), bare]]
        ),
        vec![
            "── Duplicate Group a6bacb6d (2 files, 97% similar) ──",
            "  /music/a.flac (3:18, FLAC, 44kHz/16bit ~900kbps 33.0 MB)",
            "         MBID: mb-1",
            "  [exact copy] /music/b.mp3 (3:18, MP3, 0 B)",
            "",
            "Summary: 1 duplicate groups, 1 redundant files",
        ]
    );
}

#[test]
fn a_shared_recording_moves_to_the_group() {
    let same = build_detailed_group(&group(), &vec![details(Some("mb-1")), details(Some("mb-1"))]);
    assert_eq!(same.id, "a6bacb6d0b0d38d9");
    assert_eq!(same.recording_mbid.as_deref(), Some("mb-1"));
    assert_eq!(same.files[0].format, "flac");
    assert_eq!(same.files[0].size_bytes, 34_567_890);
    assert_eq!(same.files[0].sample_rate, Some(44100));
    assert_eq!(same.files[0].bits_per_sample, Some(16));
    assert_eq!(same.files[0].channels, Some(2));
    assert_eq!(same.files[0].bitrate_kbps, Some(900));
    assert_eq!(same.files[0].match_kind, None);
    assert_eq!(same.files[1].match_kind.as_deref(), Some("exact_copy"));
    assert_eq!(same.files[1].path, "/music/b.mp3");
    assert_eq!(
        same.files[1].tags.as_ref().unwrap().artist.as_deref(),
        Some("Artist")
    );
    let other = build_detailed_group(&group(), &vec![details(Some("mb-1")), details(Some("mb-2"))]);
    assert_eq!(other.recording_mbid, None);
    let missing = build_detailed_group(&group(), &vec![details(Some("mb-1")), details(None)]);
    assert_eq!(missing.recording_mbid, None);
}
