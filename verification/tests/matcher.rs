use dupsonic::database::FileFingerprint;
use dupsonic::fingerprint::{
    AudioStream, DecodeEvent, DecodeSession, FingerprintResult, Similarity, Threshold,
};
use dupsonic::fpcalc::cached_fingerprint;
use dupsonic::classify::{classify_matches, FileHashes};
use dupsonic::group::{
    group_id, present_group, present_groups, raw_groups, target_group, GroupFile, RawGroup,
};
use dupsonic::keep::FileFacts;
use dupsonic::matcher::{
    find_cached, find_duplicates, find_duplicates_for, generate_candidates_lsh, index_pairs,
    select_pairs, CandidatePair, DuplicateGroup, LinkedGroup, MatchKind,
};

const SECOND: u64 = 1_000_000_000;
const EIGHTY: Threshold = Threshold {
    numer: 800_000_000,
    denom: 1_000_000_000,
};

fn sine(frequency: f64, rate: u32, seconds: u32) -> Vec<i16> {
    (0..rate * seconds)
        .map(|n| {
            let t = n as f64 / rate as f64;
            (4096.0 * (2.0 * std::f64::consts::PI * frequency * t).sin()).round() as i16
        })
        .collect()
}

fn chord(rate: u32, seconds: u32) -> Vec<i16> {
    let c = sine(261.6, rate, seconds);
    let e = sine(329.6, rate, seconds);
    let g = sine(392.0, rate, seconds);
    (0..c.len())
        .map(|n| ((c[n] as i32 + e[n] as i32 + g[n] as i32) / 3) as i16)
        .collect()
}

fn fingerprint(samples: &[i16], rate: u32) -> FingerprintResult {
    let stream = AudioStream {
        track_id: 0,
        sample_rate: rate,
        channels: 1,
        duration_ns: None,
    };
    let mut session = DecodeSession::start(stream, 120).unwrap();
    for chunk in samples.chunks(4096) {
        session.on_decoded(DecodeEvent::Buffer(chunk.len(), Some(chunk.to_vec())));
    }
    session.finish().unwrap()
}

fn scanned(path: &str, samples: &[i16]) -> FileFingerprint {
    let result = fingerprint(samples, 44100);
    file(path, result.duration_ns, result.fingerprint)
}

fn file(path: &str, duration_ns: u64, fingerprint: Vec<u32>) -> FileFingerprint {
    FileFingerprint {
        path: path.to_string(),
        duration_ns,
        fingerprint,
    }
}

/// Looks for candidates and verifies them.
fn pipeline(files: Vec<FileFingerprint>) -> Vec<LinkedGroup> {
    let pairs = generate_candidates_lsh(&files, false);
    let loaded = files.into_iter().map(Some).collect();
    find_duplicates(&loaded, &pairs, EIGHTY)
}

#[test]
fn test_full_pipeline_finds_duplicates() {
    let tone = sine(440.0, 44100, 10);
    let files = vec![
        scanned("lowres.flac", &tone),
        scanned("exact_copy.flac", &tone),
        scanned("retagged.flac", &tone),
        scanned("chord.flac", &chord(44100, 10)),
    ];
    let groups = pipeline(files);
    assert_eq!(
        groups.len(),
        1,
        "Expected 1 duplicate group, got {}",
        groups.len()
    );
    assert_eq!(
        groups[0].members.len(),
        3,
        "Expected 3 files in group, got {}",
        groups[0].members.len()
    );
    // The chord file should NOT be in any group
    assert!(!groups[0].members.contains(&3));
    assert!(groups[0].similarity.is_perfect());
}

/// Presents the groups of files of which nothing is known on disk.
fn presented(files: Vec<FileFingerprint>) -> Vec<DuplicateGroup> {
    let pairs = generate_candidates_lsh(&files, false);
    let loaded = files.into_iter().map(Some).collect();
    let linked = find_duplicates(&loaded, &pairs, EIGHTY);
    let nothing = FileFacts {
        size: 0,
        mtime_secs: 0,
        sample_rate: 0,
        bits_per_sample: 0,
    };
    let facts = linked
        .iter()
        .map(|g| vec![nothing; g.members.len()])
        .collect();
    present_groups(&raw_groups(&linked, &loaded, &facts))
}

#[test]
fn test_duplicate_classification_5_files() {
    // 1. hires.flac    - 48kHz/24bit FLAC (similar fingerprint, different quality)
    // 2. lowres.flac   - 44.1kHz/16bit FLAC
    // 3. lossy.mp3     - 128kbps MP3
    // 4. retagged.flac - same audio as lowres, different tags
    // 5. exact_copy.flac - byte-identical copy of lowres
    let tone = chord(44100, 10);
    let hires = fingerprint(&chord(48000, 10), 48000);
    let lossy: Vec<i16> = tone.iter().map(|s| s / 64 * 64).collect();
    let mut groups = presented(vec![
        file("hires.flac", hires.duration_ns, hires.fingerprint),
        scanned("lowres.flac", &tone),
        scanned("lossy.mp3", &lossy),
        scanned("retagged.flac", &tone),
        scanned("exact_copy.flac", &tone),
    ]);
    assert!(
        !groups.is_empty(),
        "Expected at least 1 duplicate group from 5 similar files"
    );

    // Classify matches
    let hashes_of = |path: &str| {
        let (file, audio) = match path {
            "hires.flac" => ("f1", "a1"),
            "lossy.mp3" => ("f2", "a2"),
            "retagged.flac" => ("f3", "a3"),
            _ => ("f4", "a3"),
        };
        FileHashes {
            file: file.to_string(),
            audio: audio.to_string(),
        }
    };
    let hashes = groups
        .iter()
        .map(|g| g.files.iter().map(|f| hashes_of(&f.path)).collect())
        .collect();
    classify_matches(&mut groups, &hashes);

    // The exact copy should be in the results
    assert!(
        groups
            .iter()
            .any(|g| g.files.iter().any(|f| f.path == "exact_copy.flac")),
        "Exact copy should appear in duplicate results"
    );
    // Verify group similarity is within valid range
    for group in &groups {
        let similarity = group.similarity.matching as f64 / group.similarity.total as f64;
        assert!(
            (0.8..=1.0).contains(&similarity),
            "Group similarity {similarity} should be in [0.8, 1.0]"
        );
        assert!(group.similarity.reaches(EIGHTY));
    }
    // In group(s) of 100% matches, copies and other tags are told apart
    for group in groups.iter().filter(|g| g.similarity.is_perfect()) {
        for f in &group.files {
            match f.path.as_str() {
                "exact_copy.flac" | "lowres.flac" => {
                    assert_eq!(f.match_kind, MatchKind::ExactCopy, "{}", f.path)
                }
                "retagged.flac" => assert_eq!(f.match_kind, MatchKind::SameAudio),
                _ => assert_eq!(f.match_kind, MatchKind::Similar, "{}", f.path),
            }
        }
    }
}

#[test]
fn presented_groups_hold_the_linked_files() {
    let bits = |n: u32| vec![n; 100];
    let groups = presented(vec![
        file("/a1.mp3", SECOND, bits(1)),
        file("/b1.mp3", 2 * SECOND, bits(u32::MAX)),
        file("/a2.flac", SECOND, bits(1)),
        file("/alone.mp3", SECOND, bits(0xFFFF)),
        file("/b2.mp3", 2 * SECOND, bits(u32::MAX)),
    ]);
    let mut paths: Vec<Vec<&str>> = groups
        .iter()
        .map(|g| g.files.iter().map(|f| f.path.as_str()).collect())
        .collect();
    paths.sort();
    assert_eq!(
        paths,
        vec![vec!["/a2.flac", "/a1.mp3"], vec!["/b1.mp3", "/b2.mp3"]]
    );
    for group in &groups {
        assert!(group.similarity.is_perfect());
        let secs = if group.files[0].path.starts_with("/a") { 1 } else { 2 };
        assert!(group.files.iter().all(|f| f.duration_ns == secs * SECOND));
    }
}

#[test]
fn the_group_of_one_file_holds_it_first() {
    let target = file("/t.mp3", 5, vec![1]);
    let files = vec![file("/x.mp3", 6, vec![]), file("/y.mp3", 7, vec![])];
    let found = LinkedGroup {
        members: vec![1],
        similarity: Similarity { matching: 9, total: 10 },
    };
    let facts = vec![member("", 1, 2).facts, member("", 3, 4).facts];
    let raw = target_group(&target, &found, &files, &facts);
    assert_eq!(raw.similarity, found.similarity);
    let seen: Vec<(&str, u64, u64)> = raw
        .members
        .iter()
        .map(|m| (m.path.as_str(), m.duration_ns, m.facts.size))
        .collect();
    assert_eq!(seen, vec![("/t.mp3", 5, 1), ("/y.mp3", 7, 3)]);
}

#[test]
fn test_pipeline_respects_duration_filter() {
    let files = vec![
        scanned("short.flac", &sine(440.0, 44100, 10)),
        scanned("long.flac", &sine(440.0, 44100, 60)),
    ];
    assert_eq!(
        pipeline(files).len(),
        0,
        "Files with very different durations should not be grouped as duplicates"
    );
}

#[test]
fn test_pipeline_no_files() {
    assert_eq!(pipeline(vec![]).len(), 0);
}

#[test]
fn test_pipeline_single_file() {
    let files = vec![scanned("lowres.flac", &sine(440.0, 44100, 10))];
    assert_eq!(pipeline(files).len(), 0, "Single file can't be a duplicate");
}

#[test]
fn duplicates_are_linked_through_each_other() {
    // Each fingerprint differs from the next by eight of sixty-four bits.
    let files = vec![
        Some(file("a", 0, vec![0, 0])),
        Some(file("b", 0, vec![0xFF, 0])),
        Some(file("c", 0, vec![0xFFFF, 0])),
        Some(file("d", 0, vec![u32::MAX, u32::MAX])),
        None,
    ];
    let pairs = vec![(0, 1), (1, 2), (2, 3), (3, 4)];
    let groups = find_duplicates(&files, &pairs, EIGHTY);
    assert_eq!(groups.len(), 1);
    let mut members = groups[0].members.clone();
    members.sort();
    assert_eq!(members, vec![0, 1, 2]);
    assert_eq!(groups[0].similarity, Similarity { matching: 56, total: 64 });
    // A pair that is not looked at links nothing.
    assert!(find_duplicates(&files, &vec![(0, 3)], EIGHTY).is_empty());
}

#[test]
fn pairs_are_kept_within_a_tree() {
    let pair = |id1: u64, path1: &str, id2: u64, path2: &str| CandidatePair {
        id1,
        path1: path1.to_string(),
        id2,
        path2: path2.to_string(),
    };
    let pairs = vec![
        pair(10, "/home/a", 20, "/home/b"),
        pair(10, "/home/a", 30, "/mnt/c"),
        pair(30, "/mnt/c", 40, "/mnt/d"),
    ];
    let all = select_pairs(&pairs, false);
    assert_eq!(all, vec![(10, 20), (10, 30), (30, 40)]);
    assert_eq!(select_pairs(&pairs, true), vec![(10, 20), (30, 40)]);
    let indexed = index_pairs(&all);
    assert_eq!(indexed.ids, vec![10, 20, 30, 40]);
    assert_eq!(indexed.pairs, vec![(0, 1), (0, 2), (2, 3)]);
}

#[test]
fn duplicates_of_one_file() {
    let target = file("/m/a.flac", 180 * SECOND, vec![0, 0]);
    let files = vec![
        file("/m/a.flac", 180 * SECOND, vec![0, 0]),
        file("/m/b.mp3", 181 * SECOND, vec![1, 0]),
        file("/m/c.mp3", 300 * SECOND, vec![0, 0]),
        file("/m/d.mp3", 0, vec![0xFF, 0]),
        file("/m/e.mp3", 180 * SECOND, vec![u32::MAX, 0]),
    ];
    let group = find_duplicates_for(&target, &files, EIGHTY).unwrap();
    assert_eq!(group.members, vec![1, 3]);
    assert_eq!(group.similarity, Similarity { matching: 63, total: 64 });
    let strict = Threshold { numer: 1, denom: 1 };
    assert!(find_duplicates_for(&target, &files, strict).is_none());
    assert_eq!(find_cached("/m//c.mp3", &files), Some(2));
    assert_eq!(find_cached("/m/x.mp3", &files), None);
}

#[test]
fn a_cached_fingerprint_is_used_while_it_is_current() {
    let files = vec![file("/m/a.flac", 1, vec![1]), file("/m/b.flac", 2, vec![2])];
    assert_eq!(cached_fingerprint(true, "/m/b.flac", &files), Some(1));
    assert_eq!(cached_fingerprint(false, "/m/b.flac", &files), None);
    assert_eq!(cached_fingerprint(true, "/m/c.flac", &files), None);
}

fn member(path: &str, size: u64, mtime_secs: i64) -> GroupFile {
    GroupFile {
        path: path.to_string(),
        duration_ns: size,
        facts: FileFacts {
            size,
            mtime_secs,
            sample_rate: 44100,
            bits_per_sample: 16,
        },
    }
}

#[test]
fn group_ids_are_hashes_of_path_size_and_time() {
    let a = member("/a.flac", 10, 5);
    let b = member("/b.mp3", 7, -1);
    let expected = "1bcda4379d541cb739aa3fe8362e780cc0b81be20f3fcc8e4060c2065134e569";
    assert_eq!(group_id(&vec![a.clone(), b.clone()]), expected);
    assert_eq!(group_id(&vec![b.clone(), a.clone()]), expected);
    assert_ne!(group_id(&vec![a.clone(), member("/b.mp3", 7, 0)]), expected);
    assert_ne!(group_id(&vec![a.clone(), member("/b.mp3", 8, -1)]), expected);
    assert_ne!(group_id(&vec![a]), expected);
}

#[test]
fn groups_are_presented_best_file_first() {
    let raw = RawGroup {
        members: vec![
            member("/z/lossy.mp3", 900, 0),
            member("/z/small.flac", 10, 0),
            member("/z/large.flac", 20, 0),
            member("/a/large.flac", 20, 0),
        ],
        similarity: Similarity { matching: 9, total: 10 },
    };
    let group = present_group(&raw);
    let paths: Vec<&str> = group.files.iter().map(|f| f.path.as_str()).collect();
    assert_eq!(
        paths,
        vec!["/a/large.flac", "/z/large.flac", "/z/small.flac", "/z/lossy.mp3"]
    );
    assert_eq!(group.id, group_id(&raw.members));
    assert_eq!(group.similarity, raw.similarity);
    assert_eq!(group.files[3].duration_ns, 900);
    assert!(group.files.iter().all(|f| f.match_kind == MatchKind::Similar));
}

#[test]
fn groups_are_sorted_by_id() {
    let raws: Vec<RawGroup> = (0..5)
        .map(|n| RawGroup {
            members: vec![member("/a.mp3", n, 0), member("/b.mp3", n, 0)],
            similarity: Similarity::none(),
        })
        .collect();
    let groups = present_groups(&raws);
    assert_eq!(groups.len(), 5);
    for pair in groups.windows(2) {
        assert!(pair[0].id <= pair[1].id);
    }
    for raw in &raws {
        assert!(groups.iter().any(|g| g.id == group_id(&raw.members)));
    }
}
