use dupsonic::classify::{
    classify_group, classify_matches, filter_by_mbids, keep_by_mbids, known_hashes, CachedHashes,
    FileHashes,
};
use dupsonic::fingerprint::{ReadEvent, Similarity};
use dupsonic::hash::{
    absorb_packet, audio_hash_action, sha256_hex, HashAction, Packet, StreamHasher,
};
use dupsonic::matcher::{DuplicateFile, DuplicateGroup, MatchKind};

const PERFECT: Similarity = Similarity { matching: 64, total: 64 };
const CLOSE: Similarity = Similarity { matching: 60, total: 64 };

fn group(names: &[&str], similarity: Similarity) -> DuplicateGroup {
    DuplicateGroup {
        id: "0123456789abcdef".to_string(),
        files: names
            .iter()
            .map(|n| DuplicateFile {
                path: n.to_string(),
                duration_ns: 0,
                match_kind: MatchKind::Similar,
            })
            .collect(),
        similarity,
    }
}

fn hashes(file: &str, audio: &str) -> FileHashes {
    FileHashes {
        file: file.to_string(),
        audio: audio.to_string(),
    }
}

fn kinds(group: &DuplicateGroup) -> Vec<MatchKind> {
    group.files.iter().map(|f| f.match_kind).collect()
}

/// A file: its tags and its audio packets.
fn hash_file(tags: &[u8], audio: &[u8]) -> FileHashes {
    let whole = [tags, audio].concat();
    let mut hasher = StreamHasher::new();
    for chunk in audio.chunks(3) {
        let packet = Packet {
            track_id: 1,
            data: chunk.to_vec(),
        };
        absorb_packet(&mut hasher, &packet, 1);
    }
    hashes(&sha256_hex(&whole), &hasher.finish())
}

#[test]
fn copies_retags_and_other_encodings_are_told_apart() {
    // hires and lossy have other audio; retagged has the audio of lowres and other tags.
    let names = [
        "hires.flac",
        "lowres.flac",
        "lossy.mp3",
        "retagged.flac",
        "exact_copy.flac",
    ];
    let mut groups = vec![group(&names, PERFECT)];
    let all = vec![vec![
        hash_file(b"", b"the audio at a high rate"),
        hash_file(b"", b"the audio"),
        hash_file(b"", b"the audio, lossy"),
        hash_file(b"Different Artist", b"the audio"),
        hash_file(b"", b"the audio"),
    ]];
    classify_matches(&mut groups, &all);
    assert_eq!(
        kinds(&groups[0]),
        vec![
            MatchKind::Similar,
            MatchKind::ExactCopy,
            MatchKind::Similar,
            MatchKind::SameAudio,
            MatchKind::ExactCopy,
        ]
    );
}

#[test]
fn only_perfect_groups_are_classified() {
    let mut groups = vec![group(&["a", "b"], CLOSE), group(&["c", "d"], PERFECT)];
    let same = vec![hashes("x", "y"), hashes("x", "y")];
    classify_matches(&mut groups, &vec![vec![], same]);
    assert_eq!(kinds(&groups[0]), vec![MatchKind::Similar, MatchKind::Similar]);
    assert_eq!(kinds(&groups[1]), vec![MatchKind::ExactCopy, MatchKind::ExactCopy]);
}

#[test]
fn missing_hashes_prove_nothing() {
    let mut g = group(&["a", "b", "c"], PERFECT);
    classify_group(&mut g, &vec![hashes("", ""), hashes("", ""), hashes("f", "")]);
    assert_eq!(kinds(&g), vec![MatchKind::Similar; 3]);
    let mut g = group(&["a", "b", "c"], PERFECT);
    classify_group(&mut g, &vec![hashes("1", "s"), hashes("2", "s"), hashes("3", "s")]);
    assert_eq!(kinds(&g), vec![MatchKind::SameAudio; 3]);
    let mut g = group(&["a", "b", "c"], PERFECT);
    classify_group(&mut g, &vec![hashes("1", "s"), hashes("2", "t"), hashes("3", "t")]);
    assert_eq!(
        kinds(&g),
        vec![MatchKind::Similar, MatchKind::SameAudio, MatchKind::SameAudio]
    );
}

#[test]
fn cached_hashes_count_only_as_a_pair() {
    let cached = |file: Option<&str>, audio: Option<&str>| {
        Some(CachedHashes {
            file: file.map(String::from),
            audio: audio.map(String::from),
        })
    };
    let known = known_hashes(&cached(Some("f"), Some("a"))).unwrap();
    assert_eq!((known.file.as_str(), known.audio.as_str()), ("f", "a"));
    assert!(known_hashes(&cached(Some("f"), None)).is_none());
    assert!(known_hashes(&cached(None, Some("a"))).is_none());
    assert!(known_hashes(&None).is_none());
}

fn ids(list: &[Option<&str>]) -> Vec<Option<String>> {
    list.iter().map(|m| m.map(String::from)).collect()
}

#[test]
fn groups_of_different_recordings_are_dropped() {
    assert!(keep_by_mbids(&ids(&[Some("a"), Some("a")])));
    assert!(keep_by_mbids(&ids(&[Some("a"), None, Some("b")])));
    assert!(!keep_by_mbids(&ids(&[Some("a"), Some("b")])));
    let groups = vec![group(&["a", "b"], CLOSE), group(&["c", "d"], PERFECT)];
    let kept = filter_by_mbids(
        groups,
        &vec![ids(&[Some("a"), Some("b")]), ids(&[Some("a"), None])],
    );
    assert_eq!(kept.len(), 1);
    assert_eq!(kept[0].files[0].path, "c");
}

#[test]
fn hashes_are_sha256_in_hex() {
    assert_eq!(
        sha256_hex(b"abc"),
        "ba7816bf8f01cfea414140de5dae2223b00361a396177a9cb410ff61f20015ad"
    );
    let mut hasher = StreamHasher::new();
    hasher.update(b"a");
    hasher.update(b"");
    hasher.update(b"bc");
    assert_eq!(hasher.finish(), sha256_hex(b"abc"));
    assert_eq!(
        StreamHasher::new().finish(),
        "e3b0c44298fc1c149afbf4c8996fb92427ae41e4649b934ca495991b7852b855"
    );
}

#[test]
fn packets_of_other_tracks_do_not_count() {
    let mut hasher = StreamHasher::new();
    for (track_id, data) in [(1, "ab"), (2, "zz"), (1, "c")] {
        let packet = Packet {
            track_id,
            data: data.as_bytes().to_vec(),
        };
        absorb_packet(&mut hasher, &packet, 1);
    }
    assert_eq!(hasher.finish(), sha256_hex(b"abc"));
}

#[test]
fn hashing_stops_at_the_end_and_fails_on_errors() {
    assert!(matches!(audio_hash_action(ReadEvent::Packet(4), 4), HashAction::Absorb));
    assert!(matches!(audio_hash_action(ReadEvent::Packet(5), 4), HashAction::Skip));
    assert!(matches!(audio_hash_action(ReadEvent::EndOfStream, 4), HashAction::Finish));
    assert!(matches!(audio_hash_action(ReadEvent::UnexpectedEof, 4), HashAction::Finish));
    for event in [
        ReadEvent::Malformed("broken".to_string()),
        ReadEvent::Failed("broken".to_string()),
    ] {
        match audio_hash_action(event, 4) {
            HashAction::Fail(e) => assert_eq!(e, "broken"),
            other => panic!("{other:?}"),
        }
    }
}
