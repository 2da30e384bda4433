use dupsonic::database::{bytes_to_fingerprint, fingerprint_to_bytes, FileFingerprint};
use dupsonic::matcher::{compute_band_hashes, generate_candidates_lsh, hash_band, shares_root};

fn file(path: &str, duration_ns: u64, fingerprint: Vec<u32>) -> FileFingerprint {
    FileFingerprint {
        path: path.to_string(),
        duration_ns,
        fingerprint,
    }
}

const SECOND: u64 = 1_000_000_000;

#[test]
fn test_lsh_identical_fingerprints_are_candidates() {
    let fp = vec![0x12345678u32; 200];
    let fps = vec![
        file("/music/a.flac", 180 * SECOND, fp.clone()),
        file("/music/b.mp3", 180 * SECOND + SECOND / 2, fp.clone()),
    ];

    let candidates = generate_candidates_lsh(&fps, false);
    assert_eq!(candidates.len(), 1);
    assert!(candidates.contains(&(0, 1)));
}

#[test]
fn test_lsh_very_different_fingerprints_not_candidates() {
    let fp1 = vec![0x00000000u32; 200];
    let fp2 = vec![0xFFFFFFFFu32; 200];
    let fps = vec![
        file("/music/a.flac", 180 * SECOND, fp1),
        file("/music/b.mp3", 180 * SECOND, fp2),
    ];

    let candidates = generate_candidates_lsh(&fps, false);
    assert!(candidates.is_empty());
}

#[test]
fn test_lsh_duration_filter_rejects_different_lengths() {
    let fp = vec![0x12345678u32; 200];
    let fps = vec![
        file("/music/a.flac", 180 * SECOND, fp.clone()), // 3 minutes
        file("/music/b.mp3", 420 * SECOND, fp.clone()),  // 7 minutes
    ];

    let candidates = generate_candidates_lsh(&fps, false);
    // Should be rejected by duration filter even though fingerprints match
    assert!(candidates.is_empty());
}

#[test]
fn test_lsh_same_tree_filter() {
    let fp = vec![0x12345678u32; 200];
    let fps = vec![
        file("/home/user/Music/a.flac", 180 * SECOND, fp.clone()),
        file("/mnt/external/b.mp3", 180 * SECOND, fp.clone()),
    ];

    let with_filter = generate_candidates_lsh(&fps, true);
    let without_filter = generate_candidates_lsh(&fps, false);
    assert!(with_filter.is_empty());
    assert_eq!(without_filter.len(), 1);
}

#[test]
fn candidates_need_a_whole_band() {
    let fps = vec![
        file("/music/a.flac", 0, vec![7]),
        file("/music/b.flac", 0, vec![7]),
        file("/music/c.flac", 0, vec![7, 8]),
        file("/music/d.flac", 0, vec![7, 8, 9]),
    ];
    assert_eq!(generate_candidates_lsh(&fps, false), vec![(2, 3)]);
}

#[test]
fn a_pair_that_shares_several_bands_comes_once() {
    let fps = vec![
        file("/music/a.flac", 0, vec![1, 2, 3, 4, 5, 6]),
        file("/music/b.flac", 0, vec![1, 2, 9, 9, 5, 6]),
        file("/music/c.flac", 0, vec![0, 0, 9, 9, 0, 0]),
    ];
    let mut candidates = generate_candidates_lsh(&fps, false);
    candidates.sort();
    assert_eq!(candidates, vec![(0, 1), (1, 2)]);
}

#[test]
fn overfull_buckets_are_skipped() {
    let crowd: Vec<FileFingerprint> = (0..1001)
        .map(|i| file(&format!("/music/{i}.mp3"), 0, vec![5, 6]))
        .collect();
    assert!(generate_candidates_lsh(&crowd, false).is_empty());
    let full: Vec<FileFingerprint> = crowd.into_iter().take(1000).collect();
    assert_eq!(generate_candidates_lsh(&full, false).len(), 1000 * 999 / 2);
}

#[test]
fn test_hash_band_deterministic() {
    let band = [0x12345678, 0xABCDEF01, 0x00FF00FF, 0xDEADBEEF];
    let h1 = hash_band(&band);
    let h2 = hash_band(&band);
    assert_eq!(h1, h2);
}

#[test]
fn test_hash_band_different_inputs() {
    let band1 = [0x12345678, 0xABCDEF01, 0x00FF00FF, 0xDEADBEEF];
    let band2 = [0x12345679, 0xABCDEF01, 0x00FF00FF, 0xDEADBEEF]; // one bit different
    assert_ne!(hash_band(&band1), hash_band(&band2));
}

#[test]
fn band_hashes_are_fnv_1a() {
    // FNV-1a of nothing, and of the bytes "a\0\0\0".
    assert_eq!(hash_band(&[]), 0xcbf29ce484222325);
    assert_eq!(hash_band(&[0x61]), 0xac804b820e4fe984);
}

#[test]
fn there_is_a_hash_for_each_whole_band() {
    assert!(compute_band_hashes(&[]).is_empty());
    assert!(compute_band_hashes(&[1]).is_empty());
    assert_eq!(compute_band_hashes(&[1, 2, 3]), vec![hash_band(&[1, 2])]);
    assert_eq!(
        compute_band_hashes(&[1, 2, 3, 4]),
        vec![hash_band(&[1, 2]), hash_band(&[3, 4])]
    );
    assert_eq!(compute_band_hashes(&vec![1; 99]).len(), 49);
    assert_eq!(compute_band_hashes(&vec![1; 500]).len(), 50);
}

#[test]
fn test_shares_root_same_tree() {
    assert!(shares_root(
        "/home/user/Music/Artist/track.flac",
        "/home/user/Music/Other/track.mp3",
    ));
}

#[test]
fn test_shares_root_different_tree() {
    assert!(!shares_root(
        "/home/user/Music/track.flac",
        "/mnt/external/track.mp3",
    ));
}

#[test]
fn sharing_a_root_takes_two_components() {
    assert!(!shares_root("/", "/"));
    assert!(shares_root("/music", "/music/a.mp3"));
    assert!(!shares_root("music", "music"));
    assert!(shares_root("./a", "./a/b"));
    assert!(shares_root("//music//x", "/music/./y"));
}

#[test]
fn test_fingerprint_bytes_roundtrip() {
    let original = vec![0x00000000, 0xFFFFFFFF, 0x12345678, 0xABCDEF01];
    let bytes = fingerprint_to_bytes(&original);
    let roundtripped = bytes_to_fingerprint(&bytes);
    assert_eq!(original, roundtripped);
}

#[test]
fn fingerprints_are_stored_lowest_byte_first() {
    assert_eq!(fingerprint_to_bytes(&[0x12345678]), vec![0x78, 0x56, 0x34, 0x12]);
    assert_eq!(bytes_to_fingerprint(&[0x78, 0x56, 0x34, 0x12, 1, 2, 3]), vec![0x12345678]);
    assert!(bytes_to_fingerprint(&[1, 2, 3]).is_empty());
}
