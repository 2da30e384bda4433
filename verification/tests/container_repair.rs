use dupsonic::container_repair::{
    detect_repairs, mdat_size_patches, needs_scan, overlay, BoxScan, Patch, ScanStep,
};

/// A file with an `ftyp` atom followed by an `mdat` atom whose 32-bit size field declares
/// `declared_payload` bytes of media data, of which `actual_payload` are there.
fn mp4_file(declared_payload: u32, actual_payload: usize) -> Vec<u8> {
    let mut f = Vec::new();
    f.extend_from_slice(&16u32.to_be_bytes());
    f.extend_from_slice(b"ftypM4A \0\0\0\0");
    f.extend_from_slice(&(8 + declared_payload).to_be_bytes());
    f.extend_from_slice(b"mdat");
    f.extend_from_slice(&vec![0xAAu8; actual_payload]);
    f
}

#[test]
fn well_formed_file_needs_no_patches() {
    let f = mp4_file(100, 100);
    assert!(mdat_size_patches(&f).is_empty());
}

#[test]
fn truncated_mdat_size_is_rewritten_to_bytes_on_disk() {
    // mdat declares 100 payload bytes but only 40 are present.
    let f = mp4_file(100, 40);
    let patches = mdat_size_patches(&f);

    // The 32-bit size field at offset 16 must now read 8 + 40 = 48.
    let expected: Vec<Patch> = 48u32
        .to_be_bytes()
        .iter()
        .enumerate()
        .map(|(i, &b)| Patch {
            offset: 16 + i as u64,
            value: b,
        })
        .collect();
    assert_eq!(patches, expected);
}

#[test]
fn truncated_64bit_mdat_size_is_rewritten() {
    // mdat with size32 == 1 and a 64-bit size that overruns the file.
    let mut f = Vec::new();
    f.extend_from_slice(&16u32.to_be_bytes());
    f.extend_from_slice(b"ftypM4A \0\0\0\0");
    f.extend_from_slice(&1u32.to_be_bytes());
    f.extend_from_slice(b"mdat");
    f.extend_from_slice(&1000u64.to_be_bytes());
    f.extend_from_slice(&[0xAAu8; 24]);

    let patches = mdat_size_patches(&f);

    // 16 (header+size64) + 24 payload = 40 bytes remain from the mdat
    // start; the 64-bit size field lives at offset 24.
    let expected: Vec<Patch> = 40u64
        .to_be_bytes()
        .iter()
        .enumerate()
        .map(|(i, &b)| Patch {
            offset: 24 + i as u64,
            value: b,
        })
        .collect();
    assert_eq!(patches, expected);
}

#[test]
fn only_some_extensions_are_repaired() {
    let f = mp4_file(100, 40);
    assert_eq!(detect_repairs(&f, "/m/a.M4A").len(), 4);
    assert!(detect_repairs(&f, "/m/a.aac").is_empty());
    assert!(detect_repairs(&f, "/m/a").is_empty());
    assert!(needs_scan("a.mov"));
    assert!(!needs_scan("a.flac"));
}

#[test]
fn a_repaired_file_needs_no_repair() {
    let mut f = mp4_file(100, 40);
    let patches = mdat_size_patches(&f);
    let n = f.len();
    overlay(&mut f, 0, n, &patches);
    assert_eq!(&f[16..20], &48u32.to_be_bytes());
    assert!(mdat_size_patches(&f).is_empty());
}

#[test]
fn broken_headers_end_the_scan() {
    // A box of size 0 reaches to the end of the file.
    let mut open_end = mp4_file(100, 40);
    open_end[0..4].copy_from_slice(&0u32.to_be_bytes());
    assert!(mdat_size_patches(&open_end).is_empty());
    // A box is no smaller than its header.
    let mut small = mp4_file(100, 40);
    small[0..4].copy_from_slice(&7u32.to_be_bytes());
    assert!(mdat_size_patches(&small).is_empty());
    // Another box may overrun the file.
    let mut other = mp4_file(100, 40);
    other[20..24].copy_from_slice(b"free");
    assert!(mdat_size_patches(&other).is_empty());
    // A 64-bit size may be cut off.
    let mut cut = mp4_file(100, 4);
    cut[16..20].copy_from_slice(&1u32.to_be_bytes());
    assert!(mdat_size_patches(&cut).is_empty());
    assert!(mdat_size_patches(&[0, 0, 0]).is_empty());
}

#[test]
fn patches_apply_where_a_read_covers_them() {
    let patches = vec![
        Patch { offset: 9, value: 1 },
        Patch { offset: 10, value: 2 },
        Patch { offset: 12, value: 3 },
        Patch { offset: 13, value: 4 },
    ];
    let mut buf = vec![0xFFu8; 5];
    overlay(&mut buf, 10, 3, &patches);
    assert_eq!(buf, vec![2, 0xFF, 3, 0xFF, 0xFF]);
}

#[test]
fn a_scan_asks_for_headers_one_by_one() {
    let f = mp4_file(100, 40);
    let mut scan = BoxScan::new(f.len() as u64);
    assert_eq!(scan.next_header(), Some(0));
    assert!(matches!(scan.on_header(&f[0..16]), ScanStep::Continue));
    assert_eq!(scan.next_header(), Some(16));
    match scan.on_header(&f[16..32]) {
        ScanStep::Done(patches) => assert_eq!(patches, mdat_size_patches(&f)),
        other => panic!("{other:?}"),
    }
    assert_eq!(BoxScan::new(7).next_header(), None);
}

/// A 64-bit box at the start of a file of `len` bytes that claims to have `size` bytes, and
/// behind it an `mdat` box; the size of the latter begins with the last bytes of the former's.
fn short_box(size: u8, len: usize) -> Vec<u8> {
    let mut f = vec![0u8; len];
    f[3] = 1;
    f[4..8].copy_from_slice(b"free");
    f[15] = size;
    let at = size as usize;
    f[at + 4..at + 8].copy_from_slice(b"mdat");
    f
}

fn repaired(f: &[u8]) -> Vec<u8> {
    let mut after = f.to_vec();
    overlay(&mut after, 0, f.len(), &mdat_size_patches(f));
    after
}

#[test]
fn a_repair_rewrites_the_whole_size_field() {
    let f = mp4_file(100, 40);
    let offsets: Vec<u64> = mdat_size_patches(&f).iter().map(|p| p.offset).collect();
    assert_eq!(offsets, vec![16, 17, 18, 19]);
    let after = repaired(&f);
    assert_eq!(after.len(), f.len());
    assert_eq!(&after[..16], &f[..16]);
    assert_eq!(&after[20..], &f[20..]);
}

#[test]
fn a_box_may_end_in_the_first_bytes_of_its_size() {
    // Twelve bytes are declared of the mdat box, and eight are there.
    let f = short_box(12, 20);
    assert_eq!(mdat_size_patches(&f).len(), 4);
    let after = repaired(&f);
    assert_eq!(&after[12..16], &8u32.to_be_bytes());
    assert!(mdat_size_patches(&after).is_empty());
}

#[test]
fn a_box_that_ends_in_its_size_may_lead_to_another_repair() {
    // 3077 bytes are there of the mdat box, which makes the first box end a byte earlier, and
    // the box that is found there lead to offset 24.
    let mut f = short_box(13, 3090);
    let after = repaired(&f);
    assert_eq!(&after[13..17], &3077u32.to_be_bytes());
    assert!(mdat_size_patches(&after).is_empty());
    f[24..28].copy_from_slice(&10_000u32.to_be_bytes());
    f[28..32].copy_from_slice(b"mdat");
    let again = mdat_size_patches(&repaired(&f));
    assert_eq!(again.first().map(|p| p.offset), Some(24));
}
