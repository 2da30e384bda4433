use dupsonic::order::{key_le, sort_order};
use dupsonic::path::{components, extension, file_name, paths_equal, sort_key};
use dupsonic::text::{
    byte_length, contains, decimal, eq_ignore_ascii_case, hex, is_control, is_whitespace, replace,
    split, strip_prefix, to_ascii_lowercase, trim, trim_trailing, two_digits,
};
use std::path::Path;

#[test]
fn text_functions_agree_with_std() {
    let samples = [
        "",
        " ",
        "abc",
        "  a b\t",
        "\u{3000}x\u{85}",
        "it's {} and {}",
        "ÄÖü\0\0",
        ",a,,b,",
    ];
    for s in samples {
        assert_eq!(trim(s), s.trim());
        assert_eq!(to_ascii_lowercase(s), s.to_ascii_lowercase());
        assert_eq!(split(s, ','), s.split(',').collect::<Vec<_>>());
        assert_eq!(replace(s, "{}", "'x'"), s.replace("{}", "'x'"));
        assert_eq!(replace(s, "'", "'\\''"), s.replace('\'', "'\\''"));
        assert_eq!(trim_trailing(s, '\0'), s.trim_end_matches('\0'));
        assert_eq!(byte_length(s), s.len());
        assert_eq!(contains(s, "b"), s.contains("b"));
        assert_eq!(strip_prefix(s, "it"), s.strip_prefix("it").map(String::from));
    }
    assert!(eq_ignore_ascii_case("BeSt", "best"));
    assert!(!eq_ignore_ascii_case("best ", "best"));
}

#[test]
fn characters_are_classed_as_in_std() {
    for n in 0..0x11_0000u32 {
        if let Some(c) = char::from_u32(n) {
            assert_eq!(is_whitespace(c), c.is_whitespace(), "{n:x}");
            assert_eq!(is_control(c), c.is_control(), "{n:x}");
        }
    }
}

#[test]
fn numbers_are_written_out() {
    for n in [0u128, 7, 10, 123456789, u128::MAX] {
        assert_eq!(decimal(n), n.to_string());
    }
    assert_eq!(two_digits(5), "05");
    assert_eq!(two_digits(59), "59");
    assert_eq!(hex(&[0, 0x0f, 0xab]), "000fab");
}

const PATHS: [&str; 16] = [
    "",
    "/",
    "a",
    "a.mp3",
    "/a/b.flac",
    "/a//b.flac",
    "/a/./b.flac",
    "./a/b.flac",
    "/a/b.flac/",
    "/a/../b",
    "/a/.hidden",
    "/a/x.tar.gz",
    "/a-b/c",
    "/a/..",
    "/a/b.",
    "//a",
];

#[test]
fn paths_are_taken_apart_as_in_std() {
    for p in PATHS {
        let path = Path::new(p);
        assert_eq!(
            components(p),
            path.components()
                .map(|c| c.as_os_str().to_string_lossy().into_owned())
                .collect::<Vec<_>>(),
            "{p}"
        );
        let name = path.file_name().map(|n| n.to_string_lossy().into_owned());
        assert_eq!(file_name(p), name, "{p}");
        let ext = path.extension().map(|e| e.to_string_lossy().into_owned());
        assert_eq!(extension(p), ext, "{p}");
    }
}

#[test]
fn paths_are_compared_as_in_std() {
    for a in PATHS {
        for b in PATHS {
            assert_eq!(paths_equal(a, b), Path::new(a) == Path::new(b), "{a} {b}");
            assert_eq!(
                key_le(&sort_key(a), &sort_key(b)),
                Path::new(a) <= Path::new(b),
                "{a} {b}"
            );
        }
    }
}

#[test]
fn sorting_is_stable() {
    let keys = vec![vec![2], vec![1, 5], vec![2], vec![], vec![1], vec![1, 5]];
    assert_eq!(sort_order(&keys), vec![3, 4, 1, 5, 0, 2]);
    assert_eq!(sort_order(&vec![]), Vec::<usize>::new());
}
