use dupsonic::fingerprint::Similarity;
use dupsonic::matcher::{DuplicateFile, DuplicateGroup, MatchKind};
use dupsonic::web::{
    access_denied, action_failed, action_status, default_length, delete_refusal, files_to_restore,
    format_name, ip_allowed, missing_path, normalize_ip, parse_network, requested_action,
    restore_failed, restore_unsupported, scan_paths, FileAction, Ip, Net, Refusal, RestoreStep,
    ScanStatus,
};

fn v4(a: u8, b: u8, c: u8, d: u8) -> Option<Ip> {
    Some(Ip::V4(u32::from_be_bytes([a, b, c, d])))
}

fn v6(groups: [u16; 8]) -> Option<Ip> {
    Some(Ip::V6(groups.iter().fold(0u128, |n, g| n << 16 | *g as u128)))
}

fn nets(list: &[&str]) -> Vec<Net> {
    list.iter().map(|n| parse_network(n).unwrap()).collect()
}

/// The HTTP status that a client gets.
fn status(allowed: &[&str], client: Option<Ip>) -> u16 {
    if ip_allowed(&nets(allowed), client) {
        200
    } else {
        access_denied().status
    }
}

#[test]
fn test_empty_allow_list_permits_all() {
    assert_eq!(status(&[], v4(1, 2, 3, 4)), 200);
    assert_eq!(status(&[], None), 200);
}

#[test]
fn test_allowed_ip_permitted() {
    assert_eq!(status(&["192.168.1.0/24"], v4(192, 168, 1, 50)), 200);
}

#[test]
fn test_denied_ip_gets_403() {
    assert_eq!(status(&["192.168.1.0/24"], v4(10, 0, 0, 1)), 403);
    assert_eq!(access_denied().message, "Access denied");
}

#[test]
fn test_exact_ip_allowed() {
    assert_eq!(status(&["10.0.0.5/32"], v4(10, 0, 0, 5)), 200);
}

#[test]
fn test_exact_ip_denied_other() {
    assert_eq!(status(&["10.0.0.5/32"], v4(10, 0, 0, 6)), 403);
}

#[test]
fn test_ipv6_allowed() {
    assert_eq!(status(&["fd00::/8"], v6([0xfd00, 0, 0, 0, 0, 0, 0, 1])), 200);
}

#[test]
fn test_ipv6_denied() {
    assert_eq!(status(&["fd00::/8"], v6([0x2001, 0xdb8, 0, 0, 0, 0, 0, 1])), 403);
}

#[test]
fn test_ipv4_mapped_ipv6_normalized() {
    // Client connects as ::ffff:192.168.1.50
    let v4_mapped = v6([0, 0, 0, 0, 0, 0xffff, 0xc0a8, 0x0132]);
    assert_eq!(status(&["192.168.1.0/24"], v4_mapped), 200);
    assert_eq!(normalize_ip(v4_mapped.unwrap()), v4(192, 168, 1, 50).unwrap());
}

#[test]
fn test_multiple_ranges_any_match() {
    let allowed = ["10.0.0.0/8", "172.16.0.0/12", "192.168.0.0/16"];
    assert_eq!(status(&allowed, v4(172, 20, 5, 1)), 200);
}

#[test]
fn test_multiple_ranges_none_match() {
    let allowed = ["10.0.0.0/8", "192.168.0.0/16"];
    assert_eq!(status(&allowed, v4(8, 8, 8, 8)), 403);
}

#[test]
fn unknown_clients_are_shut_out_of_a_list() {
    assert_eq!(status(&["0.0.0.0/0"], None), 403);
    assert_eq!(status(&["0.0.0.0/0"], v4(8, 8, 8, 8)), 200);
    assert_eq!(status(&["0.0.0.0/0"], v6([1, 0, 0, 0, 0, 0, 0, 1])), 403);
    assert_eq!(status(&["::/0"], v6([0xffff; 8])), 200);
    assert_eq!(status(&["::/0"], v4(8, 8, 8, 8)), 403);
}

#[test]
fn addresses_alone_are_ranges() {
    assert_eq!(
        parse_network("10.0.0.5").unwrap(),
        Net::V4 { addr: 0x0a000005, prefix: 32 }
    );
    assert_eq!(parse_network("::1").unwrap(), Net::V6 { addr: 1, prefix: 128 });
    assert_eq!(
        parse_network("192.168.1.7/24").unwrap(),
        Net::V4 { addr: 0xc0a80107, prefix: 24 }
    );
    assert_eq!(status(&["::1"], v6([0, 0, 0, 0, 0, 0, 0, 1])), 200);
    assert_eq!(status(&["192.168.1.7/24"], v4(192, 168, 1, 200)), 200);
    for bad in ["", "10.0.0", "10.0.0.5/33", "::1/129", "localhost", "1.2.3.4/"] {
        assert_eq!(
            parse_network(bad).unwrap_err(),
            format!("Invalid IP address or range: '{bad}'")
        );
    }
}

fn refusal(r: Refusal) -> (u16, String) {
    (r.status, r.message)
}

fn strings(list: &[&str]) -> Vec<String> {
    list.iter().map(|s| s.to_string()).collect()
}

#[test]
fn scans_take_the_given_or_the_stored_paths() {
    let paths = scan_paths(false, strings(&["/a"]), strings(&["/b"])).unwrap();
    assert_eq!(paths, vec!["/a"]);
    let paths = scan_paths(false, vec![], strings(&["/b"])).unwrap();
    assert_eq!(paths, vec!["/b"]);
    assert_eq!(
        refusal(scan_paths(false, vec![], vec![]).unwrap_err()),
        (
            400,
            "No paths specified and no previously scanned paths found".to_string()
        )
    );
    assert_eq!(
        refusal(scan_paths(true, strings(&["/a"]), vec![]).unwrap_err()),
        (409, "Scan already in progress".to_string())
    );
    assert!(missing_path(&strings(&["/a", "/b"]), &vec![true, true]).is_none());
    assert_eq!(
        refusal(missing_path(&strings(&["/a", "/b", "/c"]), &vec![true, false, false]).unwrap()),
        (400, "Path does not exist: /b".to_string())
    );
    assert_eq!(default_length(), 120);
}

#[test]
fn the_scan_status_is_told() {
    let idle = ScanStatus::default();
    assert_eq!((idle.scanning, idle.message.as_str()), (false, "Idle"));
    let running = ScanStatus::started(2);
    assert_eq!(
        (running.scanning, running.message.as_str()),
        (true, "Scanning 2 path(s)...")
    );
    let done = ScanStatus::finished(&None);
    assert_eq!((done.scanning, done.message.as_str()), (false, "Scan complete"));
    let failed = ScanStatus::finished(&Some("disk".to_string()));
    assert_eq!(
        (failed.scanning, failed.message.as_str()),
        (false, "Scan failed: disk")
    );
}

fn group(id: &str, paths: &[&str]) -> DuplicateGroup {
    DuplicateGroup {
        id: id.to_string(),
        files: paths
            .iter()
            .map(|p| DuplicateFile {
                path: p.to_string(),
                duration_ns: 0,
                match_kind: MatchKind::Similar,
            })
            .collect(),
        similarity: Similarity::none(),
    }
}

#[test]
fn actions_are_found_in_the_last_results() {
    let groups = vec![group("g1", &["/a", "/b"]), group("g2", &["/c", "/d"])];
    let request = |id: &str, action: &str, index: usize| {
        requested_action(&groups, id, action, index).map_err(refusal)
    };
    assert_eq!(
        request("g2", "delete", 1),
        Ok((FileAction::Delete, "/d".to_string()))
    );
    assert_eq!(
        request("g1", "exclude", 0),
        Ok((FileAction::Exclude, "/a".to_string()))
    );
    assert_eq!(
        request("g3", "delete", 9),
        Err((404, "Group g3 not found".to_string()))
    );
    assert_eq!(
        request("g1", "erase", 2),
        Err((400, "Invalid file index".to_string()))
    );
    assert_eq!(
        request("g1", "erase", 0),
        Err((400, "Unknown action: erase. Use: delete, exclude".to_string()))
    );
}

#[test]
fn actions_can_fail() {
    assert!(delete_refusal("/a", true).is_none());
    assert_eq!(
        refusal(delete_refusal("/a", false).unwrap()),
        (404, "File not found: /a".to_string())
    );
    assert_eq!(
        refusal(action_failed(FileAction::Delete, "full")),
        (500, "Failed to trash: full".to_string())
    );
    assert_eq!(
        refusal(action_failed(FileAction::Exclude, "locked")),
        (500, "Failed to exclude: locked".to_string())
    );
    assert_eq!(action_status(FileAction::Delete), "trashed");
    assert_eq!(action_status(FileAction::Exclude), "excluded");
}

#[test]
fn trashed_files_are_found_by_their_path() {
    let originals = strings(&["/m/a", "/m/b", "/m//a", "/m/A"]);
    assert_eq!(
        files_to_restore(&originals, "/m/a").map_err(refusal),
        Ok(vec![0, 2])
    );
    assert_eq!(
        files_to_restore(&originals, "/m/c").map_err(refusal),
        Err((404, "Not found in trash: /m/c".to_string()))
    );
    assert_eq!(
        refusal(restore_failed(RestoreStep::List, "x")),
        (500, "Failed to list trash: x".to_string())
    );
    assert_eq!(
        refusal(restore_failed(RestoreStep::Restore, "x")),
        (500, "Failed to restore: x".to_string())
    );
    assert_eq!(
        refusal(restore_unsupported("/m/a")),
        (
            501,
            "Restore is not supported on this platform. Restore '/m/a' manually from your system trash."
                .to_string()
        )
    );
}

#[test]
fn formats_are_shown_in_uppercase() {
    assert_eq!(format_name("/m/a.flac"), "FLAC");
    assert_eq!(format_name("/m/a.ß"), "SS");
    assert_eq!(format_name("/m/a"), "?");
}
