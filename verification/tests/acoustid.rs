use dupsonic::acoustid::{
    encode_fingerprint, read_answer, AcoustIdClient, Answer, ApiResponse, ApiResult, LookupResult,
    MIN_INTERVAL_NS,
};
use dupsonic::database::FileFingerprint;
use dupsonic::fingerprint::Similarity;
use dupsonic::identify::{
    count_lookups, files_to_identify, lookup_outcome, missing_key_message, next_phase, resolved_by,
    result_lines, split_by_tags, tags_line, LookupOutcome, NextPhase,
};
use dupsonic::matcher::{DuplicateFile, DuplicateGroup, MatchKind};

#[test]
fn requests_keep_their_distance() {
    let mut client = AcoustIdClient::new("key".to_string());
    assert_eq!(client.rate_limit(5), 0);
    client.requested(1_000);
    assert_eq!(client.rate_limit(1_000), 334_000_000);
    assert_eq!(client.rate_limit(1_000 + 300_000_000), 34_000_000);
    assert_eq!(client.rate_limit(1_000 + MIN_INTERVAL_NS), 0);
    assert_eq!(client.rate_limit(999), MIN_INTERVAL_NS);
}

#[test]
fn lookups_name_the_key_and_whole_seconds() {
    let client = AcoustIdClient::new("SECRET".to_string());
    let query = client.query(198_999_999_999, "AQAA");
    let pairs: Vec<(&str, &str)> = query.iter().map(|(k, v)| (k.as_str(), v.as_str())).collect();
    assert_eq!(
        pairs,
        vec![
            ("client", "SECRET"),
            ("meta", "recordings"),
            ("duration", "198"),
            ("fingerprint", "AQAA"),
        ]
    );
}

fn result(id: &str, score_ppb: u64, recordings: Option<&[&str]>) -> ApiResult {
    ApiResult {
        id: id.to_string(),
        score_ppb,
        recordings: recordings.map(|r| r.iter().map(|s| s.to_string()).collect()),
    }
}

fn ok(results: Option<Vec<ApiResult>>) -> ApiResponse {
    ApiResponse {
        status: "ok".to_string(),
        results,
        error: None,
    }
}

#[test]
fn the_best_confident_result_counts() {
    let found = |results: Vec<ApiResult>| match read_answer(&ok(Some(results))) {
        Answer::Match(found) => (found.acoustid, found.recording_mbid, found.score_ppb),
        other => panic!("{other:?}"),
    };
    assert_eq!(
        found(vec![
            result("a", 600_000_000, Some(&["r1"])),
            result("b", 900_000_000, Some(&["r2"])),
        ]),
        ("b".to_string(), Some("r2".to_string()), 900_000_000)
    );
    assert_eq!(
        found(vec![
            result("low", 499_999_999, Some(&["x"])),
            result("just", 500_000_000, Some(&["rec-1", "rec-2"])),
        ]),
        ("just".to_string(), Some("rec-1".to_string()), 500_000_000)
    );
    // The first of several that are as good.
    assert_eq!(
        found(vec![
            result("a", 600_000_000, Some(&["r1"])),
            result("b", 900_000_000, Some(&["r2"])),
            result("c", 900_000_000, Some(&["r3"])),
            result("d", 700_000_000, Some(&["r4"])),
        ]),
        ("b".to_string(), Some("r2".to_string()), 900_000_000)
    );
    for recordings in [None, Some(&[] as &[&str])] {
        match read_answer(&ok(Some(vec![result("a", 900_000_000, recordings)]))) {
            Answer::Match(found) => assert_eq!(found.recording_mbid, None),
            other => panic!("{other:?}"),
        }
    }
    assert!(matches!(read_answer(&ok(None)), Answer::NoMatch));
    assert!(matches!(
        read_answer(&ok(Some(vec![result("low", 1, None)]))),
        Answer::NoMatch
    ));
}

#[test]
fn errors_of_the_service_are_told() {
    let mut response = ok(None);
    response.status = "error".to_string();
    match read_answer(&response) {
        Answer::Failed(message) => assert_eq!(message, "unknown error"),
        other => panic!("{other:?}"),
    }
    response.error = Some("invalid API key".to_string());
    match read_answer(&response) {
        Answer::Failed(message) => assert_eq!(message, "invalid API key"),
        other => panic!("{other:?}"),
    }
}

#[test]
fn fingerprints_are_compressed_and_encoded() {
    assert_eq!(encode_fingerprint(&[]), "AQAAAA==");
    assert_eq!(encode_fingerprint(&[1]), "AQAAAQE=");
    assert_eq!(encode_fingerprint(&[1, 0]), "AQAAAkEA");
    assert_eq!(encode_fingerprint(&[1, 1]), "AQAAAgEA");
}

fn file(path: &str) -> FileFingerprint {
    FileFingerprint {
        path: path.to_string(),
        duration_ns: 0,
        fingerprint: vec![1],
    }
}

fn group(paths: &[&str]) -> DuplicateGroup {
    DuplicateGroup {
        id: "0123456789".to_string(),
        files: paths
            .iter()
            .map(|p| DuplicateFile {
                path: p.to_string(),
                duration_ns: 0,
                match_kind: MatchKind::Similar,
            })
            .collect(),
        similarity: Similarity::none(),
    }
}

#[test]
fn only_files_in_groups_are_identified() {
    let unresolved: Vec<FileFingerprint> = ["/m/z", "/m/a", "/m/k", "/m/b", "/m/c"]
        .iter()
        .map(|p| file(p))
        .collect();
    let groups = vec![group(&["/m/c", "/m//z"]), group(&["/m/k", "/m/q", "/m/c"])];
    assert_eq!(files_to_identify(&unresolved, &Some(groups)), vec![0, 2, 4]);
    assert_eq!(files_to_identify(&unresolved, &Some(vec![])), Vec::<usize>::new());
    assert_eq!(files_to_identify(&unresolved, &None), vec![0, 1, 2, 3, 4]);
}

#[test]
fn tags_come_before_the_lookup() {
    let found = vec![None, Some("mb".to_string()), None];
    let phase = split_by_tags(&found);
    assert_eq!(phase.resolved, vec![1]);
    assert_eq!(phase.remaining, vec![0, 2]);
    assert_eq!(next_phase(0, false), NextPhase::Done);
    assert_eq!(next_phase(2, false), NextPhase::KeyMissing);
    assert_eq!(next_phase(2, true), NextPhase::Lookup);
    assert_eq!(tags_line(1, 2), "  Resolved 1 from tags, 2 remaining");
    assert_eq!(
        missing_key_message(),
        "AcoustID API key required for online lookup.\nSet ACOUSTID_API_KEY env var or pass --api-key.\nRegister at: https://acoustid.org/new-application"
    );
}

#[test]
fn answers_resolve_where_they_have_a_recording() {
    let found = |recording: Option<&str>| {
        Answer::Match(LookupResult {
            acoustid: "aid".to_string(),
            recording_mbid: recording.map(String::from),
            score_ppb: 900_000_000,
        })
    };
    assert_eq!(
        resolved_by(found(Some("rec"))),
        Some(("rec".to_string(), "aid".to_string()))
    );
    assert_eq!(resolved_by(found(None)), None);
    assert_eq!(resolved_by(Answer::NoMatch), None);
    assert_eq!(resolved_by(Answer::Failed("x".to_string())), None);
    assert_eq!(
        result_lines(3, 2, 1, 9),
        vec![
            "  Resolved from tags: 3",
            "  Resolved from AcoustID: 2",
            "  API failures: 1",
            "  Total identified: 5/9",
        ]
    );
}

#[test]
fn four_requests_take_more_than_a_second() {
    let mut client = AcoustIdClient::new("key".to_string());
    let mut now = 0;
    let mut times = Vec::new();
    for _ in 0..4 {
        now += client.rate_limit(now);
        times.push(now);
        client.requested(now);
    }
    assert_eq!(times, vec![0, 334_000_000, 668_000_000, 1_002_000_000]);
}

#[test]
fn lookups_are_counted_by_what_came_of_them() {
    let found = |mbid: Option<&str>| {
        Some(Answer::Match(LookupResult {
            acoustid: "a".to_string(),
            recording_mbid: mbid.map(String::from),
            score_ppb: 900_000_000,
        }))
    };
    let outcomes: Vec<LookupOutcome> = [
        found(Some("r")),
        found(None),
        Some(Answer::NoMatch),
        Some(Answer::Failed("invalid API key".to_string())),
        None,
        None,
        found(Some("s")),
        None,
    ]
    .iter()
    .map(lookup_outcome)
    .collect();
    assert_eq!(
        outcomes,
        vec![
            LookupOutcome::Resolved,
            LookupOutcome::Unresolved,
            LookupOutcome::Unresolved,
            LookupOutcome::Unresolved,
            LookupOutcome::Failed,
            LookupOutcome::Failed,
            LookupOutcome::Resolved,
            LookupOutcome::Failed,
        ]
    );
    let totals = count_lookups(&outcomes);
    assert_eq!((totals.resolved, totals.failures), (2, 3));
}
