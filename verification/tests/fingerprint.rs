use dupsonic::fingerprint::{
    audio_stream, compare_fingerprints, durations_compatible, fingerprint_result,
    get_track_duration, is_mp4_container, to_nanoseconds, AudioParams, AudioStream, DecodeAction,
    DecodeEvent, DecodeSession, FingerprintError, FingerprintResult, ReadAction, ReadEvent,
    Similarity, Threshold, TrackInfo,
};

const SECOND: u64 = 1_000_000_000;

fn score(s: Similarity) -> f64 {
    if s.total == 0 {
        0.0
    } else {
        s.matching as f64 / s.total as f64
    }
}

fn secs(s: f64) -> u64 {
    (s * 1e9) as u64
}

fn compatible(a: f64, b: f64) -> bool {
    durations_compatible(secs(a), secs(b))
}

/// A sine of an eighth of full scale.
fn sine(frequency: f64, rate: u32, seconds: u32) -> Vec<i16> {
    (0..rate * seconds)
        .map(|n| {
            let t = n as f64 / rate as f64;
            (4096.0 * (2.0 * std::f64::consts::PI * frequency * t).sin()).round() as i16
        })
        .collect()
}

fn chord(rate: u32, seconds: u32) -> Vec<i16> {
    let c = sine(261.6, rate, seconds);
    let e = sine(329.6, rate, seconds);
    let g = sine(392.0, rate, seconds);
    (0..c.len())
        .map(|n| ((c[n] as i32 + e[n] as i32 + g[n] as i32) / 3) as i16)
        .collect()
}

fn stream(rate: u32, channels: usize, duration_ns: Option<u64>) -> AudioStream {
    AudioStream {
        track_id: 0,
        sample_rate: rate,
        channels,
        duration_ns,
    }
}

fn fingerprint(samples: &[i16], rate: u32, max_secs: u64) -> FingerprintResult {
    let mut session = DecodeSession::start(stream(rate, 1, None), max_secs).unwrap();
    for chunk in samples.chunks(4096) {
        session.on_decoded(DecodeEvent::Buffer(chunk.len(), Some(chunk.to_vec())));
    }
    session.finish().unwrap()
}

#[test]
fn test_compare_identical_fingerprints() {
    let fp = vec![0x12345678, 0xABCDEF01, 0x00FF00FF, 0xDEADBEEF];
    assert_eq!(score(compare_fingerprints(&fp, &fp)), 1.0);
    assert!(compare_fingerprints(&fp, &fp).is_perfect());
}

#[test]
fn test_compare_empty_fingerprints() {
    assert_eq!(score(compare_fingerprints(&[], &[1, 2, 3])), 0.0);
    assert_eq!(score(compare_fingerprints(&[1, 2, 3], &[])), 0.0);
    assert_eq!(score(compare_fingerprints(&[], &[])), 0.0);
}

#[test]
fn test_compare_completely_different() {
    let fp1 = vec![0x00000000; 100];
    let fp2 = vec![0xFFFFFFFF; 100];
    assert_eq!(score(compare_fingerprints(&fp1, &fp2)), 0.0);
}

#[test]
fn test_compare_half_matching() {
    let fp1 = vec![0x0000FFFF; 10];
    let fp2 = vec![0x00000000; 10];
    let score = score(compare_fingerprints(&fp1, &fp2));
    assert!((score - 0.5).abs() < 0.001);
}

#[test]
fn test_compare_different_lengths() {
    let fp1 = vec![0x12345678; 10];
    let fp2 = vec![0x12345678; 5];
    assert_eq!(score(compare_fingerprints(&fp1, &fp2)), 1.0);
}

#[test]
fn comparison_counts_equal_bits() {
    let s = compare_fingerprints(&[0b1011, 0xFFFF_FFFF], &[0b0001, 0xFFFF_FFFE, 7]);
    assert_eq!((s.matching, s.total), (61, 64));
    assert_eq!(s, compare_fingerprints(&[0b0001, 0xFFFF_FFFE, 7], &[0b1011, 0xFFFF_FFFF]));
}

#[test]
fn thresholds_are_inclusive() {
    let s = Similarity { matching: 8, total: 10 };
    assert!(s.reaches(Threshold { numer: 8, denom: 10 }));
    assert!(s.reaches(Threshold { numer: 800, denom: 1000 }));
    assert!(!s.reaches(Threshold { numer: 81, denom: 100 }));
    assert!(s.exceeds(&Similarity { matching: 79, total: 100 }));
    assert!(!s.exceeds(&Similarity { matching: 80, total: 100 }));
    assert!(!Similarity::none().reaches(Threshold { numer: 1, denom: 1000 }));
    assert!(Similarity::none().reaches(Threshold { numer: 0, denom: 1 }));
    assert!(!Similarity::none().is_perfect());
}

#[test]
fn test_durations_compatible_identical() {
    assert!(compatible(180.0, 180.0));
}

#[test]
fn test_durations_compatible_small_diff() {
    assert!(compatible(180.0, 180.5));
    assert!(compatible(180.0, 182.0));
    assert!(compatible(180.0, 183.0));
}

#[test]
fn test_durations_incompatible_large_diff() {
    assert!(!compatible(180.0, 420.0));
    assert!(!compatible(120.0, 300.0));
}

#[test]
fn test_durations_compatible_short_tracks() {
    assert!(compatible(30.0, 33.0));
    assert!(!compatible(30.0, 35.0));
}

#[test]
fn test_durations_compatible_unknown() {
    assert!(compatible(0.0, 180.0));
    assert!(compatible(180.0, 0.0));
}

#[test]
fn test_durations_compatible_long_tracks() {
    assert!(compatible(600.0, 625.0));
    assert!(!compatible(600.0, 650.0));
}

#[test]
fn compatibility_does_not_depend_on_the_order() {
    for (a, b) in [(30.0, 33.0), (30.0, 35.0), (600.0, 625.0), (0.0, 1.0)] {
        assert_eq!(compatible(a, b), compatible(b, a));
    }
}

#[test]
fn test_fingerprint_error_display_includes_details() {
    let errors = [
        FingerprintError::OpenFailed("permission denied".to_string()),
        FingerprintError::UnrecognizedFormat("end of stream".to_string()),
        FingerprintError::NoAudioTrack,
        FingerprintError::DecodeFailed("unsupported codec".to_string()),
        FingerprintError::EmptyFingerprint,
    ];

    let expected_fragments = [
        "could not open file",
        "not a recognized audio format",
        "no audio track found",
        "unsupported or corrupted audio codec",
        "could not extract audio content",
    ];

    for (err, expected) in errors.iter().zip(expected_fragments.iter()) {
        let msg = err.message();
        assert!(
            msg.contains(expected),
            "FingerprintError::{:?} display should contain '{}', got: '{}'",
            err,
            expected,
            msg
        );
    }
}

#[test]
fn error_messages_in_full() {
    assert_eq!(
        FingerprintError::OpenFailed("permission denied".to_string()).message(),
        "could not open file (permission denied)"
    );
    assert_eq!(
        FingerprintError::UnrecognizedFormat("end of stream".to_string()).message(),
        "not a recognized audio format or file is too short/corrupted (end of stream)"
    );
    assert_eq!(
        FingerprintError::NoAudioTrack.message(),
        "no audio track found in file"
    );
    assert_eq!(
        FingerprintError::DecodeFailed("unsupported codec".to_string()).message(),
        "unsupported or corrupted audio codec (unsupported codec)"
    );
    assert_eq!(
        FingerprintError::EmptyFingerprint.message(),
        "could not extract audio content (file may be silence or too short)"
    );
}

#[test]
fn test_fingerprint_audio_file() {
    let result = fingerprint(&sine(440.0, 44100, 10), 44100, 120);
    assert!(!result.fingerprint.is_empty());
    assert!(result.duration_ns > 9 * SECOND && result.duration_ns < 11 * SECOND);
    assert_eq!(result.duration_ns, 10 * SECOND);
}

#[test]
fn test_identical_files_produce_identical_fingerprints() {
    let fp1 = fingerprint(&sine(440.0, 44100, 10), 44100, 120);
    let fp2 = fingerprint(&sine(440.0, 44100, 10), 44100, 120);
    let score = score(compare_fingerprints(&fp1.fingerprint, &fp2.fingerprint));
    assert_eq!(
        score, 1.0,
        "Identical audio should produce identical fingerprints"
    );
}

#[test]
fn test_different_frequencies_produce_different_fingerprints() {
    let fp1 = fingerprint(&sine(440.0, 44100, 10), 44100, 120);
    let fp2 = fingerprint(&chord(44100, 10), 44100, 120);
    let score = score(compare_fingerprints(&fp1.fingerprint, &fp2.fingerprint));
    assert!(
        score < 0.9,
        "Sine vs chord should score differently, got {score}"
    );
}

#[test]
fn test_same_audio_different_sample_rate() {
    let fp1 = fingerprint(&sine(440.0, 48000, 10), 48000, 120);
    let fp2 = fingerprint(&sine(440.0, 44100, 10), 44100, 120);
    let score = score(compare_fingerprints(&fp1.fingerprint, &fp2.fingerprint));
    assert!(
        score > 0.7,
        "Same audio at different sample rates should be similar, got {score}"
    );
}

#[test]
fn test_duration_filter_catches_different_length_tracks() {
    let short = fingerprint(&sine(440.0, 44100, 10), 44100, 120);
    let long = fingerprint(&sine(440.0, 44100, 60), 44100, 120);
    assert!(!durations_compatible(short.duration_ns, long.duration_ns));
}

#[test]
fn audio_behind_the_limit_counts_for_the_duration_only() {
    let mut samples = sine(440.0, 44100, 5);
    let capped = fingerprint(&samples, 44100, 5);
    samples.extend(chord(44100, 5));
    let longer = fingerprint(&samples, 44100, 5);
    assert_eq!(capped.duration_ns, 5 * SECOND);
    assert_eq!(longer.duration_ns, 10 * SECOND);
    assert_eq!(capped.fingerprint, longer.fingerprint);
}

#[test]
fn decoding_stops_once_complete_where_the_duration_is_known() {
    let mut session = DecodeSession::start(stream(44100, 2, Some(7 * SECOND)), 1).unwrap();
    let half = vec![1i16; 44100];
    assert!(matches!(
        session.on_decoded(DecodeEvent::Buffer(22050, Some(half.clone()))),
        DecodeAction::Continue
    ));
    assert!(matches!(
        session.on_decoded(DecodeEvent::Buffer(22050, Some(half))),
        DecodeAction::Finish
    ));
    assert_eq!(session.duration(), 7 * SECOND);
}

#[test]
fn packets_that_do_not_decode_are_passed_over() {
    let mut session = DecodeSession::start(stream(44100, 1, None), 120).unwrap();
    assert!(matches!(
        session.on_decoded(DecodeEvent::Malformed),
        DecodeAction::Continue
    ));
    assert!(matches!(
        session.on_decoded(DecodeEvent::Buffer(0, Some(vec![]))),
        DecodeAction::Continue
    ));
    assert!(matches!(
        session.on_decoded(DecodeEvent::Buffer(100, None)),
        DecodeAction::Continue
    ));
    assert_eq!(session.duration(), 0);
    match session.on_decoded(DecodeEvent::Failed("reset required".to_string())) {
        DecodeAction::Fail(FingerprintError::DecodeFailed(e)) => assert_eq!(e, "reset required"),
        other => panic!("{other:?}"),
    }
    assert!(matches!(
        session.finish(),
        Err(FingerprintError::EmptyFingerprint)
    ));
}

#[test]
fn reading_ends_softly_where_the_container_breaks_off() {
    let session = DecodeSession::start(
        AudioStream {
            track_id: 3,
            sample_rate: 44100,
            channels: 1,
            duration_ns: None,
        },
        120,
    )
    .unwrap();
    assert!(matches!(session.on_read(ReadEvent::Packet(3)), ReadAction::Decode));
    assert!(matches!(session.on_read(ReadEvent::Packet(4)), ReadAction::Skip));
    assert!(matches!(session.on_read(ReadEvent::EndOfStream), ReadAction::Finish));
    assert!(matches!(session.on_read(ReadEvent::UnexpectedEof), ReadAction::Finish));
    assert!(matches!(
        session.on_read(ReadEvent::Malformed("no atom pending read".to_string())),
        ReadAction::Finish
    ));
    match session.on_read(ReadEvent::Failed("seek".to_string())) {
        ReadAction::Fail(FingerprintError::DecodeFailed(e)) => assert_eq!(e, "seek"),
        other => panic!("{other:?}"),
    }
}

#[test]
fn streams_that_cannot_be_fingerprinted_are_refused() {
    match DecodeSession::start(stream(44100, 0, None), 120) {
        Err(FingerprintError::DecodeFailed(e)) => assert_eq!(
            e,
            "fingerprinter start: invalid channel count: 0 (must be >= 1)"
        ),
        _ => panic!("no channels"),
    }
    match DecodeSession::start(stream(1000, 1, None), 120) {
        Err(FingerprintError::DecodeFailed(e)) => assert_eq!(
            e,
            "fingerprinter start: invalid sample rate: 1000 (must be > 1000)"
        ),
        _ => panic!("low sample rate"),
    }
    assert!(DecodeSession::start(stream(1001, 1, None), 120).is_ok());
}

#[test]
fn an_empty_raw_fingerprint_is_an_error() {
    assert!(matches!(
        fingerprint_result(vec![], 5),
        Err(FingerprintError::EmptyFingerprint)
    ));
    let r = fingerprint_result(vec![4, 5], 6).unwrap();
    assert_eq!((r.fingerprint, r.duration_ns), (vec![4, 5], 6));
}

fn track() -> TrackInfo {
    TrackInfo {
        id: 9,
        audio: Some(AudioParams {
            sample_rate: Some(48000),
            channels: None,
            bits_per_sample: Some(16),
        }),
        time_base: Some((1, 1000)),
        duration: Some(2500),
        num_frames: Some(48000),
    }
}

#[test]
fn streams_take_the_time_base_first() {
    assert_eq!(to_nanoseconds(2500, 1, 1000), 2_500_000_000);
    assert_eq!(get_track_duration(&track(), 48000), Some(2_500_000_000));
    let frames = TrackInfo {
        time_base: None,
        ..track()
    };
    assert_eq!(get_track_duration(&frames, 48000), Some(SECOND));
    let nothing = TrackInfo {
        duration: None,
        num_frames: None,
        ..track()
    };
    assert_eq!(get_track_duration(&nothing, 48000), None);
}

#[test]
fn a_stream_needs_a_track_with_a_sample_rate() {
    let s = audio_stream(Some(track())).unwrap();
    assert_eq!(
        (s.track_id, s.sample_rate, s.channels, s.duration_ns),
        (9, 48000, 2, Some(2_500_000_000))
    );
    assert!(matches!(audio_stream(None), Err(FingerprintError::NoAudioTrack)));
    let video = TrackInfo {
        audio: None,
        ..track()
    };
    match audio_stream(Some(video)) {
        Err(FingerprintError::DecodeFailed(e)) => assert_eq!(e, "no audio codec params"),
        other => panic!("{other:?}"),
    }
    let unknown = TrackInfo {
        audio: Some(AudioParams {
            sample_rate: None,
            channels: Some(2),
            bits_per_sample: None,
        }),
        ..track()
    };
    match audio_stream(Some(unknown)) {
        Err(FingerprintError::DecodeFailed(e)) => assert_eq!(e, "unknown sample rate"),
        other => panic!("{other:?}"),
    }
}

#[test]
fn mp4_containers_are_told_by_extension() {
    assert!(is_mp4_container("/m/a.m4a"));
    assert!(is_mp4_container("/m/a.MOV"));
    assert!(!is_mp4_container("/m/a.aac"));
    assert!(!is_mp4_container("/m/m4a"));
}

#[test]
fn a_perfect_score_means_a_common_prefix() {
    assert!(compare_fingerprints(&[1, 2, 3], &[1, 2]).is_perfect());
    assert!(!compare_fingerprints(&[1, 2, 3], &[1, 3]).is_perfect());
    assert!(!compare_fingerprints(&[1, 2, 3], &[]).is_perfect());
}
