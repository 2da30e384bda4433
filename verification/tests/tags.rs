use dupsonic::fingerprint::{AudioParams, TrackInfo};
use dupsonic::tags::{
    mbid_from_text, read_audio_info, read_basic_tags, read_recording_mbid, RawValue, StandardTag,
    SubField, Tag,
};

const MBID: &str = "2f5cb9a6-7a1b-4f0e-9d52-0c6d6d0b7a11";

fn standard(tag: StandardTag) -> Tag {
    Tag {
        std: Some(tag),
        key: "KEY".to_string(),
        value: RawValue::Other,
        sub_fields: vec![],
    }
}

fn ufid(owner: &str, value: RawValue) -> Tag {
    Tag {
        std: None,
        key: "UFID".to_string(),
        value,
        sub_fields: vec![SubField {
            field: "OWNER".to_string(),
            value: RawValue::Text(owner.to_string()),
        }],
    }
}

#[test]
fn recording_ids_come_from_standard_tags() {
    let tags = vec![
        standard(StandardTag::Artist("A".to_string())),
        standard(StandardTag::MusicBrainzTrackId("   ".to_string())),
        standard(StandardTag::MusicBrainzRecordingId(format!(" {MBID} "))),
        standard(StandardTag::MusicBrainzTrackId("later".to_string())),
    ];
    assert_eq!(read_recording_mbid(&tags).as_deref(), Some(MBID));
    assert_eq!(read_recording_mbid(&vec![]), None);
}

#[test]
fn recording_ids_come_from_ufid_frames() {
    assert_eq!(mbid_from_text(&format!(" {MBID}\t\0\0")).as_deref(), Some(MBID));
    assert_eq!(mbid_from_text("x"), None);
    let mut bytes = MBID.as_bytes().to_vec();
    bytes.extend_from_slice(b"\0\0");
    let good = ufid("http://musicbrainz.org", RawValue::Binary(bytes.clone()));
    assert_eq!(read_recording_mbid(&vec![good]).as_deref(), Some(MBID));
    let foreign = ufid("http://example.org", RawValue::Binary(bytes.clone()));
    assert_eq!(read_recording_mbid(&vec![foreign]), None);
    let text = ufid("http://musicbrainz.org", RawValue::Text(MBID.to_string()));
    assert_eq!(read_recording_mbid(&vec![text]), None);
    let short = ufid("http://musicbrainz.org", RawValue::Binary(b"abc".to_vec()));
    assert_eq!(read_recording_mbid(&vec![short]), None);
    // An invalid byte becomes a replacement character of three bytes.
    let mut broken = MBID.as_bytes()[..33].to_vec();
    broken.push(0xFF);
    let lossy = ufid("http://musicbrainz.org", RawValue::Binary(broken));
    assert_eq!(
        read_recording_mbid(&vec![lossy]).as_deref(),
        Some("2f5cb9a6-7a1b-4f0e-9d52-0c6d6d0b7\u{FFFD}")
    );
    let mut named = ufid("http://musicbrainz.org", RawValue::Binary(bytes));
    named.key = "TXXX".to_string();
    assert_eq!(read_recording_mbid(&vec![named]), None);
}

#[test]
fn the_first_artist_and_the_last_title_count() {
    let tags = vec![
        standard(StandardTag::Artist("first".to_string())),
        standard(StandardTag::TrackTitle("first".to_string())),
        standard(StandardTag::Album("first".to_string())),
        standard(StandardTag::Artist("last".to_string())),
        standard(StandardTag::TrackTitle("last".to_string())),
        standard(StandardTag::Album("last".to_string())),
        standard(StandardTag::Other),
    ];
    let basic = read_basic_tags(&tags).unwrap();
    assert_eq!(basic.artist.as_deref(), Some("first"));
    assert_eq!(basic.title.as_deref(), Some("last"));
    assert_eq!(basic.album.as_deref(), Some("last"));
    assert!(read_basic_tags(&vec![standard(StandardTag::Other)]).is_none());
    let one = read_basic_tags(&vec![standard(StandardTag::Album("x".to_string()))]).unwrap();
    assert_eq!((one.artist, one.title, one.album.as_deref()), (None, None, Some("x")));
}

fn track(time_base: Option<(u32, u32)>, duration: Option<u64>) -> TrackInfo {
    TrackInfo {
        id: 0,
        audio: Some(AudioParams {
            sample_rate: Some(44100),
            channels: Some(2),
            bits_per_sample: None,
        }),
        time_base,
        duration,
        num_frames: None,
    }
}

#[test]
fn bitrates_come_from_size_and_duration() {
    let info = |t, size| read_audio_info(&Some(t), size).unwrap();
    let known = info(track(Some((1, 44100)), Some(441_000)), 160_000);
    assert_eq!(known.sample_rate, Some(44100));
    assert_eq!(known.channels, Some(2));
    assert_eq!(known.bits_per_sample, None);
    // 160 kB in ten seconds.
    assert_eq!(known.bitrate_kbps, Some(128));
    assert_eq!(info(track(Some((1, 44100)), Some(0)), 160_000).bitrate_kbps, None);
    assert_eq!(info(track(Some((1, 44100)), Some(441_000)), 0).bitrate_kbps, None);
    assert_eq!(info(track(None, Some(441_000)), 160_000).bitrate_kbps, None);
    assert_eq!(info(track(Some((1, 44100)), None), 160_000).bitrate_kbps, None);
    let video = TrackInfo {
        audio: None,
        ..track(None, None)
    };
    assert_eq!(info(video, 1).sample_rate, None);
    assert!(read_audio_info(&None, 1).is_none());
}
