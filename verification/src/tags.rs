//! Metadata tags and audio format details, from what the container reader lists.

use vstd::prelude::*;

use crate::fingerprint::TrackInfo;
use crate::text::{byte_length, contains, copy, from_utf8_lossy, same_text, trim, trim_trailing};

verus! {

/// A tag of a standard meaning.
#[derive(Debug, Clone)]
pub enum StandardTag {
    /// The MusicBrainz track ID. In files this is the recording ID.
    MusicBrainzTrackId(String),
    /// The MusicBrainz recording ID.
    MusicBrainzRecordingId(String),
    /// Artist name.
    Artist(String),
    /// Track title.
    TrackTitle(String),
    /// Album name.
    Album(String),
    /// Anything else.
    Other,
}

/// The value of a tag as the file holds it.
#[derive(Debug, Clone)]
pub enum RawValue {
    /// Text.
    Text(String),
    /// Bytes.
    Binary(Vec<u8>),
    /// Anything else.
    Other,
}

/// A named part of a tag.
#[derive(Debug, Clone)]
pub struct SubField {
    /// Its name.
    pub field: String,
    /// Its value.
    pub value: RawValue,
}

/// A tag of a file.
#[derive(Debug, Clone)]
pub struct Tag {
    /// Its standard meaning, where it has one.
    pub std: Option<StandardTag>,
    /// Its key in the file.
    pub key: String,
    /// Its value in the file.
    pub value: RawValue,
    /// Its named parts.
    pub sub_fields: Vec<SubField>,
}

/// Basic tags extracted from a file.
#[derive(Debug, Clone)]
pub struct BasicTags {
    /// Artist name (ID3: TPE1, Vorbis: ARTIST, MP4: ©ART).
    pub artist: Option<String>,
    /// Track title (ID3: TIT2, Vorbis: TITLE, MP4: ©nam).
    pub title: Option<String>,
    /// Album name (ID3: TALB, Vorbis: ALBUM, MP4: ©alb).
    pub album: Option<String>,
}

/// Audio format details for a file.
#[derive(Debug, Clone, Copy, PartialEq, Eq, Structural)]
pub struct AudioInfo {
    /// Sample rate in Hz (e.g. 44100, 48000, 96000).
    pub sample_rate: Option<u32>,
    /// Bits per sample (e.g. 16, 24, 32). `None` for lossy formats.
    pub bits_per_sample: Option<u32>,
    /// Number of audio channels.
    pub channels: Option<usize>,
    /// Average bitrate in kbps.
    pub bitrate_kbps: Option<u32>,
}

// --- Recording IDs ---

/// The recording ID in a standard tag: what is left of its text between white space.
pub open spec fn standard_mbid(tag: StandardTag) -> Option<Seq<char>> {
    let text = match tag {
        StandardTag::MusicBrainzTrackId(id) => crate::text::trimmed(id@),
        StandardTag::MusicBrainzRecordingId(id) => crate::text::trimmed(id@),
        _ => seq![],
    };
    if text.len() > 0 {
        Some(text)
    } else {
        None
    }
}

/// Whether a named part says that MusicBrainz owns the tag.
pub open spec fn names_musicbrainz(part: SubField) -> bool {
    &&& part.field@ == "OWNER"@
    &&& part.value matches RawValue::Text(owner) && crate::text::has_part(
        owner@,
        "musicbrainz.org"@,
    )
}

/// The recording ID in the text of an identifier: it has 36 bytes, and null characters
/// and white space may follow.
pub open spec fn mbid_of_text(text: Seq<char>) -> Option<Seq<char>> {
    let id = crate::text::trimmed(crate::text::without_trailing(text, '\0'));
    if vstd::utf8::encode_utf8(id).len() == 36 {
        Some(id)
    } else {
        None
    }
}

/// The recording ID in `text`.
pub fn mbid_from_text(text: &str) -> (r: Option<String>)
    ensures
        crate::text::opt_view(r) == mbid_of_text(text@),
{
    let id = trim(trim_trailing(text, '\0').as_str());
    if byte_length(id.as_str()) == 36 {
        Some(id)
    } else {
        None
    }
}

/// The recording ID in a unique file identifier that MusicBrainz owns.
pub open spec fn ufid_mbid(tag: Tag) -> Option<Seq<char>> {
    if tag.key@ == "UFID"@ && exists|k: int|
        0 <= k < tag.sub_fields@.len() && names_musicbrainz(#[trigger] tag.sub_fields@[k]) {
        match tag.value {
            RawValue::Binary(bytes) => mbid_of_text(crate::text::utf8_lossy(bytes@)),
            _ => None,
        }
    } else {
        None
    }
}

/// The recording ID in a tag.
pub open spec fn tag_mbid(tag: Tag) -> Option<Seq<char>> {
    match tag.std {
        Some(std) => match standard_mbid(std) {
            Some(id) => Some(id),
            None => ufid_mbid(tag),
        },
        None => ufid_mbid(tag),
    }
}

/// The recording ID of a file: that of its first tag that holds one.
pub open spec fn first_mbid(tags: Seq<Tag>) -> Option<Seq<char>>
    decreases tags.len(),
{
    if tags.len() == 0 {
        None
    } else {
        match tag_mbid(tags[0]) {
            Some(id) => Some(id),
            None => first_mbid(tags.skip(1)),
        }
    }
}

fn read_standard_mbid(tag: &StandardTag) -> (r: Option<String>)
    ensures
        crate::text::opt_view(r) == standard_mbid(*tag),
{
    let text = match tag {
        StandardTag::MusicBrainzTrackId(id) => trim(id.as_str()),
        StandardTag::MusicBrainzRecordingId(id) => trim(id.as_str()),
        _ => String::new(),
    };
    if text_is_empty(text.as_str()) {
        None
    } else {
        Some(text)
    }
}

/// Whether `s` is empty.
fn text_is_empty(s: &str) -> (r: bool)
    ensures
        r == (s@.len() == 0),
{
    proof {
        reveal_strlit("");
        if s@.len() == 0 {
            assert(s@ =~= ""@);
        }
    }
    same_text(s, "")
}

fn is_musicbrainz_owned(parts: &Vec<SubField>) -> (r: bool)
    ensures
        r == exists|k: int| 0 <= k < parts@.len() && names_musicbrainz(#[trigger] parts@[k]),
{
    let mut k: usize = 0;
    while k < parts.len()
        invariant
            k <= parts@.len(),
            forall|i: int| 0 <= i < k ==> !names_musicbrainz(#[trigger] parts@[i]),
        decreases parts@.len() - k,
    {
        let part = &parts[k];
        let named = same_text(part.field.as_str(), "OWNER") && (match &part.value {
            RawValue::Text(owner) => contains(owner.as_str(), "musicbrainz.org"),
            _ => false,
        });
        assert(named == names_musicbrainz(parts@[k as int]));
        if named {
            return true;
        }
        k = k + 1;
    }
    false
}

fn read_ufid_mbid(tag: &Tag) -> (r: Option<String>)
    ensures
        crate::text::opt_view(r) == ufid_mbid(*tag),
{
    if !same_text(tag.key.as_str(), "UFID") || !is_musicbrainz_owned(&tag.sub_fields) {
        return None;
    }
    match &tag.value {
        RawValue::Binary(bytes) => mbid_from_text(from_utf8_lossy(bytes.as_slice()).as_str()),
        _ => None,
    }
}

/// Extracts the MusicBrainz recording ID from the tags of a file.
pub fn read_recording_mbid(tags: &Vec<Tag>) -> (r: Option<String>)
    ensures
        crate::text::opt_view(r) == first_mbid(tags@),
{
    let mut k: usize = 0;
    proof {
        assert(tags@.skip(0) =~= tags@);
    }
    while k < tags.len()
        invariant
            k <= tags@.len(),
            first_mbid(tags@) == first_mbid(tags@.skip(k as int)),
        decreases tags@.len() - k,
    {
        let tag = &tags[k];
        proof {
            assert(tags@.skip(k as int).skip(1) =~= tags@.skip(k + 1));
        }
        if let Some(std) = &tag.std {
            let id = read_standard_mbid(std);
            if id.is_some() {
                return id;
            }
        }
        let id = read_ufid_mbid(tag);
        if id.is_some() {
            return id;
        }
        k = k + 1;
    }
    None
}

// --- Basic tags ---

/// The artist of a file: that of its first artist tag.
pub open spec fn artist_of(tags: Seq<Tag>) -> Option<Seq<char>>
    decreases tags.len(),
{
    if tags.len() == 0 {
        None
    } else {
        match artist_of(tags.drop_last()) {
            Some(artist) => Some(artist),
            None => match tags.last().std {
                Some(StandardTag::Artist(v)) => Some(v@),
                _ => None,
            },
        }
    }
}

/// The title of a file: that of its last title tag.
pub open spec fn title_of(tags: Seq<Tag>) -> Option<Seq<char>>
    decreases tags.len(),
{
    if tags.len() == 0 {
        None
    } else {
        match tags.last().std {
            Some(StandardTag::TrackTitle(v)) => Some(v@),
            _ => title_of(tags.drop_last()),
        }
    }
}

/// The album of a file: that of its last album tag.
pub open spec fn album_of(tags: Seq<Tag>) -> Option<Seq<char>>
    decreases tags.len(),
{
    if tags.len() == 0 {
        None
    } else {
        match tags.last().std {
            Some(StandardTag::Album(v)) => Some(v@),
            _ => album_of(tags.drop_last()),
        }
    }
}

/// Reads artist, title and album from the tags of a file; nothing where it has none of them.
pub fn read_basic_tags(tags: &Vec<Tag>) -> (r: Option<BasicTags>)
    ensures
        r is None <==> artist_of(tags@) is None && title_of(tags@) is None && album_of(
            tags@,
        ) is None,
        r matches Some(t) ==> crate::text::opt_view(t.artist) == artist_of(tags@)
            && crate::text::opt_view(t.title) == title_of(tags@) && crate::text::opt_view(t.album)
            == album_of(tags@),
{
    let mut artist: Option<String> = None;
    let mut title: Option<String> = None;
    let mut album: Option<String> = None;
    let mut k: usize = 0;
    while k < tags.len()
        invariant
            k <= tags@.len(),
            crate::text::opt_view(artist) == artist_of(tags@.take(k as int)),
            crate::text::opt_view(title) == title_of(tags@.take(k as int)),
            crate::text::opt_view(album) == album_of(tags@.take(k as int)),
        decreases tags@.len() - k,
    {
        proof {
            assert(tags@.take(k + 1).drop_last() =~= tags@.take(k as int));
        }
        match &tags[k].std {
            Some(StandardTag::Artist(v)) => {
                if artist.is_none() {
                    artist = Some(copy(v));
                }
            },
            Some(StandardTag::TrackTitle(v)) => {
                title = Some(copy(v));
            },
            Some(StandardTag::Album(v)) => {
                album = Some(copy(v));
            },
            _ => {},
        }
        k = k + 1;
    }
    proof {
        assert(tags@.take(tags@.len() as int) =~= tags@);
    }
    if artist.is_none() && title.is_none() && album.is_none() {
        return None;
    }
    Some(BasicTags { artist, title, album })
}

// --- Audio format ---

/// The average bitrate in whole kbps of `file_size` bytes that last `duration` units
/// of `numer / denom` seconds.
pub open spec fn average_bitrate(
    file_size: int,
    duration: int,
    numer: int,
    denom: int,
) -> Option<int> {
    if file_size > 0 && duration * numer > 0 {
        let kbps = file_size * 8 * denom / (duration * numer * 1000);
        Some(
            if kbps > u32::MAX {
                u32::MAX as int
            } else {
                kbps
            },
        )
    } else {
        None
    }
}

/// The bitrate of a track, where its length is known.
pub open spec fn track_bitrate(track: TrackInfo, file_size: u64) -> Option<int> {
    match (track.time_base, track.duration) {
        (Some(base), Some(duration)) => average_bitrate(
            file_size as int,
            duration as int,
            base.0 as int,
            base.1 as int,
        ),
        _ => None,
    }
}

fn bitrate_of(track: &TrackInfo, file_size: u64) -> (r: Option<u32>)
    ensures
        r is Some == track_bitrate(*track, file_size) is Some,
        r is Some ==> r->0 == track_bitrate(*track, file_size)->0,
{
    match (track.time_base, track.duration) {
        (Some(base), Some(duration)) => {
            proof {
                assert(0 <= duration * base.0 <= 0xffff_ffff_ffff_ffff * 0xffff_ffff)
                    by (nonlinear_arith)
                    requires
                        0 <= duration <= 0xffff_ffff_ffff_ffff,
                        0 <= base.0 <= 0xffff_ffff,
                ;
                assert(0 <= file_size * 8 * base.1 <= 0xffff_ffff_ffff_ffff * 8 * 0xffff_ffff)
                    by (nonlinear_arith)
                    requires
                        0 <= file_size <= 0xffff_ffff_ffff_ffff,
                        0 <= base.1 <= 0xffff_ffff,
                ;
            }
            let length: u128 = duration as u128 * base.0 as u128;
            if length == 0 || file_size == 0 {
                return None;
            }
            let bits: u128 = file_size as u128 * 8;
            let scaled: u128 = bits * base.1 as u128;
            let kbps: u128 = scaled / (length * 1000);
            Some(
                if kbps > u32::MAX as u128 {
                    u32::MAX
                } else {
                    kbps as u32
                },
            )
        },
        _ => None,
    }
}

/// The audio format of the default audio track of a file of `file_size` bytes.
pub fn read_audio_info(track: &Option<TrackInfo>, file_size: u64) -> (r: Option<AudioInfo>)
    ensures
        r is Some == *track is Some,
        track matches Some(t) ==> {
            let info = r->0;
            &&& info.sample_rate == (match t.audio {
                Some(audio) => audio.sample_rate,
                None => None,
            })
            &&& info.bits_per_sample == (match t.audio {
                Some(audio) => audio.bits_per_sample,
                None => None,
            })
            &&& info.channels == (match t.audio {
                Some(audio) => audio.channels,
                None => None,
            })
            &&& info.bitrate_kbps is Some == track_bitrate(*t, file_size) is Some
            &&& info.bitrate_kbps is Some ==> info.bitrate_kbps->0 == track_bitrate(*t, file_size)->0
        },
{
    match track {
        None => None,
        Some(t) => {
            let bitrate_kbps = bitrate_of(t, file_size);
            let (sample_rate, bits_per_sample, channels) = match t.audio {
                Some(audio) => (audio.sample_rate, audio.bits_per_sample, audio.channels),
                None => (None, None, None),
            };
            Some(AudioInfo { sample_rate, bits_per_sample, channels, bitrate_kbps })
        },
    }
}

// --- Laws ---

/// The recording ID of a file is that of the first tag that holds one, and there is none just
/// where no tag does.
pub proof fn law_the_first_recording_id_counts(tags: Seq<Tag>, k: int)
    ensures
        first_mbid(tags) is None <==> forall|j: int|
            0 <= j < tags.len() ==> tag_mbid(#[trigger] tags[j]) is None,
        0 <= k < tags.len() && tag_mbid(tags[k]) is Some && (forall|j: int|
            0 <= j < k ==> tag_mbid(#[trigger] tags[j]) is None) ==> first_mbid(tags) == tag_mbid(
            tags[k],
        ),
    decreases tags.len(),
{
    if tags.len() > 0 {
        let rest = tags.skip(1);
        law_the_first_recording_id_counts(rest, k - 1);
        if forall|j: int| 0 <= j < tags.len() ==> tag_mbid(#[trigger] tags[j]) is None {
            assert(tag_mbid(tags[0]) is None);
            assert forall|j: int| 0 <= j < rest.len() implies tag_mbid(
                #[trigger] rest[j],
            ) is None by {
                assert(rest[j] == tags[j + 1]);
            }
        }
        if first_mbid(tags) is None {
            assert forall|j: int| 0 <= j < tags.len() implies tag_mbid(
                #[trigger] tags[j],
            ) is None by {
                if j > 0 {
                    assert(rest[j - 1] == tags[j]);
                }
            }
        }
        if 0 <= k < tags.len() && tag_mbid(tags[k]) is Some && (forall|j: int|
            0 <= j < k ==> tag_mbid(#[trigger] tags[j]) is None) {
            if k > 0 {
                assert(tag_mbid(tags[0]) is None);
                assert(rest[k - 1] == tags[k]);
                assert forall|j: int| 0 <= j < k - 1 implies tag_mbid(
                    #[trigger] rest[j],
                ) is None by {
                    assert(rest[j] == tags[j + 1]);
                }
            }
        }
    }
}

/// A tag for the recording or the track holds a recording ID, without the white space around
/// it, unless there is nothing else. Whatever else a tag holds, it counts before that.
pub proof fn law_a_standard_tag_holds_the_id(tag: Tag, id: Seq<char>)
    requires
        tag.std matches Some(StandardTag::MusicBrainzTrackId(v)) && v@ == id || (
        tag.std matches Some(StandardTag::MusicBrainzRecordingId(v)) && v@ == id),
    ensures
        crate::text::trimmed(id).len() > 0 ==> tag_mbid(tag) == Some(crate::text::trimmed(id)),
        crate::text::trimmed(id).len() == 0 ==> tag_mbid(tag) == ufid_mbid(tag),
{
}

/// A unique file identifier that MusicBrainz owns holds a recording ID of 36 bytes, with or
/// without null characters behind it.
pub proof fn law_a_file_identifier_holds_the_id(tag: Tag, bytes: Seq<u8>, k: int, id: Seq<char>)
    requires
        tag.std is None || tag.std == Some(StandardTag::Other),
        tag.key@ == "UFID"@,
        tag.value matches RawValue::Binary(b) && b@ == bytes,
        0 <= k < tag.sub_fields@.len(),
        tag.sub_fields@[k].field@ == "OWNER"@,
        tag.sub_fields@[k].value matches RawValue::Text(owner) && crate::text::has_part(
            owner@,
            "musicbrainz.org"@,
        ),
        crate::text::without_trailing(crate::text::utf8_lossy(bytes), '\0') == id,
        crate::text::trimmed(id) == id,
    ensures
        vstd::utf8::encode_utf8(id).len() == 36 ==> tag_mbid(tag) == Some(id),
        vstd::utf8::encode_utf8(id).len() != 36 ==> tag_mbid(tag) is None,
{
    assert(names_musicbrainz(tag.sub_fields@[k]));
}

/// Any other tag holds none: one for something else that is no file identifier, or one that
/// MusicBrainz does not own, or one that is not binary.
pub proof fn law_other_tags_hold_no_id(tag: Tag)
    requires
        tag.std is None || !(tag.std->0 is MusicBrainzTrackId || tag.std->0 is MusicBrainzRecordingId),
        tag.key@ != "UFID"@ || !(tag.value is Binary) || forall|k: int|
            0 <= k < tag.sub_fields@.len() ==> (#[trigger] tag.sub_fields@[k]).field@ != "OWNER"@,
    ensures
        tag_mbid(tag) is None,
{
}

/// The artist is that of the first artist tag.
pub proof fn law_the_first_artist_counts(tags: Seq<Tag>, k: int)
    ensures
        artist_of(tags) is None <==> forall|j: int|
            0 <= j < tags.len() ==> !((#[trigger] tags[j]).std matches Some(StandardTag::Artist(_))),
        0 <= k < tags.len() && (forall|j: int|
            0 <= j < k ==> !((#[trigger] tags[j]).std matches Some(StandardTag::Artist(_)))) ==> (
        tags[k].std matches Some(StandardTag::Artist(v)) ==> artist_of(tags) == Some(v@)),
    decreases tags.len(),
{
    if tags.len() > 0 {
        let before = tags.drop_last();
        law_the_first_artist_counts(before, k);
        let last = tags.len() - 1;
        if forall|j: int|
            0 <= j < tags.len() ==> !((#[trigger] tags[j]).std matches Some(
                StandardTag::Artist(_),
            )) {
            assert forall|j: int| 0 <= j < before.len() implies !((
            #[trigger] before[j]).std matches Some(StandardTag::Artist(_))) by {
                assert(before[j] == tags[j]);
            }
            assert(!(tags[last].std matches Some(StandardTag::Artist(_))));
        }
        if artist_of(tags) is None {
            assert forall|j: int| 0 <= j < tags.len() implies !((
            #[trigger] tags[j]).std matches Some(StandardTag::Artist(_))) by {
                if j < last {
                    assert(before[j] == tags[j]);
                }
            }
        }
        if 0 <= k < tags.len() && (forall|j: int|
            0 <= j < k ==> !((#[trigger] tags[j]).std matches Some(StandardTag::Artist(_)))) {
            assert forall|j: int| 0 <= j < k && j < before.len() implies !((
            #[trigger] before[j]).std matches Some(StandardTag::Artist(_))) by {
                assert(before[j] == tags[j]);
            }
            if k < last {
                assert(before[k] == tags[k]);
            }
        }
    }
}

/// The title is that of the last title tag, and the album that of the last album tag.
pub proof fn law_the_last_title_and_album_count(tags: Seq<Tag>, tag: Tag)
    ensures
        title_of(Seq::empty()) is None,
        album_of(Seq::empty()) is None,
        tag.std matches Some(StandardTag::TrackTitle(v)) ==> title_of(tags.push(tag)) == Some(v@),
        !(tag.std matches Some(StandardTag::TrackTitle(_))) ==> title_of(tags.push(tag))
            == title_of(tags),
        tag.std matches Some(StandardTag::Album(v)) ==> album_of(tags.push(tag)) == Some(v@),
        !(tag.std matches Some(StandardTag::Album(_))) ==> album_of(tags.push(tag)) == album_of(
            tags,
        ),
{
    assert(tags.push(tag).drop_last() =~= tags);
}

/// The bitrate is that of all bits of the file over its length, in whole thousands a second,
/// rounded down. Without a size or a length there is none.
pub proof fn law_the_bitrate_is_bits_over_time(
    track: TrackInfo,
    file_size: u64,
    base: (u32, u32),
    duration: u64,
)
    requires
        track.time_base == Some(base),
        track.duration == Some(duration),
    ensures
        file_size == 0 || duration == 0 || base.0 == 0 <==> track_bitrate(track, file_size) is None,
        track_bitrate(track, file_size) matches Some(kbps) ==> {
            &&& 0 <= kbps <= u32::MAX
            &&& kbps * (duration * base.0 * 1000) <= file_size * 8 * base.1
            &&& kbps < u32::MAX ==> file_size * 8 * base.1 < (kbps + 1) * (duration * base.0 * 1000)
        },
{
    let length = duration * base.0 * 1000;
    let bits = file_size * 8 * base.1;
    assert(duration * base.0 > 0 <==> duration > 0 && base.0 > 0) by (nonlinear_arith)
        requires
            0 <= duration,
            0 <= base.0,
    ;
    assert(bits >= 0) by (nonlinear_arith)
        requires
            bits == file_size * 8 * base.1,
            0 <= file_size,
            0 <= base.1,
    ;
    if duration * base.0 > 0 {
        vstd::arithmetic::div_mod::lemma_fundamental_div_mod(bits, length);
        let q = bits / length;
        let r = bits % length;
        assert(q * length <= bits < (q + 1) * length && q >= 0 && (q > u32::MAX ==> u32::MAX
            * length <= bits)) by (nonlinear_arith)
            requires
                bits == length * q + r,
                0 <= r < length,
                bits >= 0,
        ;
    }
}

/// Without the length of a track there is no bitrate.
pub proof fn law_no_bitrate_without_a_length(track: TrackInfo, file_size: u64)
    requires
        track.time_base is None || track.duration is None,
    ensures
        track_bitrate(track, file_size) is None,
{
}

} // verus!
