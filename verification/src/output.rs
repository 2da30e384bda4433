//! Output formatting for duplicate results: what is printed in which format, as text.

use std::str::FromStr;

use vstd::prelude::*;

use crate::matcher::{DuplicateFile, DuplicateGroup, MatchKind};
use crate::path::extension;
use crate::tags::{AudioInfo, BasicTags};
use crate::text::{
    append, concat2, concat3, concat5, copy, copy_option, decimal, from_chars, same_text, to_chars,
    to_lowercase, to_uppercase, two_digits,
};

verus! {

/// Output format for duplicate results.
#[derive(Debug, Clone, Copy, PartialEq, Eq, Structural)]
pub enum Format {
    /// Human-readable table output.
    Human,
    /// JSON output.
    Json,
    /// JSON Lines (one JSON object per duplicate group).
    Jsonl,
}

impl Default for Format {
    fn default() -> (r: Format)
        ensures
            r == Format::Human,
    {
        Format::Human
    }
}

/// The format that a lowercase name means.
pub open spec fn named_format(name: Seq<char>) -> Option<Format> {
    if name == "human"@ || name == "text"@ || name == "table"@ {
        Some(Format::Human)
    } else if name == "json"@ {
        Some(Format::Json)
    } else if name == "jsonl"@ || name == "ndjson"@ {
        Some(Format::Jsonl)
    } else {
        None
    }
}

/// The format that `name` means, which is in lowercase.
pub fn format_for_name(name: &str) -> (r: Option<Format>)
    ensures
        r == named_format(name@),
{
    if same_text(name, "human") || same_text(name, "text") || same_text(name, "table") {
        Some(Format::Human)
    } else if same_text(name, "json") {
        Some(Format::Json)
    } else if same_text(name, "jsonl") || same_text(name, "ndjson") {
        Some(Format::Jsonl)
    } else {
        None
    }
}

/// What is said of a name that means no format.
pub open spec fn unknown_format_text(s: Seq<char>) -> Seq<char> {
    "Unknown format '"@ + s + "'. Expected: human, json, jsonl"@
}

impl Format {
    /// Reads the name of a format, in any letter case.
    pub fn parse(s: &str) -> (r: Result<Format, String>)
        ensures
            match named_format(crate::text::unicode_lowercase(s@)) {
                Some(format) => r == Ok::<Format, String>(format),
                None => r is Err && r->Err_0@ == unknown_format_text(s@),
            },
            vstd::utf8::is_ascii_chars(s@) ==> match named_format(crate::text::ascii_lowered(s@)) {
                Some(format) => r == Ok::<Format, String>(format),
                None => r is Err && r->Err_0@ == unknown_format_text(s@),
            },
    {
        match format_for_name(to_lowercase(s).as_str()) {
            Some(format) => Ok(format),
            None => Err(concat3("Unknown format '", s, "'. Expected: human, json, jsonl")),
        }
    }
}

impl FromStr for Format {
    type Err = String;

    fn from_str(s: &str) -> (r: Result<Format, String>)
        ensures
            match named_format(crate::text::unicode_lowercase(s@)) {
                Some(format) => r == Ok::<Format, String>(format),
                None => r is Err && r->Err_0@ == unknown_format_text(s@),
            },
            vstd::utf8::is_ascii_chars(s@) ==> match named_format(crate::text::ascii_lowered(s@)) {
                Some(format) => r == Ok::<Format, String>(format),
                None => r is Err && r->Err_0@ == unknown_format_text(s@),
            },
    {
        Format::parse(s)
    }
}

/// What is printed where there are no duplicates.
pub fn empty_output(format: Format) -> (r: Option<String>)
    ensures
        match format {
            Format::Human => r is Some && r->0@ == "No duplicates found."@,
            Format::Json => r is Some && r->0@ == "[]"@,
            Format::Jsonl => r is None,
        },
{
    match format {
        Format::Human => Some("No duplicates found.".to_owned()),
        Format::Json => Some("[]".to_owned()),
        Format::Jsonl => None,
    }
}

// --- Durations and sizes ---

/// A duration as minutes and seconds.
pub open spec fn duration_text(ns: int) -> Seq<char> {
    let secs = ns / 1_000_000_000;
    crate::text::decimal_text((secs / 60) as nat) + ":"@ + crate::text::two_digit_text(
        (secs % 60) as nat,
    )
}

/// A duration in nanoseconds as minutes and seconds.
pub fn format_duration(ns: u64) -> (r: String)
    ensures
        r@ == duration_text(ns as int),
{
    let secs: u64 = ns / 1_000_000_000;
    concat3(
        decimal((secs / 60) as u128).as_str(),
        ":",
        two_digits((secs % 60) as u128).as_str(),
    )
}

/// A fraction rounded to the nearest whole number, and to the even one between two.
pub open spec fn rounded(numer: int, denom: int) -> int {
    let whole = numer / denom;
    let rest = numer % denom;
    if 2 * rest > denom || (2 * rest == denom && whole % 2 == 1) {
        whole + 1
    } else {
        whole
    }
}

/// The distance of the numbers of 53 bits around `n`.
pub open spec fn spacing(n: int) -> int
    decreases n,
{
    if n < 0x20_0000_0000_0000 {
        1
    } else {
        2 * spacing(n / 2)
    }
}

/// The number of 53 bits that is nearest to `n`.
pub open spec fn to_53_bits(n: int) -> int {
    rounded(n, spacing(n)) * spacing(n)
}

/// `n` units of `1 / unit`, with one digit behind the point.
pub open spec fn tenths_text(n: int, unit: int) -> Seq<char> {
    let tenths = rounded(10 * n, unit);
    crate::text::decimal_text((tenths / 10) as nat) + "."@ + crate::text::decimal_text(
        (tenths % 10) as nat,
    )
}

/// A file size in the largest unit that it reaches.
pub open spec fn size_text(bytes: int) -> Seq<char> {
    let n = to_53_bits(bytes);
    if bytes >= 1_073_741_824 {
        tenths_text(n, 1_073_741_824) + " GB"@
    } else if bytes >= 1_048_576 {
        tenths_text(n, 1_048_576) + " MB"@
    } else if bytes >= 1024 {
        crate::text::decimal_text(rounded(n, 1024) as nat) + " KB"@
    } else {
        crate::text::decimal_text(bytes as nat) + " B"@
    }
}

fn round_fraction(numer: u128, denom: u128) -> (r: u128)
    requires
        0 < denom <= 0xffff_ffff_ffff_ffff,
        numer < 0x1_0000_0000_0000_0000_0000,
    ensures
        r == rounded(numer as int, denom as int),
        r <= numer + 1,
{
    let whole: u128 = numer / denom;
    let rest: u128 = numer % denom;
    proof {
        assert(whole <= numer) by (nonlinear_arith)
            requires
                whole == numer / denom,
                denom >= 1,
                numer >= 0,
        ;
    }
    if 2 * rest > denom || (2 * rest == denom && whole % 2 == 1) {
        whole + 1
    } else {
        whole
    }
}

proof fn lemma_spacing(n: int)
    requires
        0 <= n < 0x1_0000_0000_0000_0000,
    ensures
        1 <= spacing(n) <= 2048,
        n >= 0x20_0000_0000_0000 ==> 2 * spacing(n / 2) == spacing(n),
{
    reveal_with_fuel(spacing, 13);
}

fn spacing_of(n: u64) -> (r: u64)
    ensures
        r == spacing(n as int),
        1 <= r <= 2048,
    decreases n,
{
    proof {
        lemma_spacing(n as int);
    }
    if n < 0x20_0000_0000_0000 {
        1
    } else {
        2 * spacing_of(n / 2)
    }
}

fn nearest_53_bits(n: u64) -> (r: u128)
    ensures
        r == to_53_bits(n as int),
        r <= 0x800_0000_0000_0000_0000,
        n < 0x20_0000_0000_0000 ==> r == n,
{
    let unit: u64 = spacing_of(n);
    let count: u128 = round_fraction(n as u128, unit as u128);
    proof {
        assert(count * unit <= 0x1_0000_0000_0000_0000 * 2048) by (nonlinear_arith)
            requires
                0 <= count <= 0x1_0000_0000_0000_0000,
                0 <= unit <= 2048,
        ;
        if unit == 1 {
            vstd::arithmetic::div_mod::lemma_div_basics(n as int);
            vstd::arithmetic::div_mod::lemma_fundamental_div_mod(n as int, 1);
            vstd::arithmetic::mul::lemma_mul_basics(count as int);
        }
    }
    count * unit as u128
}

fn format_tenths(n: u128, unit: u64, suffix: &str) -> (r: String)
    requires
        unit > 0,
        n <= 0x800_0000_0000_0000_0000,
    ensures
        r@ == tenths_text(n as int, unit as int) + suffix@,
{
    let tenths: u128 = round_fraction(10 * n, unit as u128);
    let number = concat3(decimal(tenths / 10).as_str(), ".", decimal(tenths % 10).as_str());
    concat2(number.as_str(), suffix)
}

/// A file size for people to read.
pub fn format_size(bytes: u64) -> (r: String)
    ensures
        r@ == size_text(bytes as int),
{
    let n: u128 = nearest_53_bits(bytes);
    if bytes >= 1_073_741_824 {
        format_tenths(n, 1_073_741_824, " GB")
    } else if bytes >= 1_048_576 {
        format_tenths(n, 1_048_576, " MB")
    } else if bytes >= 1024 {
        concat2(decimal(round_fraction(n, 1024)).as_str(), " KB")
    } else {
        concat2(decimal(bytes as u128).as_str(), " B")
    }
}

// --- Names ---

/// The extension of a file in lowercase, or `unknown`.
pub fn file_extension(path: &str) -> (r: String)
    ensures
        match crate::path::path_extension(path@) {
            Some(ext) => r@ == crate::text::unicode_lowercase(ext) && (vstd::utf8::is_ascii_chars(
                ext,
            ) ==> r@ == crate::text::ascii_lowered(ext)),
            None => r@ == "unknown"@,
        },
{
    match extension(path) {
        Some(ext) => to_lowercase(ext.as_str()),
        None => "unknown".to_owned(),
    }
}

/// The name of a kind of match in JSON; none where it is not special.
pub open spec fn kind_name(kind: MatchKind) -> Option<Seq<char>> {
    match kind {
        MatchKind::ExactCopy => Some("exact_copy"@),
        MatchKind::SameAudio => Some("same_audio"@),
        MatchKind::Similar => None,
    }
}

/// The name of a kind of match in JSON.
pub fn match_kind_str(kind: MatchKind) -> (r: Option<String>)
    ensures
        crate::text::opt_view(r) == kind_name(kind),
{
    match kind {
        MatchKind::ExactCopy => Some("exact_copy".to_owned()),
        MatchKind::SameAudio => Some("same_audio".to_owned()),
        MatchKind::Similar => None,
    }
}

/// The label of a kind of match; empty where it is not special.
pub open spec fn kind_label(kind: MatchKind) -> Seq<char> {
    match kind {
        MatchKind::ExactCopy => "[exact copy]"@,
        MatchKind::SameAudio => "[same audio]"@,
        MatchKind::Similar => Seq::empty(),
    }
}

/// The label of a file's kind of match.
pub fn format_score_label(file: &DuplicateFile) -> (r: String)
    ensures
        r@ == kind_label(file.match_kind),
{
    match file.match_kind {
        MatchKind::ExactCopy => "[exact copy]".to_owned(),
        MatchKind::SameAudio => "[same audio]".to_owned(),
        MatchKind::Similar => String::new(),
    }
}

// --- Human-readable output ---

/// What stands before a path: its label, where it has one.
pub open spec fn lead_text(kind: MatchKind) -> Seq<char> {
    match kind {
        MatchKind::Similar => "  "@,
        _ => "  "@ + kind_label(kind) + " "@,
    }
}

fn lead(file: &DuplicateFile) -> (r: String)
    ensures
        r@ == lead_text(file.match_kind),
{
    match file.match_kind {
        MatchKind::Similar => "  ".to_owned(),
        _ => concat3("  ", format_score_label(file).as_str(), " "),
    }
}

/// The line of a file.
pub open spec fn file_text(file: DuplicateFile) -> Seq<char> {
    lead_text(file.match_kind) + file.path@ + " ("@ + duration_text(file.duration_ns as int) + ")"@
}

/// The line of a file.
pub fn file_line(file: &DuplicateFile) -> (r: String)
    ensures
        r@ == file_text(*file),
{
    concat5(
        lead(file).as_str(),
        file.path.as_str(),
        " (",
        format_duration(file.duration_ns).as_str(),
        ")",
    )
}

/// The audio format of a file, each part as far as it is known.
pub open spec fn audio_text(info: Option<AudioInfo>) -> Seq<char> {
    match info {
        None => Seq::empty(),
        Some(a) => {
            let rate = match a.sample_rate {
                Some(hz) => crate::text::decimal_text((hz / 1000) as nat) + "kHz"@,
                None => Seq::empty(),
            };
            let bits = match a.bits_per_sample {
                Some(n) => "/"@ + crate::text::decimal_text(n as nat) + "bit"@,
                None => Seq::empty(),
            };
            let bitrate = match a.bitrate_kbps {
                Some(n) => " ~"@ + crate::text::decimal_text(n as nat) + "kbps"@,
                None => Seq::empty(),
            };
            " "@ + rate + bits + bitrate
        },
    }
}

fn audio_detail(info: &Option<AudioInfo>) -> (r: String)
    ensures
        r@ == audio_text(*info),
{
    match info {
        None => String::new(),
        Some(a) => {
            let rate = match a.sample_rate {
                Some(hz) => concat2(decimal((hz / 1000) as u128).as_str(), "kHz"),
                None => String::new(),
            };
            let bits = match a.bits_per_sample {
                Some(n) => concat3("/", decimal(n as u128).as_str(), "bit"),
                None => String::new(),
            };
            let bitrate = match a.bitrate_kbps {
                Some(n) => concat3(" ~", decimal(n as u128).as_str(), "kbps"),
                None => String::new(),
            };
            let mut out = concat3(" ", rate.as_str(), bits.as_str());
            append(&mut out, bitrate.as_str());
            out
        },
    }
}

/// What is known of a file beyond its fingerprint.
#[derive(Debug, Clone)]
pub struct FileDetails {
    /// File size in bytes.
    pub size_bytes: u64,
    /// Audio format, where it could be read.
    pub audio: Option<AudioInfo>,
    /// Tags, where it has some.
    pub tags: Option<BasicTags>,
    /// Recording MBID, where it is resolved.
    pub recording_mbid: Option<String>,
    /// AcoustID, where it is resolved.
    pub acoustid: Option<String>,
}

/// The line of a file with details, given its extension in uppercase.
pub open spec fn detailed_text(
    file: DuplicateFile,
    upper_ext: Seq<char>,
    details: FileDetails,
) -> Seq<char> {
    lead_text(file.match_kind) + file.path@ + " ("@ + duration_text(file.duration_ns as int) + (
    ", "@ + upper_ext + ","@ + audio_text(details.audio) + (" "@ + size_text(
        details.size_bytes as int,
    ) + ")"@))
}

/// The line of a file with details.
pub fn detailed_line(file: &DuplicateFile, upper_ext: &str, details: &FileDetails) -> (r: String)
    ensures
        r@ == detailed_text(*file, upper_ext@, *details),
{
    let size = concat3(" ", format_size(details.size_bytes).as_str(), ")");
    let tail = concat5(
        ", ",
        upper_ext,
        ",",
        audio_detail(&details.audio).as_str(),
        size.as_str(),
    );
    concat5(
        lead(file).as_str(),
        file.path.as_str(),
        " (",
        format_duration(file.duration_ns).as_str(),
        tail.as_str(),
    )
}

/// The extension of a file in uppercase, or `UNKNOWN`.
pub open spec fn upper_extension(path: Seq<char>) -> Seq<char> {
    crate::text::unicode_uppercase(
        match crate::path::path_extension(path) {
            Some(ext) => crate::text::unicode_lowercase(ext),
            None => "unknown"@,
        },
    )
}

/// The first eight characters of an identifier.
pub open spec fn short_id(id: Seq<char>) -> Seq<char> {
    id.take(8)
}

/// The line above a group.
pub open spec fn header_text(group: DuplicateGroup, percent: nat) -> Seq<char> {
    "── Duplicate Group "@ + short_id(group.id@) + " ("@ + crate::text::decimal_text(
        group.files@.len(),
    ) + (" files, "@ + crate::text::decimal_text(percent) + "% similar) ──"@)
}

/// The line above a group, with its similarity in percent.
pub fn header_line(group: &DuplicateGroup, percent: u64) -> (r: String)
    requires
        group.id@.len() >= 8,
    ensures
        r@ == header_text(*group, percent as nat),
{
    let id = to_chars(group.id.as_str());
    let short = from_chars(&id, 0, 8);
    proof {
        assert(id@.subrange(0, 8) =~= id@.take(8));
    }
    let tail = concat3(" files, ", decimal(percent as u128).as_str(), "% similar) ──");
    concat5(
        "── Duplicate Group ",
        short.as_str(),
        " (",
        decimal(group.files.len() as u128).as_str(),
        tail.as_str(),
    )
}

/// How many files are redundant: all but one of each group.
pub open spec fn redundant_files(groups: Seq<DuplicateGroup>) -> int
    decreases groups.len(),
{
    if groups.len() == 0 {
        0
    } else {
        redundant_files(groups.drop_last()) + groups.last().files@.len() - 1
    }
}

/// The closing line.
pub open spec fn summary_text(groups: Seq<DuplicateGroup>) -> Seq<char> {
    "Summary: "@ + crate::text::decimal_text(groups.len()) + " duplicate groups, "@
        + crate::text::decimal_text(redundant_files(groups) as nat) + " redundant files"@
}

/// The closing line.
pub fn summary_line(groups: &Vec<DuplicateGroup>) -> (r: String)
    requires
        forall|g: int| 0 <= g < groups@.len() ==> (#[trigger] groups@[g]).files@.len() > 0,
    ensures
        r@ == summary_text(groups@),
{
    let mut redundant: u128 = 0;
    let mut g: usize = 0;
    while g < groups.len()
        invariant
            g <= groups.len(),
            forall|k: int| 0 <= k < groups@.len() ==> (#[trigger] groups@[k]).files@.len() > 0,
            redundant == redundant_files(groups@.take(g as int)),
            redundant <= g * 0xffff_ffff_ffff_ffff,
        decreases groups@.len() - g,
    {
        proof {
            assert(groups@.take(g + 1).drop_last() =~= groups@.take(g as int));
            assert(g * 0xffff_ffff_ffff_ffff <= 0xffff_ffff_ffff_ffff * 0xffff_ffff_ffff_ffff);
            assert((g + 1) * 0xffff_ffff_ffff_ffff == g * 0xffff_ffff_ffff_ffff
                + 0xffff_ffff_ffff_ffff);
        }
        let files: usize = groups[g].files.len();
        redundant = redundant + (files - 1) as u128;
        g = g + 1;
    }
    proof {
        assert(groups@.take(groups@.len() as int) =~= groups@);
    }
    concat5(
        "Summary: ",
        decimal(groups.len() as u128).as_str(),
        " duplicate groups, ",
        decimal(redundant).as_str(),
        " redundant files",
    )
}

/// The lines of a group: above it, one for each file, and an empty one.
pub open spec fn group_lines(group: DuplicateGroup, percent: nat) -> Seq<Seq<char>> {
    seq![header_text(group, percent)] + Seq::new(
        group.files@.len(),
        |i: int| file_text(group.files@[i]),
    ) + seq![Seq::<char>::empty()]
}

/// The lines of groups, and the closing line.
pub open spec fn report_lines(groups: Seq<DuplicateGroup>, percents: Seq<u64>) -> Seq<Seq<char>>
    decreases groups.len(),
{
    if groups.len() == 0 {
        seq![]
    } else {
        report_lines(groups.drop_last(), percents) + group_lines(
            groups.last(),
            percents[groups.len() - 1] as nat,
        )
    }
}

fn push_group_lines(out: &mut Vec<String>, group: &DuplicateGroup, percent: u64)
    requires
        group.id@.len() >= 8,
    ensures
        crate::text::views(final(out)@) == crate::text::views(old(out)@) + group_lines(
            *group,
            percent as nat,
        ),
{
    let ghost start = out@;
    let ghost head = header_text(*group, percent as nat);
    let ghost texts = Seq::new(group.files@.len(), |i: int| file_text(group.files@[i]));
    out.push(header_line(group, percent));
    proof {
        assert(crate::text::views(out@) =~= crate::text::views(start) + seq![head]);
        assert(texts.take(0) =~= seq![]);
        assert(crate::text::views(start) + seq![head] + texts.take(0) =~= crate::text::views(start)
            + seq![head]);
    }
    let mut i: usize = 0;
    while i < group.files.len()
        invariant
            i <= group.files@.len(),
            texts == Seq::new(group.files@.len(), |i: int| file_text(group.files@[i])),
            crate::text::views(out@) == crate::text::views(start) + seq![head] + texts.take(
                i as int,
            ),
        decreases group.files@.len() - i,
    {
        let ghost before = out@;
        out.push(file_line(&group.files[i]));
        proof {
            assert(texts.take(i + 1) =~= texts.take(i as int).push(
                file_text(group.files@[i as int]),
            ));
            assert(crate::text::views(out@) =~= crate::text::views(before).push(
                file_text(group.files@[i as int]),
            ));
            assert(crate::text::views(out@) =~= crate::text::views(start) + seq![head]
                + texts.take(i + 1));
        }
        i = i + 1;
    }
    let ghost before = out@;
    out.push(String::new());
    proof {
        assert(texts.take(group.files@.len() as int) =~= texts);
        assert(crate::text::views(out@) =~= crate::text::views(before).push(Seq::<char>::empty()));
        assert(crate::text::views(out@) =~= crate::text::views(start) + group_lines(
            *group,
            percent as nat,
        ));
    }
}

/// All lines of human-readable output for some groups, whose similarities in percent are
/// in `percents`.
pub fn human_report(groups: &Vec<DuplicateGroup>, percents: &Vec<u64>) -> (r: Vec<String>)
    requires
        percents@.len() == groups@.len(),
        forall|g: int|
            0 <= g < groups@.len() ==> (#[trigger] groups@[g]).files@.len() > 0
                && groups@[g].id@.len() >= 8,
    ensures
        crate::text::views(r@) == report_lines(groups@, percents@).push(summary_text(groups@)),
{
    let mut out: Vec<String> = Vec::new();
    let mut g: usize = 0;
    proof {
        assert(crate::text::views(out@) =~= report_lines(groups@.take(0), percents@));
    }
    while g < groups.len()
        invariant
            g <= groups@.len(),
            percents@.len() == groups@.len(),
            forall|g: int|
                0 <= g < groups@.len() ==> (#[trigger] groups@[g]).files@.len() > 0
                    && groups@[g].id@.len() >= 8,
            crate::text::views(out@) == report_lines(groups@.take(g as int), percents@),
        decreases groups@.len() - g,
    {
        proof {
            assert(groups@.take(g + 1).drop_last() =~= groups@.take(g as int));
        }
        push_group_lines(&mut out, &groups[g], percents[g]);
        g = g + 1;
    }
    let ghost before = out@;
    out.push(summary_line(groups));
    proof {
        assert(groups@.take(groups@.len() as int) =~= groups@);
        assert(crate::text::views(out@) =~= crate::text::views(before).push(summary_text(groups@)));
    }
    out
}

// --- Output with details ---

/// The lines of a file with details: its own, and one with its MBID where it is resolved.
pub open spec fn detailed_file_lines(file: DuplicateFile, details: FileDetails) -> Seq<Seq<char>> {
    let line = detailed_text(file, upper_extension(file.path@), details);
    match details.recording_mbid {
        Some(mbid) => seq![line, "         MBID: "@ + mbid@],
        None => seq![line],
    }
}

/// The lines of the first `n` files of a group with details.
pub open spec fn detailed_files_lines(
    files: Seq<DuplicateFile>,
    details: Seq<FileDetails>,
    n: int,
) -> Seq<Seq<char>>
    decreases n,
{
    if n <= 0 {
        seq![]
    } else {
        detailed_files_lines(files, details, n - 1) + detailed_file_lines(
            files[n - 1],
            details[n - 1],
        )
    }
}

/// The lines of a group with details.
pub open spec fn detailed_group_lines(
    group: DuplicateGroup,
    percent: nat,
    details: Seq<FileDetails>,
) -> Seq<Seq<char>> {
    seq![header_text(group, percent)] + detailed_files_lines(
        group.files@,
        details,
        group.files@.len() as int,
    ) + seq![Seq::<char>::empty()]
}

/// The lines of groups with details.
pub open spec fn detailed_report_lines(
    groups: Seq<DuplicateGroup>,
    percents: Seq<u64>,
    details: Seq<Vec<FileDetails>>,
) -> Seq<Seq<char>>
    decreases groups.len(),
{
    if groups.len() == 0 {
        seq![]
    } else {
        detailed_report_lines(groups.drop_last(), percents, details) + detailed_group_lines(
            groups.last(),
            percents[groups.len() - 1] as nat,
            details[groups.len() - 1]@,
        )
    }
}

fn push_line(out: &mut Vec<String>, line: String)
    ensures
        crate::text::views(final(out)@) == crate::text::views(old(out)@).push(line@),
{
    let ghost before = out@;
    let ghost text = line@;
    out.push(line);
    proof {
        assert(crate::text::views(out@) =~= crate::text::views(before).push(text));
    }
}

fn push_detailed_file(out: &mut Vec<String>, file: &DuplicateFile, details: &FileDetails)
    ensures
        crate::text::views(final(out)@) == crate::text::views(old(out)@) + detailed_file_lines(
            *file,
            *details,
        ),
{
    let ghost before = crate::text::views(out@);
    let ext = to_uppercase(file_extension(file.path.as_str()).as_str());
    push_line(out, detailed_line(file, ext.as_str(), details));
    match &details.recording_mbid {
        Some(mbid) => {
            push_line(out, concat2("         MBID: ", mbid.as_str()));
        },
        None => {},
    }
    proof {
        assert(crate::text::views(out@) =~= before + detailed_file_lines(*file, *details));
    }
}

fn push_detailed_group(
    out: &mut Vec<String>,
    group: &DuplicateGroup,
    percent: u64,
    details: &Vec<FileDetails>,
)
    requires
        group.id@.len() >= 8,
        details@.len() == group.files@.len(),
    ensures
        crate::text::views(final(out)@) == crate::text::views(old(out)@) + detailed_group_lines(
            *group,
            percent as nat,
            details@,
        ),
{
    let ghost start = crate::text::views(out@);
    let ghost head = header_text(*group, percent as nat);
    push_line(out, header_line(group, percent));
    let mut i: usize = 0;
    proof {
        assert(start.push(head) =~= start + seq![head] + detailed_files_lines(
            group.files@,
            details@,
            0,
        ));
    }
    while i < group.files.len()
        invariant
            i <= group.files@.len(),
            details@.len() == group.files@.len(),
            crate::text::views(out@) == start + seq![head] + detailed_files_lines(
                group.files@,
                details@,
                i as int,
            ),
        decreases group.files@.len() - i,
    {
        push_detailed_file(out, &group.files[i], &details[i]);
        proof {
            assert(crate::text::views(out@) =~= start + seq![head] + detailed_files_lines(
                group.files@,
                details@,
                i + 1,
            ));
        }
        i = i + 1;
    }
    push_line(out, String::new());
    proof {
        assert(crate::text::views(out@) =~= start + detailed_group_lines(
            *group,
            percent as nat,
            details@,
        ));
    }
}

/// All lines of human-readable output with details.
pub fn human_detailed_report(
    groups: &Vec<DuplicateGroup>,
    percents: &Vec<u64>,
    details: &Vec<Vec<FileDetails>>,
) -> (r: Vec<String>)
    requires
        percents@.len() == groups@.len(),
        details@.len() == groups@.len(),
        forall|g: int|
            0 <= g < groups@.len() ==> (#[trigger] groups@[g]).files@.len() > 0
                && groups@[g].id@.len() >= 8 && details@[g]@.len() == groups@[g].files@.len(),
    ensures
        crate::text::views(r@) == detailed_report_lines(groups@, percents@, details@).push(
            summary_text(groups@),
        ),
{
    let mut out: Vec<String> = Vec::new();
    let mut g: usize = 0;
    proof {
        assert(crate::text::views(out@) =~= detailed_report_lines(
            groups@.take(0),
            percents@,
            details@,
        ));
    }
    while g < groups.len()
        invariant
            g <= groups@.len(),
            percents@.len() == groups@.len(),
            details@.len() == groups@.len(),
            forall|g: int|
                0 <= g < groups@.len() ==> (#[trigger] groups@[g]).files@.len() > 0
                    && groups@[g].id@.len() >= 8 && details@[g]@.len() == groups@[g].files@.len(),
            crate::text::views(out@) == detailed_report_lines(
                groups@.take(g as int),
                percents@,
                details@,
            ),
        decreases groups@.len() - g,
    {
        proof {
            assert(groups@.take(g + 1).drop_last() =~= groups@.take(g as int));
        }
        push_detailed_group(&mut out, &groups[g], percents[g], &details[g]);
        g = g + 1;
    }
    proof {
        assert(groups@.take(groups@.len() as int) =~= groups@);
    }
    push_line(&mut out, summary_line(groups));
    out
}

/// A file as it is written in JSON with details.
#[derive(Debug, Clone)]
pub struct DetailedFile {
    /// Absolute path.
    pub path: String,
    /// Full duration in nanoseconds.
    pub duration_ns: u64,
    /// Name of the kind of match, for perfect matches.
    pub match_kind: Option<String>,
    /// Extension in lowercase.
    pub format: String,
    /// File size in bytes.
    pub size_bytes: u64,
    /// Sample rate in Hz.
    pub sample_rate: Option<u32>,
    /// Bits per sample.
    pub bits_per_sample: Option<u32>,
    /// Number of channels.
    pub channels: Option<usize>,
    /// Average bitrate in kbps.
    pub bitrate_kbps: Option<u32>,
    /// Recording MBID.
    pub recording_mbid: Option<String>,
    /// AcoustID.
    pub acoustid: Option<String>,
    /// Tags.
    pub tags: Option<BasicTags>,
}

/// A group as it is written in JSON with details.
#[derive(Debug, Clone)]
pub struct DetailedGroup {
    /// Identifier.
    pub id: String,
    /// The recording MBID that all files share.
    pub recording_mbid: Option<String>,
    /// The files.
    pub files: Vec<DetailedFile>,
}

/// `a` and `b` hold the same tags.
pub open spec fn same_tags(a: Option<BasicTags>, b: Option<BasicTags>) -> bool {
    match (a, b) {
        (Some(x), Some(y)) => crate::text::opt_view(x.artist) == crate::text::opt_view(y.artist)
            && crate::text::opt_view(x.title) == crate::text::opt_view(y.title)
            && crate::text::opt_view(x.album) == crate::text::opt_view(y.album),
        (None, None) => true,
        _ => false,
    }
}

/// `shown` has the details of `file`.
pub open spec fn is_detailed(
    shown: DetailedFile,
    file: DuplicateFile,
    details: FileDetails,
) -> bool {
    &&& shown.path@ == file.path@
    &&& shown.duration_ns == file.duration_ns
    &&& crate::text::opt_view(shown.match_kind) == kind_name(file.match_kind)
    &&& shown.format@ == (match crate::path::path_extension(file.path@) {
        Some(ext) => crate::text::unicode_lowercase(ext),
        None => "unknown"@,
    })
    &&& shown.size_bytes == details.size_bytes
    &&& shown.sample_rate == (match details.audio {
        Some(a) => a.sample_rate,
        None => None,
    })
    &&& shown.bits_per_sample == (match details.audio {
        Some(a) => a.bits_per_sample,
        None => None,
    })
    &&& shown.channels == (match details.audio {
        Some(a) => a.channels,
        None => None,
    })
    &&& shown.bitrate_kbps == (match details.audio {
        Some(a) => a.bitrate_kbps,
        None => None,
    })
    &&& crate::text::opt_view(shown.recording_mbid) == crate::text::opt_view(
        details.recording_mbid,
    )
    &&& crate::text::opt_view(shown.acoustid) == crate::text::opt_view(details.acoustid)
    &&& same_tags(shown.tags, details.tags)
}

fn copy_tags(tags: &Option<BasicTags>) -> (r: Option<BasicTags>)
    ensures
        same_tags(r, *tags),
{
    match tags {
        Some(t) => Some(
            BasicTags {
                artist: copy_option(&t.artist),
                title: copy_option(&t.title),
                album: copy_option(&t.album),
            },
        ),
        None => None,
    }
}

fn detailed_file(file: &DuplicateFile, details: &FileDetails) -> (r: DetailedFile)
    ensures
        is_detailed(r, *file, *details),
{
    let (sample_rate, bits_per_sample, channels, bitrate_kbps) = match &details.audio {
        Some(a) => (a.sample_rate, a.bits_per_sample, a.channels, a.bitrate_kbps),
        None => (None, None, None, None),
    };
    DetailedFile {
        path: copy(&file.path),
        duration_ns: file.duration_ns,
        match_kind: match_kind_str(file.match_kind),
        format: file_extension(file.path.as_str()),
        size_bytes: details.size_bytes,
        sample_rate,
        bits_per_sample,
        channels,
        bitrate_kbps,
        recording_mbid: copy_option(&details.recording_mbid),
        acoustid: copy_option(&details.acoustid),
        tags: copy_tags(&details.tags),
    }
}

/// The recording MBID that all files of a group share; none where one lacks it or
/// they differ.
pub open spec fn shared_mbid(details: Seq<FileDetails>) -> Option<Seq<char>> {
    if details.len() > 0 && (forall|i: int|
        0 <= i < details.len() ==> crate::text::opt_view((#[trigger] details[i]).recording_mbid)
            == crate::text::opt_view(details[0].recording_mbid)) {
        crate::text::opt_view(details[0].recording_mbid)
    } else {
        None
    }
}

fn common_mbid(details: &Vec<FileDetails>) -> (r: Option<String>)
    ensures
        crate::text::opt_view(r) == shared_mbid(details@),
{
    if details.len() == 0 {
        return None;
    }
    let first = match &details[0].recording_mbid {
        Some(id) => copy(id),
        None => {
            return None;
        },
    };
    let mut i: usize = 0;
    while i < details.len()
        invariant
            i <= details@.len(),
            details@.len() > 0,
            crate::text::opt_view(details@[0].recording_mbid) == Some(first@),
            forall|k: int|
                0 <= k < i ==> crate::text::opt_view((#[trigger] details@[k]).recording_mbid)
                    == Some(first@),
        decreases details@.len() - i,
    {
        let same = match &details[i].recording_mbid {
            Some(id) => same_text(id.as_str(), first.as_str()),
            None => false,
        };
        if !same {
            assert(crate::text::opt_view(details@[i as int].recording_mbid)
                != crate::text::opt_view(details@[0].recording_mbid));
            return None;
        }
        i = i + 1;
    }
    Some(first)
}

/// Builds the detailed form of a group, with the MBID that all files share promoted to it.
pub fn build_detailed_group(group: &DuplicateGroup, details: &Vec<FileDetails>) -> (r: DetailedGroup)
    requires
        details@.len() == group.files@.len(),
    ensures
        r.id@ == group.id@,
        crate::text::opt_view(r.recording_mbid) == shared_mbid(details@),
        r.files@.len() == group.files@.len(),
        forall|i: int|
            0 <= i < r.files@.len() ==> is_detailed(
                #[trigger] r.files@[i],
                group.files@[i],
                details@[i],
            ),
{
    let mut files: Vec<DetailedFile> = Vec::new();
    let mut i: usize = 0;
    while i < group.files.len()
        invariant
            i <= group.files@.len(),
            details@.len() == group.files@.len(),
            files@.len() == i,
            forall|k: int|
                0 <= k < i ==> is_detailed(#[trigger] files@[k], group.files@[k], details@[k]),
        decreases group.files@.len() - i,
    {
        files.push(detailed_file(&group.files[i], &details[i]));
        i = i + 1;
    }
    DetailedGroup { id: copy(&group.id), recording_mbid: common_mbid(details), files }
}

// --- Laws ---

/// Each format is called by its names, and nothing else calls one.
pub proof fn law_formats_have_these_names(name: Seq<char>)
    ensures
        named_format(name) == Some(Format::Human) <==> name == seq!['h', 'u', 'm', 'a', 'n']
            || name == seq!['t', 'e', 'x', 't'] || name == seq!['t', 'a', 'b', 'l', 'e'],
        named_format(name) == Some(Format::Json) <==> name == seq!['j', 's', 'o', 'n'],
        named_format(name) == Some(Format::Jsonl) <==> name == seq!['j', 's', 'o', 'n', 'l']
            || name == seq!['n', 'd', 'j', 's', 'o', 'n'],
{
    reveal_strlit("human");
    reveal_strlit("text");
    reveal_strlit("table");
    reveal_strlit("json");
    reveal_strlit("jsonl");
    reveal_strlit("ndjson");
    assert("human"@ =~= seq!['h', 'u', 'm', 'a', 'n']);
    assert("text"@ =~= seq!['t', 'e', 'x', 't']);
    assert("table"@ =~= seq!['t', 'a', 'b', 'l', 'e']);
    assert("json"@ =~= seq!['j', 's', 'o', 'n']);
    assert("jsonl"@ =~= seq!['j', 's', 'o', 'n', 'l']);
    assert("ndjson"@ =~= seq!['n', 'd', 'j', 's', 'o', 'n']);
    assert("human"@[0] == 'h' && "text"@[0] == 't' && "table"@[0] == 't' && "json"@[0] == 'j'
        && "jsonl"@[0] == 'j' && "ndjson"@[0] == 'n');
    assert("json"@.len() == 4 && "jsonl"@.len() == 5);
}

/// A duration of `m` minutes, `s` seconds below a minute and a part of a second is shown
/// as the minutes, a colon and the two digits of the seconds.
pub proof fn law_minutes_and_seconds_are_shown(m: nat, s: nat, part: nat)
    requires
        s < 60,
        part < 1_000_000_000,
    ensures
        duration_text(((60 * m + s) * 1_000_000_000 + part) as int) == crate::text::decimal_text(m) + seq![
            ':',
            (48 + s / 10) as u8 as char,
            (48 + s % 10) as u8 as char,
        ],
{
    let ns: int = ((60 * m + s) * 1_000_000_000 + part) as int;
    let secs: int = ns / 1_000_000_000;
    assert(secs == 60 * m + s);
    assert(secs / 60 == m && secs % 60 == s);
    reveal_strlit(":");
    reveal_with_fuel(crate::text::decimal_text, 3);
    let tail = crate::text::two_digit_text(s);
    assert(tail =~= seq![(48 + s / 10) as u8 as char, (48 + s % 10) as u8 as char]);
    assert(":"@ =~= seq![':']);
    assert(duration_text(ns) =~= crate::text::decimal_text(m) + seq![
        ':',
        (48 + s / 10) as u8 as char,
        (48 + s % 10) as u8 as char,
    ]);
}

/// Rounding goes to a nearest whole number, and to the even one of two that are as near.
pub proof fn law_rounding_goes_to_the_nearest(numer: int, denom: int)
    requires
        denom > 0,
    ensures
        -denom <= 2 * (numer - rounded(numer, denom) * denom) <= denom,
        2 * (numer - rounded(numer, denom) * denom) == denom || 2 * (numer - rounded(numer, denom)
            * denom) == -denom ==> rounded(numer, denom) % 2 == 0,
{
    let whole = numer / denom;
    vstd::arithmetic::div_mod::lemma_fundamental_div_mod(numer, denom);
    vstd::arithmetic::div_mod::lemma_mod_bound(numer, denom);
    vstd::arithmetic::mul::lemma_mul_is_commutative(denom, whole);
    vstd::arithmetic::mul::lemma_mul_is_distributive_add_other_way(denom, whole, 1);
}

proof fn lemma_spacing_is_small(n: int)
    requires
        n >= 0x20_0000_0000_0000,
    ensures
        spacing(n) >= 1,
        spacing(n) * 0x10_0000_0000_0000 <= n,
    decreases n,
{
    reveal_with_fuel(spacing, 2);
    if n / 2 >= 0x20_0000_0000_0000 {
        lemma_spacing_is_small(n / 2);
    }
}

/// A size is taken to 53 bits before it is shown: below 2^53 it stays as it is, and
/// above it changes by no more than one part in 2^53.
pub proof fn law_sizes_are_kept_to_53_bits(n: int)
    requires
        n >= 0,
    ensures
        n < 0x20_0000_0000_0000 ==> to_53_bits(n) == n,
        -n <= (to_53_bits(n) - n) * 0x20_0000_0000_0000 <= n,
{
    if n >= 0x20_0000_0000_0000 {
        lemma_spacing_is_small(n);
        law_rounding_goes_to_the_nearest(n, spacing(n));
    }
}

/// A size is shown in the largest of four units that it reaches: in whole bytes, in
/// kilobytes of 1024 bytes to the nearest one, and in megabytes and gigabytes to the
/// nearest tenth. What is returned is the number of kilobytes or of tenths.
pub proof fn law_a_size_is_shown_in_the_largest_unit(bytes: nat) -> (count: int)
    ensures
        bytes < 1024 ==> size_text(bytes as int) == crate::text::decimal_text(bytes) + seq![
            ' ',
            'B',
        ],
        1024 <= bytes < 1024 * 1024 ==> {
            &&& size_text(bytes as int) == crate::text::decimal_text(count as nat) + seq![
                ' ',
                'K',
                'B',
            ]
            &&& -1024 <= 2 * (bytes - 1024 * count) <= 1024
            &&& (2 * (bytes - 1024 * count) == 1024 || 2 * (bytes - 1024 * count) == -1024)
                ==> count % 2 == 0
        },
        1024 * 1024 <= bytes < 1024 * 1024 * 1024 ==> {
            let rest = 2 * (10 * bytes - 1024 * 1024 * count);
            &&& size_text(bytes as int) == crate::text::decimal_text((count / 10) as nat) + seq![
                '.',
            ] + crate::text::decimal_text((count % 10) as nat) + seq![' ', 'M', 'B']
            &&& -1024 * 1024 <= rest <= 1024 * 1024
            &&& (rest == 1024 * 1024 || rest == -1024 * 1024) ==> count % 2 == 0
        },
        1024 * 1024 * 1024 <= bytes ==> {
            let rest = 2 * (10 * to_53_bits(bytes as int) - 1024 * 1024 * 1024 * count);
            &&& size_text(bytes as int) == crate::text::decimal_text((count / 10) as nat) + seq![
                '.',
            ] + crate::text::decimal_text((count % 10) as nat) + seq![' ', 'G', 'B']
            &&& -1024 * 1024 * 1024 <= rest <= 1024 * 1024 * 1024
            &&& (rest == 1024 * 1024 * 1024 || rest == -1024 * 1024 * 1024) ==> count % 2 == 0
        },
{
    let n = to_53_bits(bytes as int);
    law_sizes_are_kept_to_53_bits(bytes as int);
    reveal_strlit(" B");
    reveal_strlit(" KB");
    reveal_strlit(" MB");
    reveal_strlit(" GB");
    reveal_strlit(".");
    assert(" B"@ =~= seq![' ', 'B']);
    assert(" KB"@ =~= seq![' ', 'K', 'B']);
    assert(" MB"@ =~= seq![' ', 'M', 'B']);
    assert(" GB"@ =~= seq![' ', 'G', 'B']);
    assert("."@ =~= seq!['.']);
    if bytes < 1024 * 1024 {
        law_rounding_goes_to_the_nearest(n, 1024);
        rounded(n, 1024)
    } else if bytes < 1024 * 1024 * 1024 {
        law_rounding_goes_to_the_nearest(10 * n, 1_048_576);
        rounded(10 * n, 1_048_576)
    } else {
        law_rounding_goes_to_the_nearest(10 * n, 1_073_741_824);
        rounded(10 * n, 1_073_741_824)
    }
}

/// The line of a file holds its label, where it has one, its path and its duration.
pub proof fn law_a_line_shows_the_path_and_the_duration(file: DuplicateFile)
    ensures
        file.match_kind is Similar ==> file_text(file) == "  "@ + file.path@ + " ("@
            + duration_text(file.duration_ns as int) + ")"@,
        file.match_kind is ExactCopy ==> file_text(file) == "  "@ + "[exact copy]"@ + " "@
            + file.path@ + " ("@ + duration_text(file.duration_ns as int) + ")"@,
        file.match_kind is SameAudio ==> file_text(file) == "  "@ + "[same audio]"@ + " "@
            + file.path@ + " ("@ + duration_text(file.duration_ns as int) + ")"@,
        kind_name(file.match_kind) == match file.match_kind {
            MatchKind::Similar => None,
            MatchKind::ExactCopy => Some("exact_copy"@),
            MatchKind::SameAudio => Some("same_audio"@),
        },
{
}

/// With details a line shows, behind the duration, the extension, what is known of the
/// audio, and the size.
pub proof fn law_a_detailed_line_shows_more(
    file: DuplicateFile,
    upper_ext: Seq<char>,
    details: FileDetails,
    audio: AudioInfo,
)
    requires
        details.audio == Some(audio),
    ensures
        detailed_text(file, upper_ext, details) == file_text(file).drop_last() + ", "@ + upper_ext
            + ", "@ + (if audio.sample_rate is Some {
            crate::text::decimal_text((audio.sample_rate->0 / 1000) as nat) + "kHz"@
        } else {
            seq![]
        }) + (if audio.bits_per_sample is Some {
            "/"@ + crate::text::decimal_text(audio.bits_per_sample->0 as nat) + "bit"@
        } else {
            seq![]
        }) + (if audio.bitrate_kbps is Some {
            " ~"@ + crate::text::decimal_text(audio.bitrate_kbps->0 as nat) + "kbps"@
        } else {
            seq![]
        }) + " "@ + size_text(details.size_bytes as int) + ")"@,
{
    reveal_strlit(")");
    reveal_strlit(", ");
    reveal_strlit(",");
    reveal_strlit(" ");
    let start = lead_text(file.match_kind) + file.path@ + " ("@ + duration_text(
        file.duration_ns as int,
    );
    assert(file_text(file).drop_last() =~= start);
    assert(", "@ =~= ","@ + " "@);
    let rate = if audio.sample_rate is Some {
        crate::text::decimal_text((audio.sample_rate->0 / 1000) as nat) + "kHz"@
    } else {
        seq![]
    };
    let bits = if audio.bits_per_sample is Some {
        "/"@ + crate::text::decimal_text(audio.bits_per_sample->0 as nat) + "bit"@
    } else {
        seq![]
    };
    let bitrate = if audio.bitrate_kbps is Some {
        " ~"@ + crate::text::decimal_text(audio.bitrate_kbps->0 as nat) + "kbps"@
    } else {
        seq![]
    };
    let size = size_text(details.size_bytes as int);
    assert(audio_text(details.audio) =~= " "@ + rate + bits + bitrate);
    assert(detailed_text(file, upper_ext, details) =~= start + ", "@ + upper_ext + ", "@ + rate
        + bits + bitrate + " "@ + size + ")"@);
}

/// Where nothing is known of the audio, a line with details leaves it out.
pub proof fn law_unknown_audio_is_left_out(
    file: DuplicateFile,
    upper_ext: Seq<char>,
    details: FileDetails,
)
    requires
        details.audio is None,
    ensures
        detailed_text(file, upper_ext, details) == file_text(file).drop_last() + ", "@ + upper_ext
            + ", "@ + size_text(details.size_bytes as int) + ")"@,
{
    reveal_strlit(")");
    reveal_strlit(", ");
    reveal_strlit(",");
    reveal_strlit(" ");
    let start = lead_text(file.match_kind) + file.path@ + " ("@ + duration_text(
        file.duration_ns as int,
    );
    assert(file_text(file).drop_last() =~= start);
    assert(", "@ =~= ","@ + " "@);
    assert(detailed_text(file, upper_ext, details) =~= start + ", "@ + upper_ext + ", "@
        + size_text(details.size_bytes as int) + ")"@);
}

/// One more group makes all but one of its files redundant.
pub proof fn law_one_file_of_each_group_is_not_redundant(
    groups: Seq<DuplicateGroup>,
    group: DuplicateGroup,
)
    ensures
        redundant_files(Seq::empty()) == 0,
        redundant_files(groups.push(group)) - redundant_files(groups) == group.files@.len() - 1,
        summary_text(groups) == "Summary: "@ + crate::text::decimal_text(groups.len())
            + " duplicate groups, "@ + crate::text::decimal_text(redundant_files(groups) as nat)
            + " redundant files"@,
{
    assert(groups.push(group).drop_last() =~= groups);
}

/// A group is shown as a line with the start of its identifier, how many files it has
/// and how similar they are, a line for each file, in order, and an empty line.
pub proof fn law_a_group_is_shown_file_by_file(group: DuplicateGroup, percent: nat)
    requires
        group.id@.len() >= 8,
    ensures
        ({
            let lines = group_lines(group, percent);
            let n = group.files@.len();
            &&& lines.len() == n + 2
            &&& lines[0] == "── Duplicate Group "@ + group.id@.subrange(0, 8) + " ("@
                + crate::text::decimal_text(n) + " files, "@ + crate::text::decimal_text(percent)
                + "% similar) ──"@
            &&& forall|i: int|
                0 <= i < n ==> #[trigger] lines[i + 1] == file_text(group.files@[i])
            &&& lines[n as int + 1] == Seq::<char>::empty()
        }),
{
    let n = group.files@.len();
    assert(group.id@.take(8) =~= group.id@.subrange(0, 8));
    assert(header_text(group, percent) =~= "── Duplicate Group "@ + group.id@.subrange(0, 8) + " ("@
        + crate::text::decimal_text(n) + " files, "@ + crate::text::decimal_text(percent)
        + "% similar) ──"@);
}

/// Groups are shown one behind the other, each with its own similarity.
pub proof fn law_groups_are_shown_in_order(
    groups: Seq<DuplicateGroup>,
    group: DuplicateGroup,
    percents: Seq<u64>,
)
    requires
        percents.len() > groups.len(),
    ensures
        report_lines(Seq::empty(), percents) == Seq::<Seq<char>>::empty(),
        report_lines(groups.push(group), percents) == report_lines(groups, percents) + group_lines(
            group,
            percents[groups.len() as int] as nat,
        ),
{
    assert(groups.push(group).drop_last() =~= groups);
}

/// With details, groups are shown one behind the other too, each with its own
/// similarity and details.
pub proof fn law_detailed_groups_are_shown_in_order(
    groups: Seq<DuplicateGroup>,
    group: DuplicateGroup,
    percents: Seq<u64>,
    details: Seq<Vec<FileDetails>>,
)
    requires
        percents.len() > groups.len(),
        details.len() > groups.len(),
    ensures
        detailed_report_lines(Seq::empty(), percents, details) == Seq::<Seq<char>>::empty(),
        detailed_report_lines(groups.push(group), percents, details) == detailed_report_lines(
            groups,
            percents,
            details,
        ) + detailed_group_lines(
            group,
            percents[groups.len() as int] as nat,
            details[groups.len() as int]@,
        ),
{
    assert(groups.push(group).drop_last() =~= groups);
}

proof fn lemma_detailed_files(
    files: Seq<DuplicateFile>,
    details: Seq<FileDetails>,
    n: int,
    i: int,
) -> (at: int)
    requires
        0 <= i < n <= files.len(),
        n <= details.len(),
    ensures
        0 <= at < detailed_files_lines(files, details, n).len(),
        detailed_files_lines(files, details, n)[at] == detailed_text(
            files[i],
            upper_extension(files[i].path@),
            details[i],
        ),
        details[i].recording_mbid matches Some(mbid) ==> at + 1 < detailed_files_lines(
            files,
            details,
            n,
        ).len() && detailed_files_lines(files, details, n)[at + 1] == "         MBID: "@ + mbid@,
    decreases n,
{
    let before = detailed_files_lines(files, details, n - 1);
    if i == n - 1 {
        before.len() as int
    } else {
        lemma_detailed_files(files, details, n - 1, i)
    }
}

proof fn lemma_detailed_count(files: Seq<DuplicateFile>, details: Seq<FileDetails>, n: int)
    requires
        0 <= n <= files.len(),
        n <= details.len(),
    ensures
        detailed_files_lines(files, details, n).len() == n + Seq::new(
            n as nat,
            |i: int| details[i],
        ).filter(|d: FileDetails| d.recording_mbid is Some).len(),
    decreases n,
{
    let resolved = |d: FileDetails| d.recording_mbid is Some;
    let all = Seq::new(n as nat, |i: int| details[i]);
    reveal(Seq::filter);
    if n > 0 {
        lemma_detailed_count(files, details, n - 1);
        assert(all.drop_last() =~= Seq::new((n - 1) as nat, |i: int| details[i]));
    }
}

/// In a group with details each file has its line, one with its MBID below it where that
/// is resolved, and there are no other lines but the first and the empty last one. What
/// is returned is where the line of the file at `i` stands.
pub proof fn law_every_file_is_shown_with_its_details(
    group: DuplicateGroup,
    percent: nat,
    details: Seq<FileDetails>,
    i: int,
) -> (at: int)
    requires
        details.len() == group.files@.len(),
        0 <= i < details.len(),
    ensures
        ({
            let lines = detailed_group_lines(group, percent, details);
            &&& 0 < at < lines.len() - 1
            &&& lines[0] == group_lines(group, percent)[0]
            &&& lines[at] == detailed_text(
                group.files@[i],
                upper_extension(group.files@[i].path@),
                details[i],
            )
            &&& details[i].recording_mbid matches Some(mbid) ==> at + 1 < lines.len() - 1
                && lines[at + 1] == "         MBID: "@ + mbid@
            &&& lines.last() == Seq::<char>::empty()
            &&& lines.len() == details.len() + details.filter(
                |d: FileDetails| d.recording_mbid is Some,
            ).len() + 2
        }),
{
    let n = group.files@.len() as int;
    lemma_detailed_count(group.files@, details, n);
    assert(Seq::new(n as nat, |i: int| details[i]) =~= details);
    lemma_detailed_files(group.files@, details, n, i) + 1
}

/// What is written of a file with details is what is known of it.
pub proof fn law_details_are_written_as_they_are_known(
    shown: DetailedFile,
    file: DuplicateFile,
    details: FileDetails,
)
    requires
        is_detailed(shown, file, details),
    ensures
        shown.path@ == file.path@,
        shown.duration_ns == file.duration_ns,
        shown.size_bytes == details.size_bytes,
        shown.match_kind is None <==> file.match_kind is Similar,
        details.audio matches Some(audio) ==> shown.sample_rate == audio.sample_rate
            && shown.bits_per_sample == audio.bits_per_sample && shown.channels == audio.channels
            && shown.bitrate_kbps == audio.bitrate_kbps,
        details.audio is None ==> shown.sample_rate is None && shown.bits_per_sample is None
            && shown.channels is None && shown.bitrate_kbps is None,
        shown.recording_mbid is Some <==> details.recording_mbid is Some,
        details.recording_mbid matches Some(mbid) ==> shown.recording_mbid->0@ == mbid@,
        shown.acoustid is Some <==> details.acoustid is Some,
        details.acoustid matches Some(id) ==> shown.acoustid->0@ == id@,
        shown.tags is Some <==> details.tags is Some,
        details.tags matches Some(tags) ==> {
            let seen = shown.tags->0;
            &&& seen.artist is Some <==> tags.artist is Some
            &&& tags.artist matches Some(artist) ==> seen.artist->0@ == artist@
            &&& seen.title is Some <==> tags.title is Some
            &&& tags.title matches Some(title) ==> seen.title->0@ == title@
            &&& seen.album is Some <==> tags.album is Some
            &&& tags.album matches Some(album) ==> seen.album->0@ == album@
        },
{
}

/// A group has an MBID where each of its files has that one, and only there.
pub proof fn law_a_group_has_the_mbid_of_all_its_files(details: Seq<FileDetails>, mbid: Seq<char>)
    ensures
        shared_mbid(details) == Some(mbid) <==> details.len() > 0 && forall|i: int|
            0 <= i < details.len() ==> (#[trigger] details[i]).recording_mbid is Some
                && details[i].recording_mbid->0@ == mbid,
{
    if details.len() > 0 {
        let first = details[0];
        if forall|i: int|
            0 <= i < details.len() ==> (#[trigger] details[i]).recording_mbid is Some
                && details[i].recording_mbid->0@ == mbid {
            assert(first.recording_mbid is Some);
            assert(shared_mbid(details) == Some(mbid));
        }
        if shared_mbid(details) == Some(mbid) {
            assert forall|i: int| 0 <= i < details.len() implies (
            #[trigger] details[i]).recording_mbid is Some && details[i].recording_mbid->0@
                == mbid by {
                assert(crate::text::opt_view(details[i].recording_mbid) == crate::text::opt_view(
                    first.recording_mbid,
                ));
            }
        }
    }
}

/// What is said of a name that means no format names it and those that do.
pub proof fn law_an_unknown_format_is_named(name: Seq<char>)
    ensures
        unknown_format_text(name) == "Unknown format '"@ + name
            + "'. Expected: human, json, jsonl"@,
{
}

/// The extension of a file is shown in uppercase, and `unknown` where it has none.
pub proof fn law_the_extension_is_shown_in_uppercase(path: Seq<char>)
    ensures
        crate::path::path_extension(path) matches Some(ext) ==> upper_extension(path)
            == crate::text::unicode_uppercase(crate::text::unicode_lowercase(ext)),
        crate::path::path_extension(path) is None ==> upper_extension(path)
            == crate::text::unicode_uppercase(seq!['u', 'n', 'k', 'n', 'o', 'w', 'n']),
{
    reveal_strlit("unknown");
    assert("unknown"@ =~= seq!['u', 'n', 'k', 'n', 'o', 'w', 'n']);
}

} // verus!
