//! What the command line decides and says.

use vstd::prelude::*;

use crate::database::Stats;
use crate::text::{concat2, concat3, decimal, same_text, to_lowercase, trim};

verus! {

/// The filter for log messages at a level of verbosity. What Symphonia logs lacks the name
/// of the file, so it is kept for debugging.
pub fn log_filter(verbose: u8) -> (r: String)
    ensures
        r@ == (if verbose == 0 {
            "warn"@
        } else if verbose == 1 {
            "info"@
        } else if verbose == 2 {
            "debug"@
        } else {
            "trace"@
        }) + ",symphonia_core=debug,symphonia_format_ogg=debug"@,
{
    let level = if verbose == 0 {
        "warn"
    } else if verbose == 1 {
        "info"
    } else if verbose == 2 {
        "debug"
    } else {
        "trace"
    };
    concat2(level, ",symphonia_core=debug,symphonia_format_ogg=debug")
}

/// Whether an answer is yes, which an empty one is.
pub open spec fn is_yes(answer: Seq<char>) -> bool {
    let word = crate::text::unicode_lowercase(crate::text::trimmed(answer));
    word == ""@ || word == "y"@ || word == "yes"@
}

/// Whether an answer is yes, given its word in lowercase.
pub fn is_yes_word(word: &str) -> (r: bool)
    ensures
        r == (word@ == ""@ || word@ == "y"@ || word@ == "yes"@),
{
    same_text(word, "") || same_text(word, "y") || same_text(word, "yes")
}

/// Whether an answer is yes, which an empty one is.
pub fn confirms(answer: &str) -> (r: bool)
    ensures
        r == is_yes(answer@),
{
    is_yes_word(to_lowercase(trim(answer).as_str()).as_str())
}

/// Where the paths to scan come from.
#[derive(Debug, Clone, Copy, PartialEq, Eq, Structural)]
pub enum ScanSource {
    /// From the command line.
    Given,
    /// From earlier scans.
    Stored,
    /// The music directory of the platform, if the user confirms it.
    MusicDir,
    /// From nowhere: there is no music directory.
    NoMusicDir,
    /// From nowhere: the music directory does not exist.
    MissingMusicDir,
}

/// Where the paths to scan come from, given how many there are on the command line and from
/// earlier scans, and whether the music directory of the platform exists, where it has one.
pub fn scan_source(given: usize, stored: usize, music_dir: Option<bool>) -> (r: ScanSource)
    ensures
        r == if given > 0 {
            ScanSource::Given
        } else if stored > 0 {
            ScanSource::Stored
        } else {
            match music_dir {
                Some(true) => ScanSource::MusicDir,
                Some(false) => ScanSource::MissingMusicDir,
                None => ScanSource::NoMusicDir,
            }
        },
{
    if given > 0 {
        ScanSource::Given
    } else if stored > 0 {
        ScanSource::Stored
    } else {
        match music_dir {
            Some(true) => ScanSource::MusicDir,
            Some(false) => ScanSource::MissingMusicDir,
            None => ScanSource::NoMusicDir,
        }
    }
}

/// What is said where there is nothing to scan.
pub fn nothing_to_scan(source: ScanSource) -> (r: Option<String>)
    ensures
        crate::text::opt_view(r) == match source {
            ScanSource::NoMusicDir => Some(
                "No paths specified and no previously scanned paths found."@,
            ),
            ScanSource::MissingMusicDir => Some(
                "No paths specified and default music directory does not exist."@,
            ),
            _ => None,
        },
{
    match source {
        ScanSource::NoMusicDir => Some(
            "No paths specified and no previously scanned paths found.".to_owned(),
        ),
        ScanSource::MissingMusicDir => Some(
            "No paths specified and default music directory does not exist.".to_owned(),
        ),
        _ => None,
    }
}

/// What is said of a database with too few files to compare.
pub open spec fn too_few_text(fingerprinted: nat) -> Seq<Seq<char>> {
    if fingerprinted == 0 {
        seq![
            "No files have been scanned yet."@,
            ""@,
            "Run a scan first to fingerprint your audio library:"@,
            ""@,
            "  dupsonic scan <path-to-music>"@,
        ]
    } else {
        seq![
            "Only "@ + crate::text::decimal_text(fingerprinted)
                + " file has been scanned — need at least 2 to find duplicates."@,
            ""@,
            "Scan more files:"@,
            ""@,
            "  dupsonic scan <path-to-music>"@,
        ]
    }
}

/// What is said of a database that is not the default one.
pub open spec fn custom_db_text(path: Seq<char>) -> Seq<Seq<char>> {
    seq![
        ""@,
        "Note: using custom database '"@ + path
            + "'. Make sure you use the same --db path when scanning."@,
    ]
}

/// What is said where fewer than two files are fingerprinted, so that there is nothing to
/// compare; `custom_db` is the path of a database that is not the default one.
pub fn too_few_files(fingerprinted: u64, custom_db: Option<&str>) -> (r: Option<Vec<String>>)
    ensures
        r is None <==> fingerprinted >= 2,
        r matches Some(lines) ==> crate::text::views(lines@) == too_few_text(fingerprinted as nat)
            + match custom_db {
            Some(path) => custom_db_text(path@),
            None => Seq::empty(),
        },
{
    if fingerprinted >= 2 {
        return None;
    }
    let mut lines: Vec<String> = Vec::new();
    if fingerprinted == 0 {
        lines.push("No files have been scanned yet.".to_owned());
        lines.push("".to_owned());
        lines.push("Run a scan first to fingerprint your audio library:".to_owned());
    } else {
        let count = decimal(fingerprinted as u128);
        lines.push(
            concat3(
                "Only ",
                count.as_str(),
                " file has been scanned — need at least 2 to find duplicates.",
            ),
        );
        lines.push("".to_owned());
        lines.push("Scan more files:".to_owned());
    }
    lines.push("".to_owned());
    lines.push("  dupsonic scan <path-to-music>".to_owned());
    proof {
        assert(crate::text::views(lines@) =~= too_few_text(fingerprinted as nat));
    }
    let ghost head = crate::text::views(lines@);
    if let Some(path) = custom_db {
        lines.push("".to_owned());
        lines.push(
            concat3(
                "Note: using custom database '",
                path,
                "'. Make sure you use the same --db path when scanning.",
            ),
        );
        proof {
            assert(crate::text::views(lines@) =~= head + custom_db_text(path@));
        }
    } else {
        proof {
            assert(head + Seq::<Seq<char>>::empty() =~= head);
        }
    }
    Some(lines)
}

/// The lines about the database.
pub fn status_lines(database: &str, stats: &Stats) -> (r: Vec<String>)
    ensures
        crate::text::views(r@) == seq![
            "Database: "@ + database@,
            "  Total files: "@ + crate::text::decimal_text(stats.total_files as nat),
            "  Fingerprinted: "@ + crate::text::decimal_text(stats.fingerprinted as nat),
            "  Failed: "@ + crate::text::decimal_text(stats.failed as nat),
            "  Stale (file missing): "@ + crate::text::decimal_text(stats.stale as nat),
        ],
{
    let mut lines: Vec<String> = Vec::new();
    lines.push(concat2("Database: ", database));
    lines.push(concat2("  Total files: ", decimal(stats.total_files as u128).as_str()));
    lines.push(concat2("  Fingerprinted: ", decimal(stats.fingerprinted as u128).as_str()));
    lines.push(concat2("  Failed: ", decimal(stats.failed as u128).as_str()));
    lines.push(concat2("  Stale (file missing): ", decimal(stats.stale as u128).as_str()));
    proof {
        assert(crate::text::views(lines@) =~= seq![
            lines@[0]@,
            lines@[1]@,
            lines@[2]@,
            lines@[3]@,
            lines@[4]@,
        ]);
    }
    lines
}

/// An answer is yes where nothing is left of it without the white space around it, or `y` or
/// `yes`, whatever the letter case.
pub proof fn law_an_answer_is_yes(answer: Seq<char>)
    ensures
        ({
            let word = crate::text::unicode_lowercase(crate::text::trimmed(answer));
            is_yes(answer) <==> word.len() == 0 || word == seq!['y'] || word == seq!['y', 'e', 's']
        }),
{
    reveal_strlit("");
    reveal_strlit("y");
    reveal_strlit("yes");
    assert(""@ =~= seq![]);
    assert("y"@ =~= seq!['y']);
    assert("yes"@ =~= seq!['y', 'e', 's']);
    let word = crate::text::unicode_lowercase(crate::text::trimmed(answer));
    if word.len() == 0 {
        assert(word =~= seq![]);
    }
}

/// What is said of too few files names how many there are, where there is one, and always
/// ends with how to scan; what is said of another database names it.
pub proof fn law_too_few_files_are_counted(fingerprinted: nat, path: Seq<char>)
    ensures
        too_few_text(fingerprinted).len() == 5,
        too_few_text(fingerprinted)[4] == "  dupsonic scan <path-to-music>"@,
        too_few_text(fingerprinted)[0] == (if fingerprinted == 0 {
            "No files have been scanned yet."@
        } else {
            "Only "@ + crate::text::decimal_text(fingerprinted)
                + " file has been scanned — need at least 2 to find duplicates."@
        }),
        too_few_text(fingerprinted)[2] == (if fingerprinted == 0 {
            "Run a scan first to fingerprint your audio library:"@
        } else {
            "Scan more files:"@
        }),
        too_few_text(fingerprinted)[1] == ""@,
        too_few_text(fingerprinted)[3] == ""@,
        custom_db_text(path).len() == 2,
        custom_db_text(path)[0] == ""@,
        custom_db_text(path)[1] == "Note: using custom database '"@ + path
            + "'. Make sure you use the same --db path when scanning."@,
{
}

} // verus!
