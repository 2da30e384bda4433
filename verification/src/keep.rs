//! Keep strategies: which file of a duplicate group is preserved.

use vstd::prelude::*;

use crate::matcher::DuplicateFile;
use crate::order::key_le;
use crate::path::extension;
use crate::text::{
    concat2, concat3, eq_ignore_ascii_case, same_text, split, strip_prefix, to_chars, to_lowercase, trim,
};

verus! {

/// Strategy for deciding which file to keep in a duplicate group.
#[derive(Debug, Clone)]
pub enum KeepStrategy {
    /// Keep highest quality (lossless > lossy, higher sample rate, higher bit depth).
    Best,
    /// Keep files matching one of the given extensions, in lowercase.
    Ext(Vec<String>),
    /// Keep files whose path matches the regular expression.
    Regex(String),
    /// Keep the largest file.
    Largest,
    /// Keep the smallest file.
    Smallest,
    /// Keep the newest file (most recent modification time).
    Newest,
    /// Keep the oldest file.
    Oldest,
}

/// What is known of a file on disk when one is chosen. What could not be read is zero.
#[derive(Debug, Clone, Copy, PartialEq, Eq, Structural)]
pub struct FileFacts {
    /// File size in bytes.
    pub size: u64,
    /// Modification time as seconds since the UNIX epoch.
    pub mtime_secs: i64,
    /// Sample rate in Hz.
    pub sample_rate: u32,
    /// Bits per sample.
    pub bits_per_sample: u32,
}

// --- Regular expressions ---

/// Why `regex::Regex::new` refuses a pattern, if it does.
pub uninterp spec fn regex_refusal(pattern: Seq<char>) -> Option<Seq<char>>;

/// Whether a regular expression matches somewhere in a text.
pub uninterp spec fn regex_matches(pattern: Seq<char>, text: Seq<char>) -> bool;

/// `regex::Regex::new`: the message with which a pattern is refused, or nothing where
/// it is a regular expression. Which patterns are is left to its name.
#[verifier::external_body]
fn pattern_error(pattern: &str) -> (r: Option<String>)
    ensures
        crate::text::opt_view(r) == regex_refusal(pattern@),
{
    match regex::Regex::new(pattern) {
        Ok(_) => None,
        Err(e) => Some(e.to_string()),
    }
}

/// `regex::Regex::is_match`: whether the pattern matches somewhere in the text. A
/// pattern that is refused matches nothing.
#[verifier::external_body]
fn pattern_matches(pattern: &str, text: &str) -> (r: bool)
    ensures
        r == regex_matches(pattern@, text@),
        r ==> regex_refusal(pattern@) is None,
{
    match regex::Regex::new(pattern) {
        Ok(re) => re.is_match(text),
        Err(_) => false,
    }
}

// --- Parsing ---

/// What a strategy is written as.
pub enum StrategyText {
    /// One of the plain words.
    Word(Seq<char>),
    /// A list of extensions, in lowercase and without white space.
    Extensions(Seq<Seq<char>>),
    /// A regular expression.
    Pattern(Seq<char>),
    /// Anything else.
    Unknown,
}

/// The extensions in a list: separated by commas, without white space, in lowercase.
pub open spec fn extension_list(list: Seq<char>) -> Seq<Seq<char>> {
    crate::text::pieces(list, ',').map_values(
        |e: Seq<char>| crate::text::unicode_lowercase(crate::text::trimmed(e)),
    )
}

/// Whether `s` is `word` in any letter case.
pub open spec fn is_word(s: Seq<char>, word: Seq<char>) -> bool {
    crate::text::ascii_lowered(s) == word
}

/// What `s` is written as.
pub open spec fn strategy_text(s: Seq<char>) -> StrategyText {
    if is_word(s, "best"@) || is_word(s, "largest"@) || is_word(s, "smallest"@) || is_word(
        s,
        "newest"@,
    ) || is_word(s, "oldest"@) {
        StrategyText::Word(crate::text::ascii_lowered(s))
    } else {
        match crate::text::after_prefix(s, "ext:"@) {
            Some(list) => StrategyText::Extensions(extension_list(list)),
            None => match crate::text::after_prefix(s, "iregex:"@) {
                Some(pattern) => StrategyText::Pattern("(?i)"@ + pattern),
                None => match crate::text::after_prefix(s, "regex:"@) {
                    Some(pattern) => StrategyText::Pattern(pattern),
                    None => StrategyText::Unknown,
                },
            },
        }
    }
}

/// What is said of a pattern that is refused.
pub open spec fn refused_pattern_text(pattern: Seq<char>, reason: Seq<char>) -> Seq<char> {
    "Invalid regex pattern '"@ + pattern + ("': "@ + reason)
}

/// The strategy for a regular expression, given why it is refused, if it is.
pub fn pattern_strategy(pattern: String, refusal: Option<String>) -> (r: Result<
    KeepStrategy,
    String,
>)
    ensures
        match refusal {
            None => r matches Ok(KeepStrategy::Regex(p)) && p@ == pattern@,
            Some(reason) => r is Err && r->Err_0@ == refused_pattern_text(pattern@, reason@),
        },
{
    match refusal {
        None => Ok(KeepStrategy::Regex(pattern)),
        Some(reason) => {
            let tail = concat2("': ", reason.as_str());
            Err(concat3("Invalid regex pattern '", pattern.as_str(), tail.as_str()))
        },
    }
}

fn is_plain_word(s: &str, word: &str) -> (r: bool)
    requires
        crate::text::ascii_lowered(word@) == word@,
    ensures
        r == is_word(s@, word@),
{
    eq_ignore_ascii_case(s, word)
}

/// The extensions in `list`.
fn parse_extensions(list: &str) -> (r: Vec<String>)
    ensures
        crate::text::views(r@) == extension_list(list@),
{
    let parts = split(list, ',');
    let mut out: Vec<String> = Vec::new();
    let mut i: usize = 0;
    while i < parts.len()
        invariant
            i <= parts@.len(),
            crate::text::views(parts@) == crate::text::pieces(list@, ','),
            crate::text::views(out@) == extension_list(list@).take(i as int),
        decreases parts@.len() - i,
    {
        let ghost out0 = out@;
        let ext = to_lowercase(trim(parts[i].as_str()).as_str());
        proof {
            assert(crate::text::views(parts@)[i as int] == parts@[i as int]@);
            assert(ext@ == extension_list(list@)[i as int]);
        }
        let ghost added = ext@;
        out.push(ext);
        proof {
            assert(crate::text::views(out@) =~= crate::text::views(out0).push(added));
            assert(extension_list(list@).take(i + 1) =~= extension_list(list@).take(i as int).push(
                added,
            ));
        }
        i = i + 1;
    }
    proof {
        assert(crate::text::views(parts@).len() == parts@.len());
        assert(extension_list(list@).take(parts@.len() as int) =~= extension_list(list@));
    }
    out
}

fn any_empty(list: &Vec<String>) -> (r: bool)
    ensures
        r == exists|i: int| 0 <= i < list@.len() && #[trigger] crate::text::views(list@)[i].len() == 0,
{
    let mut i: usize = 0;
    while i < list.len()
        invariant
            i <= list@.len(),
            forall|k: int| 0 <= k < i ==> #[trigger] crate::text::views(list@)[k].len() > 0,
        decreases list@.len() - i,
    {
        proof {
            assert(crate::text::views(list@)[i as int] == list@[i as int]@);
        }
        if to_chars(list[i].as_str()).len() == 0 {
            return true;
        }
        i = i + 1;
    }
    false
}

impl KeepStrategy {
    /// Whether this is the strategy that a plain word means.
    pub open spec fn is_for_word(self, word: Seq<char>) -> bool {
        &&& word == "best"@ ==> self is Best
        &&& word == "largest"@ ==> self is Largest
        &&& word == "smallest"@ ==> self is Smallest
        &&& word == "newest"@ ==> self is Newest
        &&& word == "oldest"@ ==> self is Oldest
    }

    /// Reads a strategy: a plain word in any letter case, `ext:` with extensions,
    /// `regex:` or `iregex:` with a regular expression.
    pub fn parse(s: &str) -> (r: Result<KeepStrategy, String>)
        ensures
            match strategy_text(s@) {
                StrategyText::Word(word) => r is Ok && r->Ok_0.is_for_word(word),
                StrategyText::Extensions(list) => if exists|i: int|
                    0 <= i < list.len() && #[trigger] list[i].len() == 0 {
                    r is Err && r->Err_0@
                        == "Invalid ext: strategy, expected ext:flac or ext:flac,wav"@
                } else {
                    r matches Ok(KeepStrategy::Ext(exts)) && crate::text::views(exts@) == list
                },
                StrategyText::Pattern(pattern) => match regex_refusal(pattern) {
                    None => r matches Ok(KeepStrategy::Regex(p)) && p@ == pattern,
                    Some(reason) => r is Err && r->Err_0@ == refused_pattern_text(pattern, reason),
                },
                StrategyText::Unknown => r is Err && r->Err_0@ == "Unknown keep strategy '"@ + s@
                    + "'. Expected: best, largest, smallest, newest, oldest, ext:<exts>, regex:<pattern>, iregex:<pattern>"@,
            },
    {
        proof {
            reveal_strlit("best");
            reveal_strlit("largest");
            reveal_strlit("smallest");
            reveal_strlit("newest");
            reveal_strlit("oldest");
            assert(crate::text::ascii_lowered("best"@) =~= "best"@);
            assert(crate::text::ascii_lowered("largest"@) =~= "largest"@);
            assert(crate::text::ascii_lowered("smallest"@) =~= "smallest"@);
            assert(crate::text::ascii_lowered("newest"@) =~= "newest"@);
            assert(crate::text::ascii_lowered("oldest"@) =~= "oldest"@);
            assert("best"@[0] != "largest"@[0]);
            assert("best"@[0] != "smallest"@[0]);
            assert("best"@[0] != "newest"@[0]);
            assert("best"@[0] != "oldest"@[0]);
            assert("largest"@[0] != "smallest"@[0]);
            assert("largest"@[0] != "newest"@[0]);
            assert("largest"@[0] != "oldest"@[0]);
            assert("smallest"@[0] != "newest"@[0]);
            assert("smallest"@[0] != "oldest"@[0]);
            assert("newest"@[0] != "oldest"@[0]);
        }
        if is_plain_word(s, "best") {
            return Ok(KeepStrategy::Best);
        }
        if is_plain_word(s, "largest") {
            return Ok(KeepStrategy::Largest);
        }
        if is_plain_word(s, "smallest") {
            return Ok(KeepStrategy::Smallest);
        }
        if is_plain_word(s, "newest") {
            return Ok(KeepStrategy::Newest);
        }
        if is_plain_word(s, "oldest") {
            return Ok(KeepStrategy::Oldest);
        }
        if let Some(list) = strip_prefix(s, "ext:") {
            let exts = parse_extensions(list.as_str());
            if any_empty(&exts) {
                return Err(
                    "Invalid ext: strategy, expected ext:flac or ext:flac,wav".to_owned(),
                );
            }
            return Ok(KeepStrategy::Ext(exts));
        }
        if let Some(rest) = strip_prefix(s, "iregex:") {
            let pattern = concat2("(?i)", rest.as_str());
            let refusal = pattern_error(pattern.as_str());
            return pattern_strategy(pattern, refusal);
        }
        if let Some(pattern) = strip_prefix(s, "regex:") {
            let refusal = pattern_error(pattern.as_str());
            return pattern_strategy(pattern, refusal);
        }
        Err(
            concat3(
                "Unknown keep strategy '",
                s,
                "'. Expected: best, largest, smallest, newest, oldest, ext:<exts>, regex:<pattern>, iregex:<pattern>",
            ),
        )
    }
}

// --- Quality ---

/// Whether a lowercase extension is one of a lossless format.
pub open spec fn is_lossless(ext: Seq<char>) -> bool {
    ext == "flac"@ || ext == "wav"@ || ext == "aiff"@ || ext == "aif"@ || ext == "ape"@ || ext
        == "wv"@ || ext == "alac"@
}

/// Whether `ext` is one of a lossless format.
pub fn lossless_extension(ext: &str) -> (r: bool)
    ensures
        r == is_lossless(ext@),
{
    same_text(ext, "flac") || same_text(ext, "wav") || same_text(ext, "aiff") || same_text(
        ext,
        "aif",
    ) || same_text(ext, "ape") || same_text(ext, "wv") || same_text(ext, "alac")
}

/// Whether a path is that of a lossless file.
pub open spec fn is_lossless_path(path: Seq<char>) -> bool {
    match crate::path::path_extension(path) {
        Some(ext) => is_lossless(crate::text::unicode_lowercase(ext)),
        None => false,
    }
}

fn lossless_path(path: &str) -> (r: bool)
    ensures
        r == is_lossless_path(path@),
{
    match extension(path) {
        Some(ext) => lossless_extension(to_lowercase(ext.as_str()).as_str()),
        None => false,
    }
}

/// The quality of a file, by which files are ranked: lossless before lossy, then by
/// sample rate, bits per sample and size. Higher is better.
pub open spec fn quality(lossless: bool, facts: FileFacts) -> Seq<u64> {
    seq![
        if lossless {
            1u64
        } else {
            0u64
        },
        facts.sample_rate as u64,
        facts.bits_per_sample as u64,
        facts.size,
    ]
}

/// The quality of a file.
pub fn quality_key(lossless: bool, facts: &FileFacts) -> (r: Vec<u64>)
    ensures
        r@ == quality(lossless, *facts),
{
    let mut out: Vec<u64> = Vec::with_capacity(4);
    out.push(
        if lossless {
            1
        } else {
            0
        },
    );
    out.push(facts.sample_rate as u64);
    out.push(facts.bits_per_sample as u64);
    out.push(facts.size);
    proof {
        assert(out@ =~= quality(lossless, *facts));
    }
    out
}

/// The quality of the file at `path`.
pub fn quality_score(path: &str, facts: &FileFacts) -> (r: Vec<u64>)
    ensures
        r@ == quality(is_lossless_path(path@), *facts),
{
    quality_key(lossless_path(path), facts)
}

// --- Selection ---

/// `i` is the last of the wanted positions with the highest key.
pub open spec fn is_last_highest(keys: Seq<Seq<u64>>, wanted: Seq<bool>, i: int) -> bool {
    &&& 0 <= i < wanted.len()
    &&& wanted[i]
    &&& forall|j: int|
        0 <= j < wanted.len() && wanted[j] ==> #[trigger] crate::order::lex_le(keys[j], keys[i])
    &&& forall|j: int|
        i < j < wanted.len() && wanted[j] ==> !#[trigger] crate::order::lex_le(keys[i], keys[j])
}

/// `i` is the first of the wanted positions with the lowest key.
pub open spec fn is_first_lowest(keys: Seq<Seq<u64>>, wanted: Seq<bool>, i: int) -> bool {
    &&& 0 <= i < wanted.len()
    &&& wanted[i]
    &&& forall|j: int|
        0 <= j < wanted.len() && wanted[j] ==> #[trigger] crate::order::lex_le(keys[i], keys[j])
    &&& forall|j: int|
        0 <= j < i && wanted[j] ==> !#[trigger] crate::order::lex_le(keys[j], keys[i])
}

/// The last of the wanted positions with the highest key, or nothing where none is wanted.
pub fn last_highest(keys: &Vec<Vec<u64>>, wanted: &Vec<bool>) -> (r: Option<usize>)
    requires
        keys@.len() == wanted@.len(),
    ensures
        r is None <==> forall|j: int| 0 <= j < wanted@.len() ==> !wanted@[j],
        r matches Some(i) ==> is_last_highest(crate::order::key_views(keys@), wanted@, i as int),
{
    let ghost views = crate::order::key_views(keys@);
    let mut best: Option<usize> = None;
    let mut n: usize = 0;
    while n < wanted.len()
        invariant
            n <= wanted@.len(),
            keys@.len() == wanted@.len(),
            views == crate::order::key_views(keys@),
            best is None <==> forall|j: int| 0 <= j < n ==> !wanted@[j],
            best matches Some(i) ==> is_last_highest(views, wanted@.take(n as int), i as int),
        decreases wanted@.len() - n,
    {
        let ghost seen = wanted@.take(n as int);
        let ghost seen2 = wanted@.take(n + 1);
        if wanted[n] {
            let better = match best {
                None => true,
                Some(i) => key_le(&keys[i], &keys[n]),
            };
            proof {
                crate::order::law_lex_le_reflexive(views[n as int]);
                assert(views[n as int] == keys@[n as int]@);
                if let Some(i) = best {
                    assert(views[i as int] == keys@[i as int]@);
                    crate::order::law_lex_le_total(views[i as int], views[n as int]);
                    if better {
                        assert forall|j: int| 0 <= j < n && wanted@[j] implies #[trigger] crate::order::lex_le(
                            views[j],
                            views[n as int],
                        ) by {
                            assert(seen[j]);
                            assert(crate::order::lex_le(views[j], views[i as int]));
                            crate::order::law_lex_le_transitive(
                                views[j],
                                views[i as int],
                                views[n as int],
                            );
                        }
                    }
                }
            }
            if better {
                best = Some(n);
            }
        }
        proof {
            if let Some(i) = best {
                assert(is_last_highest(views, seen2, i as int)) by {
                    assert forall|j: int| 0 <= j < seen2.len() && seen2[j] implies #[trigger] crate::order::lex_le(
                        views[j],
                        views[i as int],
                    ) by {
                        if j < n {
                            assert(seen[j] == wanted@[j]);
                        }
                    }
                    assert forall|j: int| i < j < seen2.len() && seen2[j] implies !#[trigger] crate::order::lex_le(
                        views[i as int],
                        views[j],
                    ) by {
                        if j < n {
                            assert(seen[j] == wanted@[j]);
                        }
                    }
                }
            }
        }
        n = n + 1;
    }
    proof {
        assert(wanted@.take(wanted@.len() as int) =~= wanted@);
    }
    best
}

/// The first of the wanted positions with the lowest key, or nothing where none is wanted.
pub fn first_lowest(keys: &Vec<Vec<u64>>, wanted: &Vec<bool>) -> (r: Option<usize>)
    requires
        keys@.len() == wanted@.len(),
    ensures
        r is None <==> forall|j: int| 0 <= j < wanted@.len() ==> !wanted@[j],
        r matches Some(i) ==> is_first_lowest(crate::order::key_views(keys@), wanted@, i as int),
{
    let ghost views = crate::order::key_views(keys@);
    let mut best: Option<usize> = None;
    let mut n: usize = 0;
    while n < wanted.len()
        invariant
            n <= wanted@.len(),
            keys@.len() == wanted@.len(),
            views == crate::order::key_views(keys@),
            best is None <==> forall|j: int| 0 <= j < n ==> !wanted@[j],
            best matches Some(i) ==> is_first_lowest(views, wanted@.take(n as int), i as int),
        decreases wanted@.len() - n,
    {
        let ghost seen = wanted@.take(n as int);
        let ghost seen2 = wanted@.take(n + 1);
        if wanted[n] {
            let lower = match best {
                None => true,
                Some(i) => !key_le(&keys[i], &keys[n]),
            };
            proof {
                crate::order::law_lex_le_reflexive(views[n as int]);
                assert(views[n as int] == keys@[n as int]@);
                if let Some(i) = best {
                    assert(views[i as int] == keys@[i as int]@);
                    crate::order::law_lex_le_total(views[i as int], views[n as int]);
                    if lower {
                        assert forall|j: int| 0 <= j < n && wanted@[j] implies #[trigger] crate::order::lex_le(
                            views[n as int],
                            views[j],
                        ) && !crate::order::lex_le(views[j], views[n as int]) by {
                            assert(seen[j]);
                            assert(crate::order::lex_le(views[i as int], views[j]));
                            crate::order::law_lex_le_transitive(
                                views[n as int],
                                views[i as int],
                                views[j],
                            );
                            if crate::order::lex_le(views[j], views[n as int]) {
                                crate::order::law_lex_le_transitive(
                                    views[i as int],
                                    views[j],
                                    views[n as int],
                                );
                            }
                        }
                    }
                }
            }
            if lower {
                best = Some(n);
            }
        }
        proof {
            if let Some(i) = best {
                assert(is_first_lowest(views, seen2, i as int)) by {
                    assert forall|j: int| 0 <= j < seen2.len() && seen2[j] implies #[trigger] crate::order::lex_le(
                        views[i as int],
                        views[j],
                    ) by {
                        if j < n {
                            assert(seen[j] == wanted@[j]);
                        }
                    }
                    assert forall|j: int| 0 <= j < i && seen2[j] implies !#[trigger] crate::order::lex_le(
                        views[j],
                        views[i as int],
                    ) by {
                        assert(seen2[j] == wanted@[j]);
                        if i < n {
                            assert(seen[j] == wanted@[j]);
                        } else {
                            assert(crate::order::lex_le(views[n as int], views[j]));
                        }
                    }
                }
            }
        }
        n = n + 1;
    }
    proof {
        assert(wanted@.take(wanted@.len() as int) =~= wanted@);
    }
    best
}

/// A modification time as a number that orders as it does.
pub open spec fn mtime_rank(mtime_secs: i64) -> u64 {
    (mtime_secs + 0x8000_0000_0000_0000) as u64
}

/// The key by which a strategy chooses: the size, the modification time or the quality.
pub open spec fn strategy_key(strategy: KeepStrategy, path: Seq<char>, facts: FileFacts) -> Seq<
    u64,
> {
    match strategy {
        KeepStrategy::Largest => seq![facts.size],
        KeepStrategy::Smallest => seq![facts.size],
        KeepStrategy::Newest => seq![mtime_rank(facts.mtime_secs)],
        KeepStrategy::Oldest => seq![mtime_rank(facts.mtime_secs)],
        _ => quality(is_lossless_path(path), facts),
    }
}

/// Whether a strategy considers a file: with extensions or a regular expression only
/// those that match, else every one.
pub open spec fn strategy_wants(strategy: KeepStrategy, path: Seq<char>) -> bool {
    match strategy {
        KeepStrategy::Ext(exts) => match crate::path::path_extension(path) {
            Some(ext) => crate::text::views(exts@).contains(crate::text::unicode_lowercase(ext)),
            None => false,
        },
        KeepStrategy::Regex(pattern) => regex_matches(pattern@, path),
        _ => true,
    }
}

/// Whether a strategy prefers low keys.
pub open spec fn prefers_low(strategy: KeepStrategy) -> bool {
    strategy is Smallest || strategy is Oldest
}

fn wants(strategy: &KeepStrategy, path: &str) -> (r: bool)
    ensures
        r == strategy_wants(*strategy, path@),
{
    match strategy {
        KeepStrategy::Ext(exts) => match extension(path) {
            Some(ext) => list_holds(exts, to_lowercase(ext.as_str()).as_str()),
            None => false,
        },
        KeepStrategy::Regex(pattern) => pattern_matches(pattern.as_str(), path),
        _ => true,
    }
}

/// Whether `list` holds `item`.
pub fn list_holds(list: &Vec<String>, item: &str) -> (r: bool)
    ensures
        r == crate::text::views(list@).contains(item@),
{
    let mut i: usize = 0;
    while i < list.len()
        invariant
            i <= list@.len(),
            forall|k: int| 0 <= k < i ==> #[trigger] crate::text::views(list@)[k] != item@,
        decreases list@.len() - i,
    {
        proof {
            assert(crate::text::views(list@)[i as int] == list@[i as int]@);
        }
        if same_text(list[i].as_str(), item) {
            return true;
        }
        i = i + 1;
    }
    false
}

fn key_of(strategy: &KeepStrategy, path: &str, facts: &FileFacts) -> (r: Vec<u64>)
    ensures
        r@ == strategy_key(*strategy, path@, *facts),
{
    let single: u64 = match strategy {
        KeepStrategy::Largest => facts.size,
        KeepStrategy::Smallest => facts.size,
        KeepStrategy::Newest => (facts.mtime_secs as i128 + 0x8000_0000_0000_0000) as u64,
        KeepStrategy::Oldest => (facts.mtime_secs as i128 + 0x8000_0000_0000_0000) as u64,
        _ => {
            return quality_score(path, facts);
        },
    };
    let mut out: Vec<u64> = Vec::with_capacity(1);
    out.push(single);
    proof {
        assert(out@ =~= strategy_key(*strategy, path@, *facts));
    }
    out
}

/// The keys of all files of a group under a strategy.
pub open spec fn group_keys(
    strategy: KeepStrategy,
    files: Seq<DuplicateFile>,
    facts: Seq<FileFacts>,
) -> Seq<Seq<u64>> {
    Seq::new(files.len(), |i: int| strategy_key(strategy, files[i].path@, facts[i]))
}

/// Which files of a group a strategy considers.
pub open spec fn group_wanted(strategy: KeepStrategy, files: Seq<DuplicateFile>) -> Seq<bool> {
    Seq::new(files.len(), |i: int| strategy_wants(strategy, files[i].path@))
}

/// `i` is the file that a strategy keeps.
pub open spec fn is_keeper(
    strategy: KeepStrategy,
    files: Seq<DuplicateFile>,
    facts: Seq<FileFacts>,
    i: int,
) -> bool {
    if prefers_low(strategy) {
        is_first_lowest(group_keys(strategy, files, facts), group_wanted(strategy, files), i)
    } else {
        is_last_highest(group_keys(strategy, files, facts), group_wanted(strategy, files), i)
    }
}

/// Selects the index of the file to keep in a group, or nothing where no file matches
/// the strategy.
pub fn select_keeper(
    files: &Vec<DuplicateFile>,
    facts: &Vec<FileFacts>,
    strategy: &KeepStrategy,
) -> (r: Option<usize>)
    requires
        files@.len() == facts@.len(),
    ensures
        r is None <==> forall|j: int|
            0 <= j < files@.len() ==> !#[trigger] strategy_wants(*strategy, files@[j].path@),
        r matches Some(i) ==> is_keeper(*strategy, files@, facts@, i as int),
{
    let mut keys: Vec<Vec<u64>> = Vec::new();
    let mut wanted: Vec<bool> = Vec::new();
    let mut i: usize = 0;
    while i < files.len()
        invariant
            i <= files@.len(),
            files@.len() == facts@.len(),
            crate::order::key_views(keys@) == group_keys(*strategy, files@, facts@).take(i as int),
            wanted@ == group_wanted(*strategy, files@).take(i as int),
        decreases files@.len() - i,
    {
        let path = files[i].path.as_str();
        let ghost keys0 = keys@;
        let key = key_of(strategy, path, &facts[i]);
        let ghost added = key@;
        keys.push(key);
        wanted.push(wants(strategy, path));
        proof {
            assert(crate::order::key_views(keys@) =~= crate::order::key_views(keys0).push(added));
            assert(crate::order::key_views(keys@) =~= group_keys(*strategy, files@, facts@).take(i + 1));
            assert(wanted@ =~= group_wanted(*strategy, files@).take(i + 1));
        }
        i = i + 1;
    }
    proof {
        assert(group_keys(*strategy, files@, facts@).take(files@.len() as int) =~= group_keys(
            *strategy,
            files@,
            facts@,
        ));
        assert(group_wanted(*strategy, files@).take(files@.len() as int) =~= group_wanted(
            *strategy,
            files@,
        ));
        assert(crate::order::key_views(keys@).len() == keys@.len());
        assert forall|j: int| 0 <= j < files@.len() implies wanted@[j] == #[trigger] strategy_wants(
            *strategy,
            files@[j].path@,
        ) by {}
    }
    let low = match strategy {
        KeepStrategy::Smallest => true,
        KeepStrategy::Oldest => true,
        _ => false,
    };
    if low {
        first_lowest(&keys, &wanted)
    } else {
        last_highest(&keys, &wanted)
    }
}

/// A group has at most one keeper.
pub proof fn law_keeper_is_unique(
    strategy: KeepStrategy,
    files: Seq<DuplicateFile>,
    facts: Seq<FileFacts>,
    i: int,
    j: int,
)
    requires
        files.len() == facts.len(),
        is_keeper(strategy, files, facts, i),
        is_keeper(strategy, files, facts, j),
    ensures
        i == j,
{
    let keys = group_keys(strategy, files, facts);
    assert(crate::order::lex_le(keys[i], keys[j]));
    assert(crate::order::lex_le(keys[j], keys[i]));
}

/// Under `best`, a lossless file is never passed over for a lossy one.
pub proof fn law_best_prefers_lossless(
    files: Seq<DuplicateFile>,
    facts: Seq<FileFacts>,
    i: int,
    j: int,
)
    requires
        files.len() == facts.len(),
        is_keeper(KeepStrategy::Best, files, facts, i),
        0 <= j < files.len(),
        is_lossless_path(files[j].path@),
    ensures
        is_lossless_path(files[i].path@),
{
    let keys = group_keys(KeepStrategy::Best, files, facts);
    assert(group_wanted(KeepStrategy::Best, files)[j]);
    assert(crate::order::lex_le(keys[j], keys[i]));
}

/// What a key of quality says, where it is no higher than another.
pub(crate) proof fn lemma_quality_order(x: bool, a: FileFacts, y: bool, b: FileFacts)
    requires
        crate::order::lex_le(quality(x, a), quality(y, b)),
    ensures
        x ==> y,
        x == y ==> a.sample_rate <= b.sample_rate,
        x == y && a.sample_rate == b.sample_rate ==> a.bits_per_sample <= b.bits_per_sample,
        x == y && a.sample_rate == b.sample_rate && a.bits_per_sample == b.bits_per_sample
            ==> a.size <= b.size,
{
    let p = quality(x, a);
    let q = quality(y, b);
    if x != y {
        crate::order::law_the_first_difference_decides(p, q, 0);
    } else if a.sample_rate != b.sample_rate {
        crate::order::law_the_first_difference_decides(p, q, 1);
    } else if a.bits_per_sample != b.bits_per_sample {
        crate::order::law_the_first_difference_decides(p, q, 2);
    } else if a.size != b.size {
        crate::order::law_the_first_difference_decides(p, q, 3);
    }
}

/// The keeper is one of the files that the strategy considers. By quality, as it is kept under
/// `best` and among files with an extension or a matching path, no file that is considered is
/// better: none is lossless where the keeper is lossy, and where both are or neither is, none
/// has a higher sample rate; at the same rate, more bits per sample; with as many bits, more
/// bytes. Of files that are as good, the last is kept.
pub proof fn law_the_keeper_is_of_highest_quality(
    strategy: KeepStrategy,
    files: Seq<DuplicateFile>,
    facts: Seq<FileFacts>,
    i: int,
    j: int,
)
    requires
        files.len() == facts.len(),
        strategy is Best || strategy is Ext || strategy is Regex,
        is_keeper(strategy, files, facts, i),
        0 <= j < files.len(),
        strategy_wants(strategy, files[j].path@),
    ensures
        0 <= i < files.len(),
        strategy_wants(strategy, files[i].path@),
        ({
            let lossless_i = is_lossless_path(files[i].path@);
            let lossless_j = is_lossless_path(files[j].path@);
            let same_rate = lossless_i == lossless_j && facts[i].sample_rate
                == facts[j].sample_rate;
            let same_depth = same_rate && facts[i].bits_per_sample == facts[j].bits_per_sample;
            &&& lossless_j ==> lossless_i
            &&& lossless_i == lossless_j ==> facts[j].sample_rate <= facts[i].sample_rate
            &&& same_rate ==> facts[j].bits_per_sample <= facts[i].bits_per_sample
            &&& same_depth ==> facts[j].size <= facts[i].size
            &&& same_depth && facts[j].size == facts[i].size ==> j <= i
        }),
{
    let keys = group_keys(strategy, files, facts);
    let wanted = group_wanted(strategy, files);
    assert(wanted[j]);
    assert(crate::order::lex_le(keys[j], keys[i]));
    lemma_quality_order(
        is_lossless_path(files[j].path@),
        facts[j],
        is_lossless_path(files[i].path@),
        facts[i],
    );
    if j > i && keys[i] == keys[j] {
        assert(!crate::order::lex_le(keys[i], keys[j]));
        crate::order::law_lex_le_reflexive(keys[i]);
    }
    if is_lossless_path(files[i].path@) == is_lossless_path(files[j].path@)
        && facts[i].sample_rate == facts[j].sample_rate && facts[i].bits_per_sample
        == facts[j].bits_per_sample && facts[i].size == facts[j].size {
        assert(keys[i] =~= keys[j]);
    }
}

proof fn lemma_single_order(a: u64, b: u64)
    ensures
        crate::order::lex_le(seq![a], seq![b]) <==> a <= b,
{
    if a != b {
        crate::order::law_the_first_difference_decides(seq![a], seq![b], 0);
    } else {
        crate::order::law_lex_le_reflexive(seq![a]);
    }
}

/// The largest file is kept, or the newest, and of several the last; the smallest, or the
/// oldest, and of several the first.
pub proof fn law_the_keeper_is_extreme(
    strategy: KeepStrategy,
    files: Seq<DuplicateFile>,
    facts: Seq<FileFacts>,
    i: int,
    j: int,
)
    requires
        files.len() == facts.len(),
        is_keeper(strategy, files, facts, i),
        0 <= j < files.len(),
    ensures
        0 <= i < files.len(),
        strategy is Largest ==> facts[j].size <= facts[i].size && (facts[j].size == facts[i].size
            ==> j <= i),
        strategy is Smallest ==> facts[j].size >= facts[i].size && (facts[j].size == facts[i].size
            ==> j >= i),
        strategy is Newest ==> facts[j].mtime_secs <= facts[i].mtime_secs && (facts[j].mtime_secs
            == facts[i].mtime_secs ==> j <= i),
        strategy is Oldest ==> facts[j].mtime_secs >= facts[i].mtime_secs && (facts[j].mtime_secs
            == facts[i].mtime_secs ==> j >= i),
{
    let keys = group_keys(strategy, files, facts);
    let wanted = group_wanted(strategy, files);
    if strategy is Largest || strategy is Newest || strategy is Smallest || strategy is Oldest {
        assert(wanted[j] && wanted[i]);
        assert(crate::order::lex_le(keys[j], keys[i]) || crate::order::lex_le(keys[i], keys[j]));
        lemma_single_order(facts[i].size, facts[j].size);
        lemma_single_order(facts[j].size, facts[i].size);
        lemma_single_order(mtime_rank(facts[i].mtime_secs), mtime_rank(facts[j].mtime_secs));
        lemma_single_order(mtime_rank(facts[j].mtime_secs), mtime_rank(facts[i].mtime_secs));
    }
}

/// With extensions, the files that have one of them in any letter case are considered; with a
/// regular expression, those whose path it matches; otherwise every file.
pub proof fn law_what_a_strategy_considers(strategy: KeepStrategy, path: Seq<char>)
    ensures
        strategy is Best || strategy is Largest || strategy is Smallest || strategy is Newest
            || strategy is Oldest ==> strategy_wants(strategy, path),
        strategy matches KeepStrategy::Regex(pattern) ==> (strategy_wants(strategy, path)
            <==> regex_matches(pattern@, path)),
        strategy matches KeepStrategy::Ext(exts) ==> (strategy_wants(strategy, path) <==> (
        crate::path::path_extension(path) matches Some(ext) && exists|k: int|
            0 <= k < exts@.len() && (#[trigger] exts@[k])@ == crate::text::unicode_lowercase(ext))),
{
    if let KeepStrategy::Ext(exts) = strategy {
        if let Some(ext) = crate::path::path_extension(path) {
            let lowered = crate::text::unicode_lowercase(ext);
            let views = crate::text::views(exts@);
            if views.contains(lowered) {
                let k = choose|k: int| 0 <= k < views.len() && views[k] == lowered;
                assert(exts@[k]@ == lowered);
            }
            if exists|k: int| 0 <= k < exts@.len() && (#[trigger] exts@[k])@ == lowered {
                let k = choose|k: int| 0 <= k < exts@.len() && (#[trigger] exts@[k])@ == lowered;
                assert(views[k] == lowered);
            }
        }
    }
}

/// The lossless formats are FLAC, WAV, AIFF, Monkey's Audio, WavPack and ALAC, told by the
/// extension in any letter case. A file without an extension is not lossless.
pub proof fn law_lossless_formats(path: Seq<char>, ext: Seq<char>)
    ensures
        crate::path::path_extension(path) is None ==> !is_lossless_path(path),
        crate::path::path_extension(path) == Some(ext) ==> {
            let lowered = crate::text::unicode_lowercase(ext);
            is_lossless_path(path) <==> (lowered == "flac"@ || lowered == "wav"@ || lowered
                == "aiff"@ || lowered == "aif"@ || lowered == "ape"@ || lowered == "wv"@ || lowered
                == "alac"@)
        },
{
}

/// Behind `ext:` stands a list of extensions, behind `regex:` a regular expression, and behind
/// `iregex:` one for any letter case.
pub proof fn law_strategies_are_told_by_their_prefix(rest: Seq<char>)
    ensures
        strategy_text("ext:"@ + rest) == StrategyText::Extensions(extension_list(rest)),
        strategy_text("regex:"@ + rest) == StrategyText::Pattern(rest),
        strategy_text("iregex:"@ + rest) == StrategyText::Pattern("(?i)"@ + rest),
{
    reveal_strlit("ext:");
    reveal_strlit("regex:");
    reveal_strlit("iregex:");
    reveal_strlit("best");
    reveal_strlit("largest");
    reveal_strlit("smallest");
    reveal_strlit("newest");
    reveal_strlit("oldest");
    let e = "ext:"@ + rest;
    let r = "regex:"@ + rest;
    let i = "iregex:"@ + rest;
    assert(crate::text::ascii_lowered(e)[0] == 'e');
    assert(crate::text::ascii_lowered(r)[0] == 'r');
    assert(crate::text::ascii_lowered(i)[0] == 'i');
    assert(e.take(4) =~= "ext:"@ && e.skip(4) =~= rest);
    assert(r.take(6) =~= "regex:"@ && r.skip(6) =~= rest);
    assert(i.take(7) =~= "iregex:"@ && i.skip(7) =~= rest);
    assert(r.take(4)[0] == 'r' && i.take(4)[0] == 'i');
    if r.len() >= 7 {
        assert(r.take(7)[0] == 'r');
    }
}

/// Each plain word means its strategy in any letter case, and nothing else does.
pub proof fn law_plain_words_in_any_case(s: Seq<char>, word: Seq<char>)
    requires
        crate::text::ascii_lowered(s) == word,
    ensures
        word == "best"@ || word == "largest"@ || word == "smallest"@ || word == "newest"@ || word
            == "oldest"@ ==> strategy_text(s) == StrategyText::Word(word),
        strategy_text(s) is Word ==> word == "best"@ || word == "largest"@ || word == "smallest"@
            || word == "newest"@ || word == "oldest"@,
{
}

/// A plain word means the strategy that it names.
pub proof fn law_each_word_means_its_strategy(strategy: KeepStrategy, word: Seq<char>)
    requires
        strategy.is_for_word(word),
    ensures
        word == seq!['b', 'e', 's', 't'] ==> strategy is Best,
        word == seq!['l', 'a', 'r', 'g', 'e', 's', 't'] ==> strategy is Largest,
        word == seq!['s', 'm', 'a', 'l', 'l', 'e', 's', 't'] ==> strategy is Smallest,
        word == seq!['n', 'e', 'w', 'e', 's', 't'] ==> strategy is Newest,
        word == seq!['o', 'l', 'd', 'e', 's', 't'] ==> strategy is Oldest,
{
    reveal_strlit("best");
    reveal_strlit("largest");
    reveal_strlit("smallest");
    reveal_strlit("newest");
    reveal_strlit("oldest");
    assert("best"@ =~= seq!['b', 'e', 's', 't']);
    assert("largest"@ =~= seq!['l', 'a', 'r', 'g', 'e', 's', 't']);
    assert("smallest"@ =~= seq!['s', 'm', 'a', 'l', 'l', 'e', 's', 't']);
    assert("newest"@ =~= seq!['n', 'e', 'w', 'e', 's', 't']);
    assert("oldest"@ =~= seq!['o', 'l', 'd', 'e', 's', 't']);
}

/// What is said of a regular expression that is refused names it and the reason.
pub proof fn law_a_refused_pattern_is_named(pattern: Seq<char>, reason: Seq<char>)
    ensures
        refused_pattern_text(pattern, reason) == "Invalid regex pattern '"@ + pattern + "': "@
            + reason,
{
    assert("Invalid regex pattern '"@ + pattern + ("': "@ + reason) =~= "Invalid regex pattern '"@
        + pattern + "': "@ + reason);
}

} // verus!
