//! Scanning: which files are audio, which are ignored, which have changed, and how
//! results are gathered into batches.

use vstd::prelude::*;

use crate::database::{is_current, CachedMeta, FileMeta, ScanResult};
use crate::fingerprint::FingerprintResult;
use crate::globs::{read_given_rules, read_rule, PatternSet, Rule};
use crate::lsh::compute_band_hashes;
use crate::order::sort_order;
use crate::path::{extension, paths_equal, sort_key};
use crate::text::{concat5, copy, decimal, same_text, split, to_chars, to_lowercase, trim};

verus! {

// --- Audio files ---

/// Whether a lowercase extension is one of an audio file.
pub open spec fn is_audio_extension(ext: Seq<char>) -> bool {
    ext == "mp3"@ || ext == "flac"@ || ext == "ogg"@ || ext == "opus"@ || ext == "wav"@ || ext
        == "m4a"@ || ext == "aac"@ || ext == "wma"@ || ext == "aiff"@ || ext == "aif"@ || ext
        == "ape"@ || ext == "wv"@ || ext == "mpc"@ || ext == "oga"@ || ext == "spx"@ || ext
        == "webm"@ || ext == "mp4"@
}

/// Whether `ext` is one of an audio file.
pub fn audio_extension(ext: &str) -> (r: bool)
    ensures
        r == is_audio_extension(ext@),
{
    same_text(ext, "mp3") || same_text(ext, "flac") || same_text(ext, "ogg") || same_text(
        ext,
        "opus",
    ) || same_text(ext, "wav") || same_text(ext, "m4a") || same_text(ext, "aac") || same_text(
        ext,
        "wma",
    ) || same_text(ext, "aiff") || same_text(ext, "aif") || same_text(ext, "ape") || same_text(
        ext,
        "wv",
    ) || same_text(ext, "mpc") || same_text(ext, "oga") || same_text(ext, "spx") || same_text(
        ext,
        "webm",
    ) || same_text(ext, "mp4")
}

/// Whether a path is that of an audio file, by its extension in any letter case.
pub open spec fn is_audio_path(path: Seq<char>) -> bool {
    match crate::path::path_extension(path) {
        Some(ext) => is_audio_extension(crate::text::unicode_lowercase(ext)),
        None => false,
    }
}

/// Whether `path` is that of an audio file.
pub fn is_audio_file(path: &str) -> (r: bool)
    ensures
        r == is_audio_path(path@),
        match crate::path::path_extension(path@) {
            Some(ext) => vstd::utf8::is_ascii_chars(ext) ==> r == is_audio_extension(
                crate::text::ascii_lowered(ext),
            ),
            None => !r,
        },
{
    match extension(path) {
        Some(ext) => audio_extension(to_lowercase(ext.as_str()).as_str()),
        None => false,
    }
}

/// The formats that are supported, as a list for people to read.
pub fn supported_formats() -> (r: String)
    ensures
        r@
            == "mp3, flac, ogg, opus, wav, m4a, aac, wma, aiff, aif, ape, wv, mpc, oga, spx, webm, mp4"@,
{
    "mp3, flac, ogg, opus, wav, m4a, aac, wma, aiff, aif, ape, wv, mpc, oga, spx, webm, mp4".to_owned()
}

// --- Ignored files ---

/// Whether a line of an ignore file is a pattern: it is not empty and no comment.
pub open spec fn is_pattern_line(line: Seq<char>) -> bool {
    line.len() > 0 && line[0] != '#'
}

/// Whether a text ends in a backslash that takes the meaning off what comes next.
pub open spec fn ends_in_escape(s: Seq<char>) -> bool
    decreases s.len(),
{
    s.len() > 0 && s.last() == '\\' && !ends_in_escape(s.drop_last())
}

/// Whether a line ends in a space, apart from a carriage return.
pub open spec fn ends_in_space(line: Seq<char>) -> bool {
    ||| line.len() > 0 && line.last() == ' '
    ||| line.len() > 1 && line.last() == '\r' && line[line.len() - 2] == ' '
}

/// A line without the white space around it. A space behind a backslash stays.
pub open spec fn line_text(line: Seq<char>) -> Seq<char> {
    let text = crate::text::trimmed(line);
    if ends_in_escape(text) && ends_in_space(line) {
        text.push(' ')
    } else {
        text
    }
}

fn read_line(line: &str) -> (r: String)
    ensures
        r@ == line_text(line@),
{
    let mut text = trim(line);
    let chars = to_chars(text.as_str());
    let mut n: usize = chars.len();
    let mut escaped = false;
    proof {
        assert(chars@.take(chars@.len() as int) =~= chars@);
    }
    while n > 0 && chars[n - 1] == '\\'
        invariant
            n <= chars@.len(),
            ends_in_escape(chars@) == (ends_in_escape(chars@.take(n as int)) != escaped),
        decreases n,
    {
        proof {
            assert(chars@.take(n as int).drop_last() =~= chars@.take(n - 1));
        }
        escaped = !escaped;
        n = n - 1;
    }
    let whole = to_chars(line);
    let total: usize = whole.len();
    if escaped && ((total > 0 && whole[total - 1] == ' ') || (total > 1 && whole[total - 1] == '\r'
        && whole[total - 2] == ' ')) {
        text.push(' ');
    }
    text
}

/// The patterns among the first `n` lines.
pub open spec fn line_patterns(lines: Seq<Seq<char>>, n: int) -> Seq<Seq<char>>
    decreases n,
{
    if n <= 0 {
        seq![]
    } else {
        let before = line_patterns(lines, n - 1);
        let line = line_text(lines[n - 1]);
        if is_pattern_line(line) {
            before.push(line)
        } else {
            before
        }
    }
}

/// The patterns in an ignore file: one for each line that is not empty and no comment.
pub open spec fn file_patterns(content: Seq<char>) -> Seq<Seq<char>> {
    let lines = crate::text::pieces(content, '\n');
    line_patterns(lines, lines.len() as int)
}

/// The patterns in the content of an ignore file.
pub fn ignore_patterns(content: &str) -> (r: Vec<String>)
    ensures
        crate::text::views(r@) == file_patterns(content@),
{
    let lines = split(content, '\n');
    let ghost texts = crate::text::views(lines@);
    let mut out: Vec<String> = Vec::new();
    let mut i: usize = 0;
    proof {
        assert(crate::text::views(out@) =~= line_patterns(texts, 0));
    }
    while i < lines.len()
        invariant
            i <= lines@.len(),
            texts == crate::text::views(lines@),
            crate::text::views(out@) == line_patterns(texts, i as int),
        decreases lines@.len() - i,
    {
        let line = read_line(lines[i].as_str());
        let ghost before = out@;
        let ghost text = line@;
        proof {
            assert(texts[i as int] == lines@[i as int]@);
        }
        let chars = to_chars(line.as_str());
        if chars.len() > 0 && chars[0] != '#' {
            out.push(line);
            proof {
                assert(crate::text::views(out@) =~= crate::text::views(before).push(text));
            }
        }
        i = i + 1;
    }
    out
}

/// An ignore file.
#[derive(Debug, Clone)]
pub struct IgnoreFile {
    /// The directory that it is in.
    pub base: String,
    /// What it holds.
    pub content: String,
}

/// The rules in an ignore file, relative to its directory.
pub open spec fn file_rules(file: IgnoreFile) -> Seq<crate::globs::RuleView> {
    file_patterns(file.content@).map_values(
        |text: Seq<char>| crate::globs::rule_of(text, file.base@),
    )
}

/// The rules of several ignore files, in their order.
pub open spec fn files_rules(files: Seq<IgnoreFile>) -> Seq<crate::globs::RuleView>
    decreases files.len(),
{
    if files.len() == 0 {
        seq![]
    } else {
        files_rules(files.drop_last()) + file_rules(files.last())
    }
}

fn read_file_rules(file: &IgnoreFile, out: &mut Vec<Rule>)
    ensures
        crate::globs::rule_views(final(out)@) == crate::globs::rule_views(old(out)@) + file_rules(
            *file,
        ),
        final(out)@.len() >= old(out)@.len(),
{
    let patterns = ignore_patterns(file.content.as_str());
    let ghost texts = crate::text::views(patterns@);
    let ghost start = crate::globs::rule_views(out@);
    let ghost old_len = out@.len();
    let ghost wanted = file_rules(*file);
    let mut i: usize = 0;
    proof {
        assert(crate::globs::rule_views(out@) =~= start + wanted.take(0));
    }
    while i < patterns.len()
        invariant
            i <= patterns@.len(),
            texts == crate::text::views(patterns@),
            texts == file_patterns(file.content@),
            wanted == file_rules(*file),
            crate::globs::rule_views(out@) == start + wanted.take(i as int),
            out@.len() >= old_len,
        decreases patterns@.len() - i,
    {
        let ghost before = out@;
        let rule = read_rule(patterns[i].as_str(), file.base.as_str());
        let ghost added = rule@;
        out.push(rule);
        proof {
            assert(texts[i as int] == patterns@[i as int]@);
            assert(added == wanted[i as int]);
            assert(crate::globs::rule_views(out@) =~= crate::globs::rule_views(before).push(added));
            assert(start + wanted.take(i + 1) =~= (start + wanted.take(i as int)).push(
                wanted[i as int],
            ));
        }
        i = i + 1;
    }
    proof {
        assert(wanted.take(patterns@.len() as int) =~= wanted);
    }
}

/// All rules by which files are ignored: those given, then those in ignore files. `dir` is
/// the directory that given rules are relative to.
pub fn all_rules(given: &Vec<String>, dir: &str, files: &Vec<IgnoreFile>) -> (r: Vec<Rule>)
    ensures
        crate::globs::rule_views(r@) == crate::globs::given_rules_of(
            crate::text::views(given@),
            dir@,
        ) + files_rules(files@),
        r@.len() >= given@.len(),
{
    let ghost first = crate::globs::given_rules_of(crate::text::views(given@), dir@);
    let mut out = read_given_rules(given, dir);
    let mut k: usize = 0;
    proof {
        assert(crate::globs::rule_views(out@).len() == given@.len());
        assert(files@.take(0) =~= Seq::<IgnoreFile>::empty());
        assert(crate::globs::rule_views(out@) =~= first + files_rules(files@.take(0)));
    }
    while k < files.len()
        invariant
            k <= files@.len(),
            crate::globs::rule_views(out@) == first + files_rules(files@.take(k as int)),
            out@.len() >= given@.len(),
        decreases files@.len() - k,
    {
        read_file_rules(&files[k], &mut out);
        proof {
            assert(files@.take(k + 1).drop_last() =~= files@.take(k as int));
            assert(crate::globs::rule_views(out@) =~= first + files_rules(files@.take(k + 1)));
        }
        k = k + 1;
    }
    proof {
        assert(files@.take(files@.len() as int) =~= files@);
    }
    out
}

/// Makes the set of rules by which files are ignored, from those given and from ignore
/// files. `dir` is the directory that given rules are relative to.
pub fn build_ignore_set(given: &Vec<String>, dir: &str, files: &Vec<IgnoreFile>) -> (r: Result<
    PatternSet,
    String,
>)
    ensures
        crate::globs::is_set_of(
            r,
            (crate::globs::RuleList {
                rules: crate::globs::given_rules_of(crate::text::views(given@), dir@)
                    + files_rules(files@),
                given: given@.len() as int,
            }),
            "ignore pattern"@,
        ),
{
    let rules = all_rules(given, dir, files);
    PatternSet::build(rules, given.len(), "ignore pattern")
}

/// Whether a list has a path, perhaps written otherwise.
pub open spec fn lists_path(list: Seq<String>, path: Seq<char>) -> bool {
    exists|i: int| 0 <= i < list.len() && crate::path::same_path((#[trigger] list[i])@, path)
}

/// Whether one of some paths is `path`, perhaps written otherwise.
pub open spec fn names_path(paths: Seq<Seq<char>>, path: Seq<char>) -> bool {
    exists|k: int| 0 <= k < paths.len() && crate::path::same_path(#[trigger] paths[k], path)
}

/// The files that patterns are read from, given the first `n` candidates: the one in the
/// current directory, then each candidate that is not the same path as an earlier one.
pub open spec fn distinct_ignore_files(candidates: Seq<Seq<char>>, n: int) -> Seq<Seq<char>>
    decreases n,
{
    if n <= 0 {
        seq![".dupsonic-ignore"@]
    } else {
        let before = distinct_ignore_files(candidates, n - 1);
        if names_path(before, candidates[n - 1]) {
            before
        } else {
            before.push(candidates[n - 1])
        }
    }
}

/// The files that patterns are read from: the one in the current directory, then each
/// candidate that is not the same path as an earlier one.
pub fn ignore_files(candidates: &Vec<String>) -> (r: Vec<String>)
    ensures
        crate::text::views(r@) == distinct_ignore_files(
            crate::text::views(candidates@),
            candidates@.len() as int,
        ),
{
    let ghost texts = crate::text::views(candidates@);
    let mut out: Vec<String> = Vec::new();
    out.push(".dupsonic-ignore".to_owned());
    proof {
        assert(crate::text::views(out@) =~= seq![".dupsonic-ignore"@]);
    }
    let mut c: usize = 0;
    while c < candidates.len()
        invariant
            c <= candidates@.len(),
            texts == crate::text::views(candidates@),
            crate::text::views(out@) == distinct_ignore_files(texts, c as int),
        decreases candidates@.len() - c,
    {
        let ghost before = out@;
        let ghost named = crate::text::views(out@);
        let found = holds_path(&out, candidates[c].as_str());
        proof {
            assert(texts[c as int] == candidates@[c as int]@);
            if found {
                let k = choose|k: int|
                    0 <= k < before.len() && crate::path::same_path(
                        (#[trigger] before[k])@,
                        texts[c as int],
                    );
                assert(crate::path::same_path(named[k], texts[c as int]));
            } else if names_path(named, texts[c as int]) {
                let k = choose|k: int|
                    0 <= k < named.len() && crate::path::same_path(
                        #[trigger] named[k],
                        texts[c as int],
                    );
                assert(crate::path::same_path(before[k]@, texts[c as int]));
            }
        }
        if !found {
            out.push(copy(&candidates[c]));
            proof {
                assert(crate::text::views(out@) =~= named.push(texts[c as int]));
            }
        }
        c = c + 1;
    }
    out
}

/// No ignore file is read twice.
pub proof fn law_ignore_files_are_read_once(candidates: Seq<Seq<char>>, n: int, i: int, j: int)
    requires
        0 <= i < j < distinct_ignore_files(candidates, n).len(),
    ensures
        !crate::path::same_path(
            distinct_ignore_files(candidates, n)[i],
            distinct_ignore_files(candidates, n)[j],
        ),
    decreases n,
{
    if n > 0 {
        let before = distinct_ignore_files(candidates, n - 1);
        if j < before.len() {
            law_ignore_files_are_read_once(candidates, n - 1, i, j);
        } else if crate::path::same_path(before[i], candidates[n - 1]) {
            assert(names_path(before, candidates[n - 1]));
        }
    }
}

fn holds_path(list: &Vec<String>, path: &str) -> (r: bool)
    ensures
        r == lists_path(list@, path@),
{
    let mut i: usize = 0;
    while i < list.len()
        invariant
            i <= list@.len(),
            forall|k: int|
                0 <= k < i ==> !crate::path::same_path((#[trigger] list@[k])@, path@),
        decreases list@.len() - i,
    {
        if paths_equal(list[i].as_str(), path) {
            return true;
        }
        i = i + 1;
    }
    false
}

// --- Discovery ---

/// A file that was found.
#[derive(Debug, Clone)]
pub struct FoundFile {
    /// Its path.
    pub path: String,
    /// The path that the search began with.
    pub root: String,
}

/// Whether a file that was found is scanned: it is an audio file and not ignored.
pub open spec fn is_scanned(file: FoundFile, patterns: crate::globs::RuleList) -> bool {
    is_audio_path(file.path@) && !crate::globs::ignores(
        patterns,
        file.path@,
        file.root@.len() as int,
    )
}

/// Whether `i` is the first of the scanned files with its path.
pub open spec fn is_first_of_path(found: Seq<FoundFile>, patterns: crate::globs::RuleList, i: int) -> bool {
    &&& 0 <= i < found.len()
    &&& is_scanned(found[i], patterns)
    &&& forall|j: int|
        0 <= j < i && is_scanned(#[trigger] found[j], patterns) ==> !crate::path::same_path(
            found[j].path@,
            found[i].path@,
        )
}

/// In a stable order, the first position with a key comes before all others with it.
proof fn lemma_first_of_run(keys: Seq<Seq<u64>>, order: Seq<usize>, k: int, p: int)
    requires
        crate::order::is_stable_order(keys, order, 0, keys.len() as int),
        keys.len() <= usize::MAX,
        0 <= k < order.len(),
        k > 0 ==> keys[order[k - 1] as int] != keys[order[k] as int],
        0 <= p < order[k],
    ensures
        keys[p] != keys[order[k] as int],
{
    if keys[p] == keys[order[k] as int] {
        assert(order.contains(p as usize));
        let m = choose|m: int| 0 <= m < order.len() && order[m] == p as usize;
        if m > k {
            assert(crate::order::comes_before(keys, order[k] as int, order[m] as int));
        }
        assert(m < k);
        let before = order[k - 1] as int;
        assert(crate::order::comes_before(keys, before, order[k] as int));
        if m < k - 1 {
            assert(crate::order::comes_before(keys, order[m] as int, before));
        }
        crate::order::law_lex_le_reflexive(keys[p]);
        crate::order::law_lex_le_antisymmetric(keys[before], keys[p]);
    }
}

/// `chosen` are the positions of the scanned files, ascending, and `keys` their sort keys.
spec fn are_chosen(
    found: Seq<FoundFile>,
    patterns: crate::globs::RuleList,
    n: int,
    chosen: Seq<usize>,
    keys: Seq<Seq<u64>>,
) -> bool {
    &&& chosen.len() == keys.len()
    &&& forall|p: int|
        0 <= p < chosen.len() ==> (#[trigger] chosen[p]) < n && is_scanned(
            found[chosen[p] as int],
            patterns,
        ) && keys[p] == crate::path::path_key(found[chosen[p] as int].path@)
    &&& forall|j: int|
        0 <= j < n && is_scanned(#[trigger] found[j], patterns) ==> chosen.contains(j as usize)
    &&& forall|p: int, q: int|
        0 <= p < q < chosen.len() ==> #[trigger] chosen[p] < #[trigger] chosen[q]
}

fn choose_audio_files(found: &Vec<FoundFile>, ignore: &PatternSet) -> (r: (Vec<usize>, Vec<Vec<u64>>))
    ensures
        are_chosen(
            found@,
            ignore@,
            found@.len() as int,
            r.0@,
            crate::order::key_views(r.1@),
        ),
{
    let mut chosen: Vec<usize> = Vec::new();
    let mut keys: Vec<Vec<u64>> = Vec::new();
    let mut i: usize = 0;
    while i < found.len()
        invariant
            i <= found@.len(),
            are_chosen(found@, ignore@, i as int, chosen@, crate::order::key_views(keys@)),
        decreases found@.len() - i,
    {
        let ghost chosen0 = chosen@;
        let ghost keys0 = keys@;
        let file = &found[i];
        let path = file.path.as_str();
        let root: usize = to_chars(file.root.as_str()).len();
        let wanted = is_audio_file(path) && !ignore.ignores_file(path, root);
        if wanted {
            let key = sort_key(path);
            let ghost added = key@;
            chosen.push(i);
            keys.push(key);
            proof {
                assert(crate::order::key_views(keys@) =~= crate::order::key_views(keys0).push(
                    added,
                ));
            }
        }
        proof {
            assert forall|j: int|
                0 <= j < i + 1 && is_scanned(
                    #[trigger] found@[j],
                    ignore@,
                ) implies chosen@.contains(j as usize) by {
                if j < i {
                    assert(chosen0.contains(j as usize));
                    let p = choose|p: int| 0 <= p < chosen0.len() && chosen0[p] == j as usize;
                    assert(chosen@[p] == j as usize);
                } else {
                    assert(chosen@[chosen0.len() as int] == j as usize);
                }
            }
        }
        i = i + 1;
    }
    (chosen, keys)
}

/// The position `at` is the first of its path where the key before it in the order differs.
proof fn lemma_first_of_path(
    found: Seq<FoundFile>,
    patterns: crate::globs::RuleList,
    chosen: Seq<usize>,
    keys: Seq<Seq<u64>>,
    order: Seq<usize>,
    k: int,
)
    requires
        found.len() <= usize::MAX,
        keys.len() <= usize::MAX,
        are_chosen(found, patterns, found.len() as int, chosen, keys),
        crate::order::is_stable_order(keys, order, 0, keys.len() as int),
        0 <= k < order.len(),
        k > 0 ==> keys[order[k - 1] as int] != keys[order[k] as int],
    ensures
        is_first_of_path(found, patterns, chosen[order[k] as int] as int),
{
    let here = order[k] as int;
    let at = chosen[here] as int;
    assert forall|j: int| 0 <= j < at && is_scanned(#[trigger] found[j], patterns) implies !crate::path::same_path(
        found[j].path@,
        found[at].path@,
    ) by {
        assert(chosen.contains(j as usize));
        let p = choose|p: int| 0 <= p < chosen.len() && chosen[p] == j as usize;
        if p > here {
            assert(chosen[here] < chosen[p]);
        }
        lemma_first_of_run(keys, order, k, p);
        crate::path::law_path_key_tells_paths_apart(found[j].path@, found[at].path@);
    }
}

/// The texts of a list are in strictly ascending order of their paths.
spec fn strictly_sorted(list: Seq<String>) -> bool {
    forall|p: int, q: int|
        0 <= p < q < list.len() ==> !crate::path::same_path(
            (#[trigger] list[p])@,
            (#[trigger] list[q])@,
        ) && crate::order::lex_le(
            crate::path::path_key(list[p]@),
            crate::path::path_key(list[q]@),
        )
}

proof fn lemma_push_sorted(list: Seq<String>, next: String)
    requires
        strictly_sorted(list),
        list.len() > 0 ==> !crate::path::same_path(list.last()@, next@) && crate::order::lex_le(
            crate::path::path_key(list.last()@),
            crate::path::path_key(next@),
        ),
    ensures
        strictly_sorted(list.push(next)),
{
    let after = list.push(next);
    let key = crate::path::path_key(next@);
    assert forall|p: int, q: int| 0 <= p < q < after.len() implies !crate::path::same_path(
        (#[trigger] after[p])@,
        (#[trigger] after[q])@,
    ) && crate::order::lex_le(
        crate::path::path_key(after[p]@),
        crate::path::path_key(after[q]@),
    ) by {
        if q == list.len() {
            let last = list.len() - 1;
            let key_p = crate::path::path_key(list[p]@);
            let key_last = crate::path::path_key(list[last]@);
            crate::path::law_path_key_tells_paths_apart(list[p]@, next@);
            crate::path::law_path_key_tells_paths_apart(list[last]@, next@);
            crate::order::law_lex_le_reflexive(key_p);
            if p < last {
                assert(crate::order::lex_le(key_p, key_last));
            }
            crate::order::law_lex_le_transitive(key_p, key_last, key);
            if key_p == key {
                crate::order::law_lex_le_antisymmetric(key_last, key);
            }
        } else {
            assert(after[p] == list[p] && after[q] == list[q]);
        }
    }
}

/// Whether a list has a path with this key.
spec fn lists_key(list: Seq<String>, key: Seq<u64>) -> bool {
    exists|q: int| 0 <= q < list.len() && crate::path::path_key((#[trigger] list[q])@) == key
}

/// Whether a text is that of the first of the scanned files with its path.
pub open spec fn is_chosen_text(
    found: Seq<FoundFile>,
    patterns: crate::globs::RuleList,
    text: Seq<char>,
) -> bool {
    exists|i: int| #[trigger] is_first_of_path(found, patterns, i) && found[i].path@ == text
}

fn take_in_order(
    found: &Vec<FoundFile>,
    chosen: &Vec<usize>,
    keys: &Vec<Vec<u64>>,
    Ghost(patterns): Ghost<crate::globs::RuleList>,
) -> (r: Vec<String>)
    requires
        are_chosen(
            found@,
            patterns,
            found@.len() as int,
            chosen@,
            crate::order::key_views(keys@),
        ),
    ensures
        forall|k: int|
            0 <= k < r@.len() ==> is_chosen_text(found@, patterns, (#[trigger] r@[k])@),
        forall|p: int|
            0 <= p < keys@.len() ==> lists_key(r@, #[trigger] crate::order::key_views(keys@)[p]),
        strictly_sorted(r@),
{
    let ghost views = crate::order::key_views(keys@);
    let total: usize = keys.len();
    let count: usize = found.len();
    let order = sort_order(keys);
    let mut out: Vec<String> = Vec::new();
    let mut k: usize = 0;
    while k < order.len()
        invariant
            k <= order@.len(),
            total == keys@.len(),
            count == found@.len(),
            views == crate::order::key_views(keys@),
            are_chosen(found@, patterns, found@.len() as int, chosen@, views),
            crate::order::is_stable_order(views, order@, 0, keys@.len() as int),
            k > 0 <==> out@.len() > 0,
            k > 0 ==> crate::path::path_key(out@.last()@) == views[order@[k - 1] as int],
            forall|q: int|
                0 <= q < out@.len() ==> is_chosen_text(found@, patterns, (#[trigger] out@[q])@),
            forall|m: int|
                0 <= m < k ==> lists_key(out@, views[#[trigger] order@[m] as int]),
            strictly_sorted(out@),
        decreases order@.len() - k,
    {
        let at: usize = chosen[order[k]];
        let path = &found[at].path;
        let ghost out0 = out@;
        let ghost key = crate::path::path_key(path@);
        assert(views[order@[k as int] as int] == key);
        let repeated = out.len() > 0 && paths_equal(out[out.len() - 1].as_str(), path.as_str());
        proof {
            if out0.len() > 0 {
                crate::path::law_path_key_tells_paths_apart(out0.last()@, path@);
                assert(crate::order::comes_before(
                    views,
                    order@[k - 1] as int,
                    order@[k as int] as int,
                ));
            }
        }
        if !repeated {
            out.push(copy(path));
            proof {
                let next = out@[out0.len() as int];
                assert(out@ =~= out0.push(next));
                lemma_push_sorted(out0, next);
                lemma_first_of_path(found@, patterns, chosen@, views, order@, k as int);
                assert(is_chosen_text(found@, patterns, next@));
            }
        }
        proof {
            let last = out@.len() - 1;
            assert(crate::path::path_key(out@[last]@) == key);
            assert forall|m: int| 0 <= m < k + 1 implies lists_key(
                out@,
                views[#[trigger] order@[m] as int],
            ) by {
                if m < k {
                    let wanted = views[order@[m] as int];
                    assert(lists_key(out0, wanted));
                    let q = choose|q: int|
                        0 <= q < out0.len() && crate::path::path_key((#[trigger] out0[q])@)
                            == wanted;
                    assert(out@[q] == out0[q]);
                }
            }
        }
        k = k + 1;
    }
    proof {
        assert forall|p: int| 0 <= p < keys@.len() implies lists_key(
            out@,
            #[trigger] crate::order::key_views(keys@)[p],
        ) by {
            assert(order@.contains(p as usize));
            let m = choose|m: int| 0 <= m < order@.len() && order@[m] == p as usize;
            assert(lists_key(out@, views[order@[m] as int]));
        }
    }
    out
}

/// Selects the files to scan among those that were found: the audio files that are not
/// ignored, sorted by path, each path once and as it was found first.
pub fn select_audio_files(found: &Vec<FoundFile>, ignore: &PatternSet) -> (r: Vec<String>)
    ensures
        forall|k: int|
            0 <= k < r@.len() ==> is_chosen_text(found@, ignore@, (#[trigger] r@[k])@),
        forall|i: int|
            0 <= i < found@.len() && is_scanned(#[trigger] found@[i], ignore@) ==> lists_path(
                r@,
                found@[i].path@,
            ),
        forall|k: int, l: int|
            0 <= k < l < r@.len() ==> !crate::path::same_path(
                (#[trigger] r@[k])@,
                (#[trigger] r@[l])@,
            ) && crate::order::lex_le(
                crate::path::path_key(r@[k]@),
                crate::path::path_key(r@[l]@),
            ),
{
    let count: usize = found.len();
    let (chosen, keys) = choose_audio_files(found, ignore);
    let out = take_in_order(found, &chosen, &keys, Ghost(ignore@));
    proof {
        let views = crate::order::key_views(keys@);
        assert forall|i: int|
            0 <= i < found@.len() && is_scanned(
                #[trigger] found@[i],
                ignore@,
            ) implies lists_path(out@, found@[i].path@) by {
            assert(chosen@.contains(i as usize));
            let p = choose|p: int| 0 <= p < chosen@.len() && chosen@[p] == i as usize;
            assert(chosen@[p] as int == i) by {
                assert(i < count);
            }
            assert(lists_key(out@, views[p]));
            let q = choose|q: int|
                0 <= q < out@.len() && crate::path::path_key((#[trigger] out@[q])@) == views[p];
            crate::path::law_path_key_tells_paths_apart(out@[q]@, found@[i].path@);
            assert(crate::path::same_path(out@[q]@, found@[i].path@));
        }
    }
    out
}

// --- Change detection ---

/// A file that may have to be fingerprinted: what is on disk of it, where it can be read,
/// and what the database has.
#[derive(Debug, Clone, Copy)]
pub struct FileState {
    /// Metadata on disk.
    pub meta: Option<FileMeta>,
    /// What is cached.
    pub cached: Option<CachedMeta>,
}

/// Whether a file has to be fingerprinted: always by force, else unless it is current.
pub open spec fn must_process(state: FileState, length: u64, force: bool) -> bool {
    force || !crate::database::spec_is_current(state.meta, state.cached, length)
}

/// Whether a file has to be fingerprinted.
pub fn needs_processing(state: &FileState, length: u64, force: bool) -> (r: bool)
    ensures
        r == must_process(*state, length, force),
{
    force || !is_current(state.meta, state.cached, length)
}

/// The positions of the files among the first `n` that have to be fingerprinted.
pub open spec fn positions_to_process(
    states: Seq<FileState>,
    length: u64,
    force: bool,
    n: int,
) -> Seq<usize>
    decreases n,
{
    if n <= 0 {
        seq![]
    } else {
        let before = positions_to_process(states, length, force, n - 1);
        if must_process(states[n - 1], length, force) {
            before.push((n - 1) as usize)
        } else {
            before
        }
    }
}

/// The positions of the files that have to be fingerprinted.
pub fn files_to_process(states: &Vec<FileState>, length: u64, force: bool) -> (r: Vec<usize>)
    ensures
        r@ == positions_to_process(states@, length, force, states@.len() as int),
{
    let mut out: Vec<usize> = Vec::new();
    let mut n: usize = 0;
    while n < states.len()
        invariant
            n <= states@.len(),
            out@ == positions_to_process(states@, length, force, n as int),
        decreases states@.len() - n,
    {
        if needs_processing(&states[n], length, force) {
            out.push(n);
        }
        n = n + 1;
    }
    out
}

/// A file that was fingerprinted is not fingerprinted again, unless it changes or is forced.
pub proof fn law_fingerprinted_file_is_skipped(meta: FileMeta, length: u64)
    ensures
        !must_process(
            (FileState {
                meta: Some(meta),
                cached: Some(
                    CachedMeta {
                        size: meta.size,
                        mtime_secs: meta.mtime_secs,
                        fingerprint_length: Some(length as i64),
                    },
                ),
            }),
            length,
            false,
        ),
{
}

// --- Results ---

/// `result` is what is stored for a file, given how fingerprinting it went.
pub open spec fn is_scan_result(
    result: ScanResult,
    path: Seq<char>,
    outcome: Result<FingerprintResult, String>,
    meta: Option<FileMeta>,
    length: u64,
) -> bool {
    match (outcome, meta) {
        (Ok(printed), Some(m)) => result matches ScanResult::Success {
            path: p,
            meta: rm,
            duration_ns: d,
            fingerprint: f,
            fingerprint_length: l,
            band_hashes: b,
        } && p@ == path && rm == m && d == printed.duration_ns && f@ == printed.fingerprint@ && l
            == length && b@.len() == crate::lsh::band_count(printed.fingerprint@) && (forall|k: int|
            0 <= k < b@.len() ==> #[trigger] b@[k] == crate::lsh::band_hash_of(
                printed.fingerprint@,
                k,
            )),
        (Ok(_), None) => result matches ScanResult::Error { path: p, meta: None, error: e } && p@
            == path && e@ == "failed to read file metadata"@,
        (Err(message), _) => result matches ScanResult::Error { path: p, meta: m, error: e } && p@
            == path && m == meta && e@ == message@,
    }
}

/// What is stored for a file: its fingerprint with its band hashes, or why there is none.
pub fn scan_result(
    path: String,
    outcome: Result<FingerprintResult, String>,
    meta: Option<FileMeta>,
    length: u64,
) -> (r: ScanResult)
    ensures
        is_scan_result(r, path@, outcome, meta, length),
{
    match outcome {
        Ok(printed) => match meta {
            Some(m) => {
                let band_hashes = compute_band_hashes(printed.fingerprint.as_slice());
                ScanResult::Success {
                    path,
                    meta: m,
                    duration_ns: printed.duration_ns,
                    fingerprint: printed.fingerprint,
                    fingerprint_length: length,
                    band_hashes,
                }
            },
            None => ScanResult::Error {
                path,
                meta: None,
                error: "failed to read file metadata".to_owned(),
            },
        },
        Err(error) => ScanResult::Error { path, meta, error },
    }
}

/// How many results are stored in one transaction.
pub const BATCH_SIZE: usize = 64;

/// Gathers results into batches, and counts them.
#[derive(Debug)]
pub struct Batcher {
    batch: Vec<ScanResult>,
    successes: u64,
    errors: u64,
}

/// A count that stops at the largest 64-bit number.
pub open spec fn one_more(count: u64, more: bool) -> u64 {
    if more && count < u64::MAX {
        (count + 1) as u64
    } else {
        count
    }
}

impl Batcher {
    /// The results that wait for their batch to fill.
    pub closed spec fn waiting(&self) -> Seq<ScanResult> {
        self.batch@
    }

    /// How many fingerprints came.
    pub closed spec fn spec_successes(&self) -> u64 {
        self.successes
    }

    /// How many errors came.
    pub closed spec fn spec_errors(&self) -> u64 {
        self.errors
    }

    /// Fewer results wait than make a batch.
    pub open spec fn wf(&self) -> bool {
        self.waiting().len() < BATCH_SIZE
    }

    /// An empty batcher.
    pub fn new() -> (r: Batcher)
        ensures
            r.wf(),
            r.waiting().len() == 0,
            r.spec_successes() == 0,
            r.spec_errors() == 0,
    {
        Batcher { batch: Vec::new(), successes: 0, errors: 0 }
    }

    /// Takes in a result, and hands out the batch that it fills.
    pub fn push(&mut self, result: ScanResult) -> (r: Option<Vec<ScanResult>>)
        requires
            old(self).wf(),
        ensures
            final(self).wf(),
            final(self).spec_successes() == one_more(
                old(self).spec_successes(),
                result is Success,
            ),
            final(self).spec_errors() == one_more(old(self).spec_errors(), result is Error),
            match r {
                Some(batch) => batch@ == old(self).waiting().push(result) && batch@.len() == 64
                    && final(self).waiting().len() == 0,
                None => final(self).waiting() == old(self).waiting().push(result)
                    && final(self).waiting().len() < 64,
            },
    {
        match &result {
            ScanResult::Success { .. } => {
                if self.successes < u64::MAX {
                    self.successes = self.successes + 1;
                }
            },
            ScanResult::Error { .. } => {
                if self.errors < u64::MAX {
                    self.errors = self.errors + 1;
                }
            },
        }
        self.batch.push(result);
        if self.batch.len() >= BATCH_SIZE {
            let mut full: Vec<ScanResult> = Vec::new();
            full.append(&mut self.batch);
            proof {
                assert(full@ =~= old(self).waiting().push(result));
            }
            Some(full)
        } else {
            None
        }
    }

    /// Hands out what is left at the end, if anything.
    pub fn finish(self) -> (r: Option<Vec<ScanResult>>)
        ensures
            match r {
                Some(batch) => batch@ == self.waiting() && batch@.len() > 0,
                None => self.waiting().len() == 0,
            },
    {
        if self.batch.len() == 0 {
            None
        } else {
            Some(self.batch)
        }
    }

    /// How many fingerprints and errors came.
    pub fn counts(&self) -> (r: (u64, u64))
        ensures
            r.0 == self.spec_successes(),
            r.1 == self.spec_errors(),
    {
        (self.successes, self.errors)
    }
}

/// All results of some batches, one behind the other.
pub open spec fn batched(batches: Seq<Seq<ScanResult>>) -> Seq<ScanResult>
    decreases batches.len(),
{
    if batches.len() == 0 {
        seq![]
    } else {
        batched(batches.drop_last()) + batches.last()
    }
}

/// No result is lost or reordered: what came out in batches and what waits, together, is
/// what went in.
pub proof fn law_batches_keep_every_result(
    out: Seq<Seq<ScanResult>>,
    waiting: Seq<ScanResult>,
    pushed: Seq<ScanResult>,
    result: ScanResult,
    after: Batcher,
    handed: Option<Vec<ScanResult>>,
)
    requires
        batched(out) + waiting == pushed,
        match handed {
            Some(batch) => batch@ == waiting.push(result) && after.waiting().len() == 0,
            None => after.waiting() == waiting.push(result),
        },
    ensures
        match handed {
            Some(batch) => batched(out.push(batch@)) + after.waiting() == pushed.push(result),
            None => batched(out) + after.waiting() == pushed.push(result),
        },
{
    match handed {
        Some(batch) => {
            assert(out.push(batch@).drop_last() =~= out);
            assert(batched(out.push(batch@)) + after.waiting() =~= pushed.push(result));
        },
        None => {
            assert(batched(out) + after.waiting() =~= pushed.push(result));
        },
    }
}

/// The closing line of a scan.
pub fn finished_line(successes: u64, errors: u64) -> (r: String)
    ensures
        r@ == "Finished: "@ + crate::text::decimal_text(successes as nat) + " fingerprinted, "@
            + crate::text::decimal_text(errors as nat) + " errors"@,
{
    concat5(
        "Finished: ",
        decimal(successes as u128).as_str(),
        " fingerprinted, ",
        decimal(errors as u128).as_str(),
        " errors",
    )
}

/// The line at the start of a scan.
pub fn start_line(files: u64, jobs: u64) -> (r: String)
    ensures
        r@ == "Fingerprinting "@ + crate::text::decimal_text(files as nat) + " files using "@
            + crate::text::decimal_text(jobs as nat) + " workers..."@,
{
    concat5(
        "Fingerprinting ",
        decimal(files as u128).as_str(),
        " files using ",
        decimal(jobs as u128).as_str(),
        " workers...",
    )
}

// --- Laws ---

/// A file is one of audio just where its extension, in any letter case, is one of those that
/// are supported.
pub proof fn law_audio_formats(path: Seq<char>, ext: Seq<char>)
    ensures
        crate::path::path_extension(path) is None ==> !is_audio_path(path),
        crate::path::path_extension(path) == Some(ext) ==> {
            let lowered = crate::text::unicode_lowercase(ext);
            is_audio_path(path) <==> (lowered == "mp3"@ || lowered == "flac"@ || lowered == "ogg"@
                || lowered == "opus"@ || lowered == "wav"@ || lowered == "m4a"@ || lowered
                == "aac"@ || lowered == "wma"@ || lowered == "aiff"@ || lowered == "aif"@ || lowered
                == "ape"@ || lowered == "wv"@ || lowered == "mpc"@ || lowered == "oga"@ || lowered
                == "spx"@ || lowered == "webm"@ || lowered == "mp4"@)
        },
{
}

/// A file that was found is scanned just where it is one of audio and the rules do not ignore
/// it or a directory above it, up to where the search began.
pub proof fn law_what_is_scanned(file: FoundFile, patterns: crate::globs::RuleList)
    ensures
        is_scanned(file, patterns) <==> is_audio_path(file.path@) && !crate::globs::ignores(
            patterns,
            file.path@,
            file.root@.len() as int,
        ),
{
}

/// What is chosen is a path that was found, is scanned, and was not found before in another
/// writing.
pub proof fn law_chosen_files_were_found(
    found: Seq<FoundFile>,
    patterns: crate::globs::RuleList,
    text: Seq<char>,
) -> (i: int)
    requires
        is_chosen_text(found, patterns, text),
    ensures
        0 <= i < found.len(),
        found[i].path@ == text,
        is_scanned(found[i], patterns),
        forall|j: int|
            0 <= j < i && is_scanned(#[trigger] found[j], patterns) ==> !crate::path::same_path(
                found[j].path@,
                text,
            ),
{
    choose|i: int| #[trigger] is_first_of_path(found, patterns, i) && found[i].path@ == text
}

/// A file is fingerprinted by force, and otherwise just where it cannot be read, was not
/// fingerprinted before, has another size or modification time than then, or was fingerprinted
/// at another length.
pub proof fn law_changed_files_are_fingerprinted(state: FileState, length: u64, force: bool)
    requires
        length <= i64::MAX,
    ensures
        force ==> must_process(state, length, force),
        !force ==> (!must_process(state, length, force) <==> (state.meta matches Some(m)
            && state.cached matches Some(c) && m.size == c.size && m.mtime_secs == c.mtime_secs && (
        c.fingerprint_length matches Some(known) && known == length))),
{
}

/// The files that are fingerprinted are those that have to be, in their order.
pub proof fn law_every_changed_file_is_listed(
    states: Seq<FileState>,
    length: u64,
    force: bool,
    n: int,
    k: int,
)
    requires
        0 <= n <= states.len() <= usize::MAX,
        0 <= k < states.len(),
    ensures
        ({
            let list = positions_to_process(states, length, force, n);
            &&& list.contains(k as usize) <==> k < n && must_process(states[k], length, force)
            &&& forall|p: int| 0 <= p < list.len() ==> #[trigger] list[p] < n
            &&& forall|p: int, q: int|
                0 <= p < q < list.len() ==> #[trigger] list[p] < #[trigger] list[q]
        }),
    decreases n,
{
    if n > 0 {
        law_every_changed_file_is_listed(states, length, force, n - 1, k);
        let fewer = positions_to_process(states, length, force, n - 1);
        let list = positions_to_process(states, length, force, n);
        if fewer.contains(k as usize) {
            let p = choose|p: int| 0 <= p < fewer.len() && fewer[p] == k as usize;
            assert(list[p] == k as usize);
        }
        if k == n - 1 && list.len() > fewer.len() {
            assert(list[fewer.len() as int] == k as usize);
        }
        if list.contains(k as usize) && !fewer.contains(k as usize) {
            let p = choose|p: int| 0 <= p < list.len() && list[p] == k as usize;
            if p < fewer.len() {
                assert(fewer[p] == k as usize);
            }
        }
    }
}

/// A fingerprint is stored with the file's metadata, the duration, the length that was
/// fingerprinted and the hash of each band; without the metadata, or without a fingerprint, an
/// error is.
pub proof fn law_what_is_stored_of_a_file(
    result: ScanResult,
    path: Seq<char>,
    outcome: Result<FingerprintResult, String>,
    meta: Option<FileMeta>,
    length: u64,
)
    requires
        is_scan_result(result, path, outcome, meta, length),
    ensures
        result is Success <==> outcome is Ok && meta is Some,
        result matches ScanResult::Success {
            path: p,
            meta: m,
            duration_ns: d,
            fingerprint: f,
            fingerprint_length: l,
            band_hashes: b,
        } ==> {
            &&& p@ == path
            &&& m.size == meta->0.size && m.mtime_secs == meta->0.mtime_secs
            &&& d == outcome->Ok_0.duration_ns
            &&& f@ == outcome->Ok_0.fingerprint@
            &&& l == length
            &&& b@.len() <= 50 && 2 * b@.len() <= f@.len()
            &&& b@.len() < 50 ==> f@.len() < 2 * b@.len() + 2
            &&& forall|k: int|
                0 <= k < b@.len() ==> #[trigger] b@[k] == crate::lsh::band_hash(
                    seq![f@[2 * k], f@[2 * k + 1]],
                )
        },
        result matches ScanResult::Error { path: p, meta: m, error: e } ==> p@ == path && m == meta
            && (outcome matches Err(message) ==> e@ == message@) && (outcome is Ok ==> e@
            == "failed to read file metadata"@),
{
    if let ScanResult::Success { fingerprint, band_hashes, .. } = result {
        let f = fingerprint@;
        assert forall|k: int| 0 <= k < band_hashes@.len() implies #[trigger] band_hashes@[k]
            == crate::lsh::band_hash(seq![f[2 * k], f[2 * k + 1]]) by {
            crate::lsh::law_a_band_is_two_sub_fingerprints(f, f, k);
        }
    }
}

/// A count goes up by one where one more comes, until it cannot be represented.
pub proof fn law_one_more_counts(count: u64, more: bool)
    ensures
        more && count < u64::MAX ==> one_more(count, more) == count + 1,
        !more ==> one_more(count, more) == count,
{
}

/// Each line of an ignore file that has more than white space and does not start with `#` is a
/// pattern, in the order of the lines; the others are none.
pub proof fn law_each_line_is_a_pattern(before: Seq<char>, line: Seq<char>)
    requires
        forall|i: int| 0 <= i < line.len() ==> #[trigger] line[i] != '\n',
    ensures
        ({
            let text = crate::text::trimmed(line);
            let is_pattern = text.len() > 0 && text[0] != '#';
            &&& is_pattern ==> file_patterns(before.push('\n') + line) == file_patterns(before).push(
                line_text(line),
            )
            &&& !is_pattern ==> file_patterns(before.push('\n') + line) == file_patterns(before)
            &&& is_pattern ==> file_patterns(line) == seq![line_text(line)]
            &&& !is_pattern ==> file_patterns(line).len() == 0
            &&& (text.len() == 0 || text.last() != '\\') ==> line_text(line) == text
        }),
{
    crate::text::law_pieces_lie_between_separators(before, line, '\n');
    let text = crate::text::trimmed(line);
    let lines = crate::text::pieces(before, '\n');
    let n = lines.len() as int;
    lemma_line_patterns_prefix(lines, lines.push(line), n);
    let none = Seq::<Seq<char>>::empty();
    assert(line_patterns(seq![line], 0) =~= none);
    assert(seq![line][0] == line);
    if text.len() > 0 {
        assert(line_text(line)[0] == text[0]);
    }
    if ends_in_escape(text) {
        assert(text.len() > 0);
    }
    assert(line_patterns(seq![line], 1) =~= if is_pattern_line(line_text(line)) {
        seq![line_text(line)]
    } else {
        none
    });
}

proof fn lemma_line_patterns_prefix(a: Seq<Seq<char>>, b: Seq<Seq<char>>, n: int)
    requires
        0 <= n <= a.len(),
        n <= b.len(),
        forall|i: int| 0 <= i < n ==> #[trigger] a[i] == b[i],
    ensures
        line_patterns(a, n) == line_patterns(b, n),
    decreases n,
{
    if n > 0 {
        assert(a[n - 1] == b[n - 1]);
        lemma_line_patterns_prefix(a, b, n - 1);
    }
}

/// A space behind a backslash stays at the end of a line, and other white space goes.
pub proof fn law_a_quoted_space_stays(text: Seq<char>)
    requires
        text.len() > 0,
        crate::text::trimmed(text) == text,
        crate::text::trimmed(text.push('\\').push(' ')) == text.push('\\'),
        text.last() != '\\',
    ensures
        line_text(text.push('\\').push(' ')) == text.push('\\').push(' '),
        line_text(text) == text,
{
    let quoted = text.push('\\');
    assert(quoted.drop_last() =~= text);
    assert(!ends_in_escape(text));
    assert(ends_in_escape(quoted));
    assert(quoted.push(' ').last() == ' ');
}

/// A carriage return behind a quoted space goes and the space stays, and a backslash that is
/// quoted itself quotes no space.
pub proof fn law_what_quotes_a_space(text: Seq<char>)
    requires
        text.len() > 0,
        text.last() != '\\',
    ensures
        ({
            let quoted = text.push('\\');
            crate::text::trimmed(quoted.push(' ').push('\r')) == quoted ==> line_text(
                quoted.push(' ').push('\r'),
            ) == quoted.push(' ')
        }),
        ({
            let twice = text.push('\\').push('\\');
            crate::text::trimmed(twice.push(' ')) == twice ==> line_text(twice.push(' ')) == twice
        }),
{
    let quoted = text.push('\\');
    let twice = quoted.push('\\');
    assert(quoted.drop_last() =~= text);
    assert(twice.drop_last() =~= quoted);
    assert(!ends_in_escape(text));
    assert(ends_in_escape(quoted));
    assert(!ends_in_escape(twice));
    let line = quoted.push(' ').push('\r');
    assert(line.last() == '\r' && line[line.len() - 2] == ' ');
}

/// The rules of ignore files are those of each file, one behind the other, and each is relative
/// to the directory of its file.
pub proof fn law_rules_are_relative_to_their_file(
    files: Seq<IgnoreFile>,
    file: IgnoreFile,
    i: int,
)
    requires
        0 <= i < file_patterns(file.content@).len(),
    ensures
        files_rules(Seq::empty()).len() == 0,
        files_rules(files.push(file)) == files_rules(files) + file_rules(file),
        file_rules(file).len() == file_patterns(file.content@).len(),
        file_rules(file)[i] == crate::globs::rule_of(file_patterns(file.content@)[i], file.base@),
{
    assert(files.push(file).drop_last() =~= files);
}

/// Every candidate for an ignore file is read, or the same path is, and so is the file in the
/// current directory.
pub proof fn law_every_ignore_file_is_read(candidates: Seq<Seq<char>>, n: int, k: int)
    requires
        0 <= k < n <= candidates.len(),
    ensures
        distinct_ignore_files(candidates, n).len() > 0,
        distinct_ignore_files(candidates, n)[0] == ".dupsonic-ignore"@,
        exists|i: int|
            0 <= i < distinct_ignore_files(candidates, n).len() && crate::path::same_path(
                #[trigger] distinct_ignore_files(candidates, n)[i],
                candidates[k],
            ),
    decreases n,
{
    let before = distinct_ignore_files(candidates, n - 1);
    let now = distinct_ignore_files(candidates, n);
    if n - 1 > 0 {
        law_every_ignore_file_is_read(candidates, n - 1, if k < n - 1 { k } else { 0 });
    }
    if k < n - 1 {
        let i = choose|i: int|
            0 <= i < before.len() && crate::path::same_path(#[trigger] before[i], candidates[k]);
        assert(now[i] == before[i]);
        assert(crate::path::same_path(now[i], candidates[k]));
    } else if names_path(before, candidates[k]) {
        let i = choose|i: int|
            0 <= i < before.len() && crate::path::same_path(#[trigger] before[i], candidates[k]);
        assert(crate::path::same_path(now[i], candidates[k]));
    } else {
        let i = before.len() as int;
        assert(now[i] == candidates[k]);
        assert(crate::path::same_path(now[i], candidates[k]));
    }
}

/// A list has a path just where one of its items has the same components.
pub proof fn law_a_list_has_a_path_however_written(list: Seq<String>, path: Seq<char>)
    ensures
        lists_path(list, path) <==> exists|i: int|
            0 <= i < list.len() && crate::path::path_components((#[trigger] list[i])@)
                == crate::path::path_components(path),
{
    if lists_path(list, path) {
        let i = choose|i: int|
            0 <= i < list.len() && crate::path::same_path((#[trigger] list[i])@, path);
        assert(crate::path::path_components(list[i]@) == crate::path::path_components(path));
    }
    if exists|i: int|
        0 <= i < list.len() && crate::path::path_components((#[trigger] list[i])@)
            == crate::path::path_components(path) {
        let i = choose|i: int|
            0 <= i < list.len() && crate::path::path_components((#[trigger] list[i])@)
                == crate::path::path_components(path);
        assert(crate::path::same_path(list[i]@, path));
    }
}

} // verus!
