use dupsonic::exec::{
    command_to_run, count_outcomes, group_line, plan_group, shell_quote, step_line, step_outcome,
    totals_line, ExecTotals, FileStep, Outcome,
};
use dupsonic::keep::{select_keeper, FileFacts, KeepStrategy};
use dupsonic::matcher::{DuplicateFile, MatchKind};

fn files(paths: &[&str]) -> Vec<DuplicateFile> {
    paths
        .iter()
        .map(|p| DuplicateFile {
            path: p.to_string(),
            duration_ns: 0,
            match_kind: MatchKind::Similar,
        })
        .collect()
}

fn facts(size: u64, mtime_secs: i64, sample_rate: u32, bits_per_sample: u32) -> FileFacts {
    FileFacts {
        size,
        mtime_secs,
        sample_rate,
        bits_per_sample,
    }
}

fn plain(n: usize) -> Vec<FileFacts> {
    vec![facts(0, 0, 0, 0); n]
}

fn keep(paths: &[&str], known: &[FileFacts], strategy: &str) -> Option<usize> {
    let strategy = KeepStrategy::parse(strategy).unwrap();
    select_keeper(&files(paths), &known.to_vec(), &strategy)
}

#[test]
fn strategies_are_parsed() {
    assert!(matches!(KeepStrategy::parse("Best"), Ok(KeepStrategy::Best)));
    assert!(matches!(KeepStrategy::parse("LARGEST"), Ok(KeepStrategy::Largest)));
    assert!(matches!(KeepStrategy::parse("smallest"), Ok(KeepStrategy::Smallest)));
    assert!(matches!(KeepStrategy::parse("newest"), Ok(KeepStrategy::Newest)));
    assert!(matches!(KeepStrategy::parse("oldest"), Ok(KeepStrategy::Oldest)));
    match KeepStrategy::parse("ext: FLAC ,Wav") {
        Ok(KeepStrategy::Ext(list)) => assert_eq!(list, vec!["flac", "wav"]),
        other => panic!("{other:?}"),
    }
    match KeepStrategy::parse("regex:/Music/.*") {
        Ok(KeepStrategy::Regex(p)) => assert_eq!(p, "/Music/.*"),
        other => panic!("{other:?}"),
    }
    match KeepStrategy::parse("iregex:music") {
        Ok(KeepStrategy::Regex(p)) => assert_eq!(p, "(?i)music"),
        other => panic!("{other:?}"),
    }
}

#[test]
fn bad_strategies_are_refused() {
    assert_eq!(
        KeepStrategy::parse("ext:flac,").unwrap_err(),
        "Invalid ext: strategy, expected ext:flac or ext:flac,wav"
    );
    assert_eq!(
        KeepStrategy::parse("ext:").unwrap_err(),
        "Invalid ext: strategy, expected ext:flac or ext:flac,wav"
    );
    assert_eq!(
        KeepStrategy::parse("shortest").unwrap_err(),
        "Unknown keep strategy 'shortest'. Expected: best, largest, smallest, newest, oldest, ext:<exts>, regex:<pattern>, iregex:<pattern>"
    );
    let refused = KeepStrategy::parse("regex:(").unwrap_err();
    assert!(refused.starts_with("Invalid regex pattern '(': "), "{refused}");
    let refused = KeepStrategy::parse("iregex:(").unwrap_err();
    assert!(refused.starts_with("Invalid regex pattern '(?i)(': "), "{refused}");
}

#[test]
fn the_best_is_lossless_then_rate_then_depth_then_size() {
    let paths = ["a.mp3", "b.flac", "c.FLAC", "d.wav"];
    assert_eq!(
        keep(
            &paths,
            &[
                facts(900, 0, 96000, 32),
                facts(10, 0, 44100, 24),
                facts(20, 0, 48000, 16),
                facts(30, 0, 44100, 16),
            ],
            "best"
        ),
        Some(2)
    );
    assert_eq!(
        keep(
            &paths,
            &[
                facts(900, 0, 96000, 32),
                facts(10, 0, 44100, 16),
                facts(20, 0, 44100, 24),
                facts(30, 0, 44100, 16),
            ],
            "best"
        ),
        Some(2)
    );
    assert_eq!(
        keep(
            &paths,
            &[facts(900, 0, 0, 0), facts(10, 0, 0, 0), facts(20, 0, 0, 0), facts(30, 0, 0, 0)],
            "best"
        ),
        Some(3)
    );
    // Of equals the last one is kept.
    assert_eq!(keep(&["a.mp3", "b.mp3"], &plain(2), "best"), Some(1));
}

#[test]
fn extensions_and_patterns_choose_among_the_matching() {
    let paths = ["/a/x.mp3", "/a/y.flac", "/B/z.flac"];
    let known = [facts(9, 0, 0, 0), facts(7, 0, 0, 0), facts(5, 0, 0, 0)];
    assert_eq!(keep(&paths, &known, "ext:FLAC"), Some(1));
    assert_eq!(keep(&paths, &known, "ext:mp3"), Some(0));
    assert_eq!(keep(&paths, &known, "ext:ogg"), None);
    assert_eq!(keep(&paths, &known, "regex:^/B/"), Some(2));
    assert_eq!(keep(&paths, &known, "regex:^/b/"), None);
    assert_eq!(keep(&paths, &known, "iregex:^/b/"), Some(2));
    assert_eq!(keep(&paths, &known, "regex:flac$"), Some(1));
}

#[test]
fn size_and_time_strategies() {
    let paths = ["a", "b", "c", "d"];
    let known = [
        facts(5, 30, 0, 0),
        facts(9, 10, 0, 0),
        facts(9, -4, 0, 0),
        facts(5, 30, 0, 0),
    ];
    // The last of the largest and newest, the first of the smallest and oldest.
    assert_eq!(keep(&paths, &known, "largest"), Some(2));
    assert_eq!(keep(&paths, &known, "smallest"), Some(0));
    assert_eq!(keep(&paths, &known, "newest"), Some(3));
    assert_eq!(keep(&paths, &known, "oldest"), Some(2));
    assert_eq!(keep(&[], &[], "best"), None);
}

#[test]
fn paths_are_quoted_for_the_shell() {
    assert_eq!(shell_quote("/a b/c").unwrap(), "'/a b/c'");
    assert_eq!(shell_quote("it's").unwrap(), "'it'\\''s'");
    assert_eq!(shell_quote("").unwrap(), "''");
    assert_eq!(shell_quote("$(x)`y`\"z\"\\").unwrap(), "'$(x)`y`\"z\"\\'");
    assert!(shell_quote("a\nb").is_none());
    assert!(shell_quote("a\u{0}b").is_none());
    assert!(shell_quote("a\u{7f}").is_none());
    assert!(shell_quote("a\u{85}").is_none());
    assert_eq!(shell_quote("ä").unwrap(), "'ä'");
}

#[test]
fn a_plan_runs_the_command_on_all_but_the_kept_file() {
    let list = files(&["a.mp3", "it's.flac", "new\nline.mp3"]);
    let plan = plan_group(&list, &plain(3), &KeepStrategy::Best, "mv {} /tmp; echo {}").unwrap();
    assert_eq!(plan.len(), 3);
    match &plan[0] {
        FileStep::Run(cmd) => assert_eq!(cmd, "mv 'a.mp3' /tmp; echo 'a.mp3'"),
        other => panic!("{other:?}"),
    }
    assert!(matches!(plan[1], FileStep::Keep));
    assert!(matches!(plan[2], FileStep::Skip));
    let none = KeepStrategy::parse("ext:ogg").unwrap();
    assert!(plan_group(&list, &plain(3), &none, "rm {}").is_none());
}

#[test]
fn steps_and_totals_are_reported() {
    let run = FileStep::Run("mv 'a' b".to_string());
    assert_eq!(step_line("a", &FileStep::Keep, true), "  KEEP  a");
    assert_eq!(
        step_line("a", &FileStep::Skip, false),
        "  SKIP  a (path contains control characters)"
    );
    assert_eq!(step_line("a", &run, true), "  EXEC  mv 'a' b");
    assert_eq!(step_line("a", &run, false), "  EXEC  mv 'a' b (dry-run)");
    assert_eq!(group_line(3, true), "Group 3:");
    assert_eq!(
        group_line(12, false),
        "Group 12: SKIP (no file matches --keep strategy)"
    );
    let totals = count_outcomes(&vec![
        Outcome::Executed,
        Outcome::Failed,
        Outcome::Executed,
        Outcome::GroupSkipped,
    ]);
    assert_eq!(
        totals,
        ExecTotals {
            executed: 2,
            skipped: 1,
            errors: 1
        }
    );
    assert_eq!(totals_line(&totals, true), "Done: 2 executed, 1 skipped, 1 errors");
    assert_eq!(
        totals_line(&totals, false),
        "Dry run: would execute on 2 files (1 groups skipped)"
    );
}

/// Reads a word of a shell that has no expansions outside of single quotes.
fn shell_word(quoted: &str) -> String {
    let mut out = String::new();
    let mut inside = false;
    let mut chars = quoted.chars();
    while let Some(c) = chars.next() {
        match c {
            '\'' => inside = !inside,
            '\\' if !inside => out.push(chars.next().unwrap()),
            c => {
                assert!(inside, "{c} stands outside of quotes");
                out.push(c);
            }
        }
    }
    assert!(!inside);
    out
}

#[test]
fn the_shell_reads_the_path_back() {
    for path in ["", "a", "it's", "''", "'a'b'", "\\'", "$HOME `x` \"y\" *", "ü'ß"] {
        assert_eq!(shell_word(&shell_quote(path).unwrap()), path);
    }
}

#[test]
fn nothing_runs_without_being_applied() {
    let run = FileStep::Run("rm 'a.mp3'".to_string());
    for step in [&run, &FileStep::Keep, &FileStep::Skip] {
        assert_eq!(command_to_run(step, false), None);
    }
    assert_eq!(command_to_run(&run, true).as_deref(), Some("rm 'a.mp3'"));
    assert_eq!(command_to_run(&FileStep::Keep, true), None);
    assert_eq!(command_to_run(&FileStep::Skip, true), None);
}

#[test]
fn steps_have_outcomes() {
    let run = FileStep::Run("rm 'a.mp3'".to_string());
    for apply in [false, true] {
        for succeeded in [false, true] {
            assert!(step_outcome(&FileStep::Keep, apply, succeeded).is_none());
            assert!(matches!(
                step_outcome(&FileStep::Skip, apply, succeeded),
                Some(Outcome::Failed)
            ));
        }
    }
    assert!(matches!(step_outcome(&run, true, false), Some(Outcome::Failed)));
    assert!(matches!(step_outcome(&run, true, true), Some(Outcome::Executed)));
    assert!(matches!(step_outcome(&run, false, false), Some(Outcome::Executed)));
}
