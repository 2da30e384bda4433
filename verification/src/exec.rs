//! Commands on duplicate files: which files they run on, and how paths are quoted.

use vstd::prelude::*;

use crate::keep::{select_keeper, FileFacts, KeepStrategy};
use crate::matcher::DuplicateFile;
use crate::text::{concat2, concat3, concat5, copy, decimal, is_control, replace};

verus! {

// --- Quoting ---

/// A path between single quotes, with each single quote in it written as `'\''`.
pub open spec fn quoted_text(path: Seq<char>) -> Seq<char> {
    "'"@ + crate::text::replaced(path, "'"@, "'\\''"@) + "'"@
}

/// Whether a path has control characters, which it should not be quoted with.
pub open spec fn has_control(path: Seq<char>) -> bool {
    exists|i: int| 0 <= i < path.len() && crate::text::is_control_char(#[trigger] path[i])
}

fn contains_control(path: &str) -> (r: bool)
    ensures
        r == has_control(path@),
{
    let mut found = false;
    for c in it: path.chars()
        invariant
            it.seq() == path@,
            found == exists|i: int|
                0 <= i < it.index() && crate::text::is_control_char(#[trigger] path@[i]),
    {
        if is_control(c) {
            found = true;
        }
    }
    found
}

/// Quotes a path for a shell command, or nothing where it contains control characters.
pub fn shell_quote(path: &str) -> (r: Option<String>)
    ensures
        r is None <==> has_control(path@),
        r matches Some(q) ==> q@ == quoted_text(path@),
{
    if contains_control(path) {
        return None;
    }
    proof {
        reveal_strlit("'");
    }
    Some(concat3("'", replace(path, "'", "'\\''").as_str(), "'"))
}

/// The word that a POSIX shell reads, made of quoted text and escaped characters alone:
/// between single quotes every character stands for itself, and outside of them a
/// backslash makes the next character stand for itself. Anything else is no such word.
pub open spec fn shell_word(text: Seq<char>, quoted: bool) -> Option<Seq<char>>
    decreases text.len(),
{
    if text.len() == 0 {
        if quoted {
            None
        } else {
            Some(seq![])
        }
    } else if text[0] == '\'' {
        shell_word(text.skip(1), !quoted)
    } else if quoted {
        match shell_word(text.skip(1), true) {
            Some(rest) => Some(seq![text[0]] + rest),
            None => None,
        }
    } else if text[0] == '\\' && text.len() > 1 {
        match shell_word(text.skip(2), false) {
            Some(rest) => Some(seq![text[1]] + rest),
            None => None,
        }
    } else {
        None
    }
}

proof fn lemma_quoted_tail(path: Seq<char>)
    ensures
        shell_word(crate::text::replaced(path, "'"@, "'\\''"@) + seq!['\''], true) == Some(path),
    decreases path.len(),
{
    reveal_strlit("'");
    reveal_strlit("'\\''");
    let tail = seq!['\''];
    let escaped = "'\\''"@;
    let whole = crate::text::replaced(path, "'"@, escaped) + tail;
    if path.len() == 0 {
        assert(whole =~= tail);
        assert(tail.skip(1) =~= seq![]);
        reveal_with_fuel(shell_word, 2);
        assert(shell_word(tail, true) == Some(Seq::<char>::empty()));
        assert(path =~= seq![]);
    } else {
        let rest = path.skip(1);
        let behind = crate::text::replaced(rest, "'"@, escaped) + tail;
        lemma_quoted_tail(rest);
        if path.take(1) == "'"@ {
            assert(path.take(1)[0] == '\'');
            assert(escaped =~= seq!['\'', '\\', '\'', '\'']);
            assert(whole =~= escaped + behind);
            assert(whole.skip(1) =~= seq!['\\', '\'', '\''] + behind);
            assert(whole.skip(1).skip(2) =~= seq!['\''] + behind);
            assert((seq!['\''] + behind).skip(1) =~= behind);
            reveal_with_fuel(shell_word, 4);
            assert(shell_word(seq!['\''] + behind, false) == shell_word(behind, true));
            assert(shell_word(whole.skip(1), false) == Some(seq!['\''] + rest));
            assert(shell_word(whole, true) == shell_word(whole.skip(1), false));
            assert(path =~= seq!['\''] + rest);
        } else {
            if path[0] == '\'' {
                assert(path.take(1) =~= "'"@);
            }
            assert(whole =~= seq![path[0]] + behind);
            assert(whole.skip(1) =~= behind);
            assert(path =~= seq![path[0]] + rest);
        }
    }
}

/// A shell reads the quoted path back as the path, whatever characters it has.
pub proof fn law_shell_reads_the_path_back(path: Seq<char>)
    ensures
        shell_word(quoted_text(path), false) == Some(path),
{
    reveal_strlit("'");
    let inner = crate::text::replaced(path, "'"@, "'\\''"@);
    let quoted = quoted_text(path);
    assert("'"@ =~= seq!['\'']);
    assert(quoted.skip(1) =~= inner + seq!['\'']);
    lemma_quoted_tail(path);
}

// --- Planning ---

/// What happens to a file of a group.
#[derive(Debug, Clone)]
pub enum FileStep {
    /// It is kept.
    Keep,
    /// It is left alone, since its path cannot be quoted.
    Skip,
    /// This command runs on it.
    Run(String),
}

/// What happens to file `i` of a group when `keeper` is kept.
pub open spec fn is_step(
    step: FileStep,
    path: Seq<char>,
    kept: bool,
    command: Seq<char>,
) -> bool {
    if kept {
        step is Keep
    } else if has_control(path) {
        step is Skip
    } else {
        step matches FileStep::Run(cmd) && cmd@ == crate::text::replaced(
            command,
            "{}"@,
            quoted_text(path),
        )
    }
}

/// Plans what happens to the files of a group: the keeper stays, and the command runs on
/// every other file, its path in place of each `{}`. There is no plan where no file
/// matches the strategy.
pub fn plan_group(
    files: &Vec<DuplicateFile>,
    facts: &Vec<FileFacts>,
    strategy: &KeepStrategy,
    command: &str,
) -> (r: Option<Vec<FileStep>>)
    requires
        files@.len() == facts@.len(),
    ensures
        r is None <==> forall|j: int|
            0 <= j < files@.len() ==> !#[trigger] crate::keep::strategy_wants(
                *strategy,
                files@[j].path@,
            ),
        r matches Some(steps) ==> steps@.len() == files@.len() && exists|keeper: int|
            crate::keep::is_keeper(*strategy, files@, facts@, keeper) && forall|i: int|
                0 <= i < files@.len() ==> is_step(
                    #[trigger] steps@[i],
                    files@[i].path@,
                    i == keeper,
                    command@,
                ),
{
    let keeper: usize = match select_keeper(files, facts, strategy) {
        Some(i) => i,
        None => {
            return None;
        },
    };
    let mut steps: Vec<FileStep> = Vec::new();
    let mut i: usize = 0;
    while i < files.len()
        invariant
            i <= files@.len(),
            steps@.len() == i,
            forall|k: int|
                0 <= k < i ==> is_step(
                    #[trigger] steps@[k],
                    files@[k].path@,
                    k == keeper,
                    command@,
                ),
        decreases files@.len() - i,
    {
        let step = if i == keeper {
            FileStep::Keep
        } else {
            match shell_quote(files[i].path.as_str()) {
                None => FileStep::Skip,
                Some(quoted) => {
                    proof {
                        reveal_strlit("{}");
                    }
                    FileStep::Run(replace(command, "{}", quoted.as_str()))
                },
            }
        };
        steps.push(step);
        i = i + 1;
    }
    proof {
        assert(crate::keep::is_keeper(*strategy, files@, facts@, keeper as int));
    }
    Some(steps)
}

/// Exactly one file of a planned group is kept.
pub proof fn law_a_plan_keeps_one_file(
    steps: Seq<FileStep>,
    files: Seq<DuplicateFile>,
    facts: Seq<FileFacts>,
    strategy: KeepStrategy,
    command: Seq<char>,
    keeper: int,
    i: int,
)
    requires
        files.len() == facts.len(),
        steps.len() == files.len(),
        crate::keep::is_keeper(strategy, files, facts, keeper),
        forall|k: int|
            0 <= k < files.len() ==> is_step(
                #[trigger] steps[k],
                files[k].path@,
                k == keeper,
                command,
            ),
        0 <= i < files.len(),
    ensures
        steps[i] is Keep <==> i == keeper,
        0 <= keeper < files.len(),
{
    assert(is_step(steps[i], files[i].path@, i == keeper, command));
}

// --- Reporting ---

/// What became of a file or a group.
#[derive(Debug, Clone, Copy, PartialEq, Eq, Structural)]
pub enum Outcome {
    /// The command ran, or would have.
    Executed,
    /// The group was skipped.
    GroupSkipped,
    /// The command failed, or the path could not be quoted.
    Failed,
}

/// How often each outcome came.
#[derive(Debug, Clone, Copy, PartialEq, Eq, Structural)]
pub struct ExecTotals {
    /// Files on which the command ran, or would have.
    pub executed: usize,
    /// Groups that were skipped.
    pub skipped: usize,
    /// Files on which it failed.
    pub errors: usize,
}

/// How often `wanted` is among `outcomes`.
pub open spec fn times(outcomes: Seq<Outcome>, wanted: Outcome) -> nat
    decreases outcomes.len(),
{
    if outcomes.len() == 0 {
        0
    } else {
        times(outcomes.drop_last(), wanted) + if outcomes.last() == wanted {
            1nat
        } else {
            0nat
        }
    }
}

/// Counts outcomes.
pub fn count_outcomes(outcomes: &Vec<Outcome>) -> (r: ExecTotals)
    ensures
        r.executed == times(outcomes@, Outcome::Executed),
        r.skipped == times(outcomes@, Outcome::GroupSkipped),
        r.errors == times(outcomes@, Outcome::Failed),
{
    let mut r = ExecTotals { executed: 0, skipped: 0, errors: 0 };
    let mut i: usize = 0;
    while i < outcomes.len()
        invariant
            i <= outcomes@.len(),
            r.executed <= i,
            r.skipped <= i,
            r.errors <= i,
            r.executed == times(outcomes@.take(i as int), Outcome::Executed),
            r.skipped == times(outcomes@.take(i as int), Outcome::GroupSkipped),
            r.errors == times(outcomes@.take(i as int), Outcome::Failed),
        decreases outcomes@.len() - i,
    {
        proof {
            assert(outcomes@.take(i + 1).drop_last() =~= outcomes@.take(i as int));
        }
        match outcomes[i] {
            Outcome::Executed => {
                r.executed = r.executed + 1;
            },
            Outcome::GroupSkipped => {
                r.skipped = r.skipped + 1;
            },
            Outcome::Failed => {
                r.errors = r.errors + 1;
            },
        }
        i = i + 1;
    }
    proof {
        assert(outcomes@.take(outcomes@.len() as int) =~= outcomes@);
    }
    r
}

/// The command that is run for a step: that of the step, if commands are applied at all.
pub fn command_to_run(step: &FileStep, apply: bool) -> (r: Option<String>)
    ensures
        r is Some <==> apply && step is Run,
        r matches Some(command) ==> command@ == step->Run_0@,
{
    match step {
        FileStep::Run(command) => if apply {
            Some(copy(command))
        } else {
            None
        },
        _ => None,
    }
}

/// What came of a step, where it counts; `succeeded` is whether its command did, if one
/// was run. A command that is only shown counts as executed.
pub fn step_outcome(step: &FileStep, apply: bool, succeeded: bool) -> (r: Option<Outcome>)
    ensures
        r == match step {
            FileStep::Keep => None,
            FileStep::Skip => Some(Outcome::Failed),
            FileStep::Run(_) => if apply && !succeeded {
                Some(Outcome::Failed)
            } else {
                Some(Outcome::Executed)
            },
        },
{
    match step {
        FileStep::Keep => None,
        FileStep::Skip => Some(Outcome::Failed),
        FileStep::Run(_) => if apply && !succeeded {
            Some(Outcome::Failed)
        } else {
            Some(Outcome::Executed)
        },
    }
}

/// What is said of a step.
pub open spec fn step_text(path: Seq<char>, step: FileStep, apply: bool) -> Seq<char> {
    match step {
        FileStep::Keep => "  KEEP  "@ + path,
        FileStep::Skip => "  SKIP  "@ + path + " (path contains control characters)"@,
        FileStep::Run(cmd) => if apply {
            "  EXEC  "@ + cmd@
        } else {
            "  EXEC  "@ + cmd@ + " (dry-run)"@
        },
    }
}

/// The line that reports a step.
pub fn step_line(path: &str, step: &FileStep, apply: bool) -> (r: String)
    ensures
        r@ == step_text(path@, *step, apply),
{
    match step {
        FileStep::Keep => concat2("  KEEP  ", path),
        FileStep::Skip => concat3("  SKIP  ", path, " (path contains control characters)"),
        FileStep::Run(cmd) => if apply {
            concat2("  EXEC  ", cmd.as_str())
        } else {
            concat3("  EXEC  ", cmd.as_str(), " (dry-run)")
        },
    }
}

/// The line above a group.
pub fn group_line(number: u64, planned: bool) -> (r: String)
    ensures
        r@ == "Group "@ + crate::text::decimal_text(number as nat) + if planned {
            ":"@
        } else {
            ": SKIP (no file matches --keep strategy)"@
        },
{
    let n = decimal(number as u128);
    if planned {
        concat3("Group ", n.as_str(), ":")
    } else {
        concat3("Group ", n.as_str(), ": SKIP (no file matches --keep strategy)")
    }
}

/// The closing line.
pub fn totals_line(totals: &ExecTotals, apply: bool) -> (r: String)
    ensures
        r@ == if apply {
            "Done: "@ + crate::text::decimal_text(totals.executed as nat) + " executed, "@
                + crate::text::decimal_text(totals.skipped as nat) + (" skipped, "@
                + crate::text::decimal_text(totals.errors as nat) + " errors"@)
        } else {
            "Dry run: would execute on "@ + crate::text::decimal_text(totals.executed as nat)
                + " files ("@ + crate::text::decimal_text(totals.skipped as nat)
                + " groups skipped)"@
        },
{
    let executed = decimal(totals.executed as u128);
    let skipped = decimal(totals.skipped as u128);
    if apply {
        let tail = concat3(" skipped, ", decimal(totals.errors as u128).as_str(), " errors");
        concat5("Done: ", executed.as_str(), " executed, ", skipped.as_str(), tail.as_str())
    } else {
        concat5(
            "Dry run: would execute on ",
            executed.as_str(),
            " files (",
            skipped.as_str(),
            " groups skipped)",
        )
    }
}

/// The kept file stays. Of the others, those with a control character in their path are
/// skipped, and the command runs on the rest.
pub proof fn law_what_happens_to_a_file(
    step: FileStep,
    path: Seq<char>,
    kept: bool,
    command: Seq<char>,
)
    requires
        is_step(step, path, kept, command),
    ensures
        kept <==> step is Keep,
        ({
            let unsafe_path = exists|i: int|
                0 <= i < path.len() && ((#[trigger] path[i] as u32) < 32 || 127 <= path[i] as u32
                    <= 159);
            !kept ==> (step is Skip <==> unsafe_path) && (step is Run <==> !unsafe_path)
        }),
{
    if has_control(path) {
        let i = choose|i: int|
            0 <= i < path.len() && crate::text::is_control_char(#[trigger] path[i]);
        crate::text::law_control_characters(path[i]);
        assert((path[i] as u32) < 32 || 127 <= path[i] as u32 <= 159);
    }
    if exists|i: int|
        0 <= i < path.len() && ((#[trigger] path[i] as u32) < 32 || 127 <= path[i] as u32 <= 159) {
        let i = choose|i: int|
            0 <= i < path.len() && ((#[trigger] path[i] as u32) < 32 || 127 <= path[i] as u32
                <= 159);
        crate::text::law_control_characters(path[i]);
        assert(crate::text::is_control_char(path[i]));
    }
}

/// The command that runs is the one given, with the quoted path in place of the first `{}` and
/// of each one behind it. A command without `{}` runs as it is.
pub proof fn law_the_path_stands_in_the_command(
    step: FileStep,
    path: Seq<char>,
    before: Seq<char>,
    after: Seq<char>,
)
    requires
        forall|at: int|
            0 <= at < before.len() ==> #[trigger] (before + "{}"@ + after).subrange(at, at + 2)
                != "{}"@,
    ensures
        is_step(step, path, false, before + "{}"@ + after) && step is Run ==> step->Run_0@ == before
            + quoted_text(path) + crate::text::replaced(after, "{}"@, quoted_text(path)),
        !crate::text::has_part(after, "{}"@) ==> crate::text::replaced(
            after,
            "{}"@,
            quoted_text(path),
        ) == after,
        is_step(step, path, false, after) && step is Run && !crate::text::has_part(after, "{}"@)
            ==> step->Run_0@ == after,
{
    reveal_strlit("{}");
    crate::text::law_the_first_occurrence_is_replaced(before, "{}"@, after, quoted_text(path));
    if !crate::text::has_part(after, "{}"@) {
        crate::text::law_nothing_else_is_replaced(after, "{}"@, quoted_text(path));
    }
}

/// A shell reads a quoted path as one word, and that word is the path.
pub proof fn law_a_quoted_path_is_one_word(path: Seq<char>)
    ensures
        shell_word(quoted_text(path), false) == Some(path),
        quoted_text(path).len() >= path.len() + 2,
        quoted_text(path)[0] == '\'',
        quoted_text(path).last() == '\'',
{
    law_shell_reads_the_path_back(path);
    reveal_strlit("'");
    reveal_strlit("'\\''");
    lemma_replaced_grows(path);
}

proof fn lemma_replaced_grows(path: Seq<char>)
    ensures
        crate::text::replaced(path, "'"@, "'\\''"@).len() >= path.len(),
    decreases path.len(),
{
    reveal_strlit("'");
    reveal_strlit("'\\''");
    if path.len() > 0 {
        lemma_replaced_grows(path.skip(1));
    }
}

/// Outcomes are counted one by one.
pub proof fn law_outcomes_are_counted_one_by_one(
    outcomes: Seq<Outcome>,
    outcome: Outcome,
    wanted: Outcome,
)
    ensures
        times(Seq::empty(), wanted) == 0,
        times(outcomes.push(outcome), wanted) == times(outcomes, wanted) + if outcome == wanted {
            1int
        } else {
            0
        },
{
    assert(outcomes.push(outcome).drop_last() =~= outcomes);
}

/// A step is reported with what is done to the file, and a command that does not run is
/// marked.
pub proof fn law_steps_are_reported(path: Seq<char>, step: FileStep, apply: bool)
    ensures
        step is Keep ==> step_text(path, step, apply) == "  KEEP  "@ + path,
        step is Skip ==> step_text(path, step, apply) == "  SKIP  "@ + path
            + " (path contains control characters)"@,
        step matches FileStep::Run(cmd) ==> step_text(path, step, true) == "  EXEC  "@ + cmd@
            && step_text(path, step, false) == "  EXEC  "@ + cmd@ + " (dry-run)"@,
{
}

} // verus!
