//! The command line's decisions: which mode a run takes, which flag
//! combinations it refuses, and the exit status it reports; and the diff
//! a check reports for a file that would change.

use vstd::prelude::*;

verus! {

/// Directory walking is syscall-bound: more walkers than this add
/// contention.
pub const MAX_DISCOVERY_THREADS: usize = 4usize;

/// What a run does.
#[derive(Clone, Copy, Debug, PartialEq, Eq, Structural)]
pub enum Plan {
    /// Format standard input.
    Stdin,
    /// Print the one formatted file.
    Print,
    /// Report files that would change, with diffs if asked.
    Check { diff: bool },
    /// Rewrite changed files.
    Write,
}

/// A refused combination of flags and inputs.
#[derive(Clone, Copy, Debug, PartialEq, Eq, Structural)]
pub enum UsageError {
    QuietWithoutCheckOrWrite,
    StdinWithPaths,
    WriteToStdin,
}

impl UsageError {
    pub fn message(&self) -> (text: &'static str)
        ensures
            text@ == self.message_text(),
    {
        match self {
            UsageError::QuietWithoutCheckOrWrite => "--quiet requires --check or --write",
            UsageError::StdinWithPaths => "standard input (`-`) cannot be combined with file paths",
            UsageError::WriteToStdin => "--write cannot be used with standard input",
        }
    }

    pub open spec fn message_text(&self) -> Seq<char> {
        match self {
            UsageError::QuietWithoutCheckOrWrite => "--quiet requires --check or --write"@,
            UsageError::StdinWithPaths => "standard input (`-`) cannot be combined with file paths"@,
            UsageError::WriteToStdin => "--write cannot be used with standard input"@,
        }
    }
}

/// The plan for a run given its flags, the number of paths, and how many
/// of them are `-`.
pub open spec fn plan_for(quiet: bool, check: bool, write: bool, diff: bool, paths: nat, stdin: nat) -> Result<
    Plan,
    UsageError,
> {
    if quiet && !check && !write {
        Err(UsageError::QuietWithoutCheckOrWrite)
    } else if stdin > 0 {
        if paths != 1 {
            Err(UsageError::StdinWithPaths)
        } else if write {
            Err(UsageError::WriteToStdin)
        } else {
            Ok(Plan::Stdin)
        }
    } else if !check && !write {
        Ok(Plan::Print)
    } else if write {
        Ok(Plan::Write)
    } else {
        Ok(Plan::Check { diff })
    }
}

/// Decides what a run does, refusing `--quiet` without `--check` or
/// `--write`, standard input beside other paths, and `--write` to
/// standard input.
pub fn plan(quiet: bool, check: bool, write: bool, diff: bool, paths: usize, stdin: usize) -> (planned: Result<
    Plan,
    UsageError,
>)
    ensures
        planned == plan_for(quiet, check, write, diff, paths as nat, stdin as nat),
{
    if quiet && !check && !write {
        return Err(UsageError::QuietWithoutCheckOrWrite);
    }
    if stdin > 0 {
        if paths != 1 {
            return Err(UsageError::StdinWithPaths);
        }
        if write {
            return Err(UsageError::WriteToStdin);
        }
        return Ok(Plan::Stdin);
    }
    if !check && !write {
        return Ok(Plan::Print);
    }
    if write {
        Ok(Plan::Write)
    } else {
        Ok(Plan::Check { diff })
    }
}

/// Workers for directory discovery: the run's count, at most four.
pub fn discovery_threads(threads: usize) -> (workers: usize)
    ensures
        workers == if threads < MAX_DISCOVERY_THREADS { threads } else { MAX_DISCOVERY_THREADS },
{
    if threads < MAX_DISCOVERY_THREADS {
        threads
    } else {
        MAX_DISCOVERY_THREADS
    }
}

/// Whether files are processed one after another: one file or one worker.
pub fn sequential(files: usize, threads: usize) -> (one_by_one: bool)
    ensures
        one_by_one == (files <= 1 || threads == 1),
{
    files <= 1 || threads == 1
}

/// What became of one input.
#[derive(Clone, Copy, Debug, PartialEq, Eq, Structural)]
pub enum Outcome {
    Unchanged,
    Changed,
    Failed,
}

/// How many inputs were unchanged, changed and failed.
pub open spec fn tally_of(outcomes: Seq<Outcome>) -> (nat, nat, nat)
    decreases outcomes.len(),
{
    if outcomes.len() == 0 {
        (0, 0, 0)
    } else {
        let (u, c, f) = tally_of(outcomes.drop_last());
        match outcomes.last() {
            Outcome::Unchanged => (u + 1, c, f),
            Outcome::Changed => (u, c + 1, f),
            Outcome::Failed => (u, c, f + 1),
        }
    }
}

proof fn lemma_tally_total(outcomes: Seq<Outcome>)
    ensures
        tally_of(outcomes).0 + tally_of(outcomes).1 + tally_of(outcomes).2 == outcomes.len(),
    decreases outcomes.len(),
{
    if outcomes.len() > 0 {
        lemma_tally_total(outcomes.drop_last());
    }
}

/// Counts the outcomes: unchanged, changed, failed.
pub fn tally(outcomes: &[Outcome]) -> (counts: (usize, usize, usize))
    ensures
        counts.0 == tally_of(outcomes@).0,
        counts.1 == tally_of(outcomes@).1,
        counts.2 == tally_of(outcomes@).2,
{
    let mut unchanged: usize = 0;
    let mut changed: usize = 0;
    let mut failed: usize = 0;
    let mut k: usize = 0;
    while k < outcomes.len()
        invariant
            k <= outcomes@.len(),
            (unchanged as nat, changed as nat, failed as nat) == tally_of(outcomes@.subrange(0, k as int)),
        decreases outcomes.len() - k,
    {
        proof {
            let s = outcomes@.subrange(0, k + 1);
            assert(s.drop_last() =~= outcomes@.subrange(0, k as int));
            lemma_tally_total(outcomes@.subrange(0, k as int));
        }
        match outcomes[k] {
            Outcome::Unchanged => unchanged = unchanged + 1,
            Outcome::Changed => changed = changed + 1,
            Outcome::Failed => failed = failed + 1,
        }
        k = k + 1;
    }
    proof {
        assert(outcomes@.subrange(0, outcomes@.len() as int) =~= outcomes@);
    }
    (unchanged, changed, failed)
}

/// The exit status: 2 when anything failed, else 1 when a check found a
/// change, else 0.
pub fn exit_status(check: bool, changed: usize, failed: usize) -> (status: u8)
    ensures
        status == if failed > 0 {
            2u8
        } else if check && changed > 0 {
            1u8
        } else {
            0u8
        },
{
    if failed > 0 {
        2
    } else if check && changed > 0 {
        1
    } else {
        0
    }
}

/// The exit status after formatting standard input: 1 when a check found
/// a change, else 0.
pub fn stdin_status(check: bool, changed: bool) -> (status: u8)
    ensures
        status == if check && changed {
            1u8
        } else {
            0u8
        },
{
    if check && changed {
        1
    } else {
        0
    }
}

/// The unified diff, two lines of context around each change, from `before`
/// to `after` with the headers `a/` and `b/` followed by `path`, as the
/// `similar` crate writes it.
pub uninterp spec fn unified_diff_of(before: Seq<char>, after: Seq<char>, path: Seq<char>) -> Seq<char>;

/// `similar::TextDiff::from_lines(before, after).unified_diff()` with a
/// context radius of two and the headers `a/path` and `b/path`, rendered
/// to a string. Its result is named: the diff algorithm is the crate's, and
/// its text depends on the three arguments alone.
#[verifier::external_body]
fn text_diff(before: &str, after: &str, path: &str) -> (diff: String)
    ensures
        diff@ == unified_diff_of(before@, after@, path@),
{
    similar::TextDiff::from_lines(before, after).unified_diff().context_radius(2).header(
        &format!("a/{}", path),
        &format!("b/{}", path),
    ).to_string()
}

/// The diff a check reports for a file that would change: from its source
/// to its formatted text, under `path`.
pub fn unified_diff(before: &str, after: &str, path: &str) -> (diff: String)
    ensures
        diff@ == unified_diff_of(before@, after@, path@),
{
    text_diff(before, after, path)
}

/// `-` as the one path reads standard input and prints the result there,
/// with `--check` or without: the plan is standard input whenever `--write`
/// is not set and `--quiet` is allowed; a run with no `-` never reads
/// standard input.
pub proof fn law_dash_reads_standard_input(quiet: bool, check: bool, write: bool, diff: bool, paths: nat, stdin: nat)
    ensures
        stdin > 0 && paths == 1 && !write && (check || !quiet) ==> plan_for(quiet, check, write, diff, paths, stdin)
            == Ok::<Plan, UsageError>(Plan::Stdin),
        stdin > 0 && paths == 1 && !write && !quiet ==> plan_for(quiet, true, write, diff, paths, stdin) == plan_for(
            quiet,
            false,
            write,
            diff,
            paths,
            stdin,
        ),
        stdin == 0 ==> plan_for(quiet, check, write, diff, paths, stdin) != Ok::<Plan, UsageError>(Plan::Stdin),
        stdin > 0 && plan_for(quiet, check, write, diff, paths, stdin) is Ok ==> plan_for(
            quiet,
            check,
            write,
            diff,
            paths,
            stdin,
        ) == Ok::<Plan, UsageError>(Plan::Stdin),
{
}

/// Without `-`: no mode flag prints the one formatted file, `--check`
/// reports with diffs as asked, `--write` rewrites whether or not
/// `--check` is set, and `--quiet` needs one of the two.
pub proof fn law_flags_choose_the_mode(quiet: bool, check: bool, write: bool, diff: bool, paths: nat)
    ensures
        !quiet && !check && !write ==> plan_for(quiet, check, write, diff, paths, 0) == Ok::<Plan, UsageError>(
            Plan::Print,
        ),
        check && !write ==> plan_for(quiet, check, write, diff, paths, 0) == Ok::<Plan, UsageError>(
            Plan::Check { diff },
        ),
        write ==> plan_for(quiet, check, write, diff, paths, 0) == Ok::<Plan, UsageError>(Plan::Write),
        quiet && !check && !write ==> plan_for(quiet, check, write, diff, paths, 0) == Err::<Plan, UsageError>(
            UsageError::QuietWithoutCheckOrWrite,
        ),
{
}

} // verus!
