//! What is handed to the `git` command-line tool, and what is read off its output.

use crate::stats::{parse_git_log, parsed, Commit, LogError};
use vstd::prelude::*;

verus! {

/// Why a call of `git log` gave no commits.
#[derive(Debug, PartialEq, Eq)]
pub enum LogFailure {
    /// The command failed; what it wrote to its error stream is kept.
    Command(String),
    /// The command succeeded and its output is no log.
    Output(LogError),
}

/// What a call of `git log` gave: the commits of its output if it succeeded,
/// and what it complained of if it failed.
pub fn read_log(succeeded: bool, output: &str, complaint: String) -> (outcome: Result<
    Vec<Commit>,
    LogFailure,
>)
    ensures
        !succeeded ==> (outcome matches Err(LogFailure::Command(words)) && words@ == complaint@),
        succeeded ==> match parsed(output@) {
            Ok(records) => (outcome matches Ok(commits) && commits.deep_view() == records),
            Err(cause) => (outcome matches Err(LogFailure::Output(e)) && e == cause),
        },
{
    if !succeeded {
        return Err(LogFailure::Command(complaint));
    }
    match parse_git_log(output) {
        Ok(commits) => Ok(commits),
        Err(e) => Err(LogFailure::Output(e)),
    }
}

/// The arguments of the `git log` call whose output `parse_git_log` reads:
/// no merges, no pairing of similar files into renames, for each commit a line
/// with the word `author`, the author's name and, behind a tab, the author's
/// address, then the statistics of its files, and behind `--` the pathspec.
pub open spec fn log_arguments_of(pathspec: Option<Seq<Seq<char>>>) -> Seq<Seq<char>> {
    seq![
        "log"@,
        "--no-merges"@,
        "--no-renames"@,
        "--format=author %aN%x09%aE"@,
        "--numstat"@,
        "--"@,
    ] + match pathspec {
        Some(entries) => entries,
        None => Seq::empty(),
    }
}

/// The arguments of the `git ls-files` call that lists the tracked files
/// under the pathspec, one on each line.
pub open spec fn ls_files_arguments_of(pathspec: Option<Seq<Seq<char>>>) -> Seq<Seq<char>> {
    seq!["ls-files"@, "--"@] + match pathspec {
        Some(entries) => entries,
        None => Seq::empty(),
    }
}

/// The texts of an optional pathspec.
pub open spec fn entries_of(pathspec: Option<&Vec<String>>) -> Option<Seq<Seq<char>>> {
    match pathspec {
        Some(entries) => Some(entries.deep_view()),
        None => None,
    }
}

/// Appends the entries of the pathspec to `arguments`.
fn with_pathspec(arguments: Vec<String>, pathspec: Option<&Vec<String>>) -> (all: Vec<String>)
    ensures
        all.deep_view() == arguments.deep_view() + match entries_of(pathspec) {
            Some(entries) => entries,
            None => Seq::empty(),
        },
{
    let ghost fixed = arguments.deep_view();
    let mut all = arguments;
    match pathspec {
        Some(entries) => {
            let ghost model = entries.deep_view();
            let mut i: usize = 0;
            assert(all.deep_view() =~= fixed + model.take(0));
            while i < entries.len()
                invariant
                    i <= entries@.len(),
                    model == entries.deep_view(),
                    all.deep_view() == fixed + model.take(i as int),
                decreases entries@.len() - i,
            {
                let ghost held = all.deep_view();
                all.push(entries[i].clone());
                assert(all.deep_view() =~= held.push(entries@[i as int]@));
                assert(model.take(i + 1) =~= model.take(i as int).push(entries@[i as int]@));
                assert(fixed + model.take(i + 1) =~= (fixed + model.take(i as int)).push(
                    entries@[i as int]@,
                ));
                i += 1;
            }
            assert(model.take(i as int) =~= model);
        },
        None => {
            assert(all.deep_view() =~= fixed + Seq::<Seq<char>>::empty());
        },
    }
    all
}

/// Builds the arguments of the `git log` call.
pub fn log_arguments(pathspec: Option<&Vec<String>>) -> (arguments: Vec<String>)
    ensures
        arguments.deep_view() == log_arguments_of(entries_of(pathspec)),
{
    let mut arguments: Vec<String> = Vec::new();
    arguments.push("log".to_owned());
    arguments.push("--no-merges".to_owned());
    arguments.push("--no-renames".to_owned());
    arguments.push("--format=author %aN%x09%aE".to_owned());
    arguments.push("--numstat".to_owned());
    arguments.push("--".to_owned());
    assert(arguments.deep_view() =~= seq![
        "log"@,
        "--no-merges"@,
        "--no-renames"@,
        "--format=author %aN%x09%aE"@,
        "--numstat"@,
        "--"@,
    ]);
    with_pathspec(arguments, pathspec)
}

/// Builds the arguments of the `git ls-files` call.
pub fn ls_files_arguments(pathspec: Option<&Vec<String>>) -> (arguments: Vec<String>)
    ensures
        arguments.deep_view() == ls_files_arguments_of(entries_of(pathspec)),
{
    let mut arguments: Vec<String> = Vec::new();
    arguments.push("ls-files".to_owned());
    arguments.push("--".to_owned());
    assert(arguments.deep_view() =~= seq!["ls-files"@, "--"@]);
    with_pathspec(arguments, pathspec)
}

/// The number of line feeds in `bytes`.
pub open spec fn newline_count(bytes: Seq<u8>) -> nat
    decreases bytes.len(),
{
    if bytes.len() == 0 {
        0
    } else {
        newline_count(bytes.drop_last()) + if bytes.last() == 10u8 {
            1nat
        } else {
            0nat
        }
    }
}

/// Counts the lines of the output of `git ls-files`, that is its line feeds:
/// the number of files that the call lists.
pub fn count_newlines(bytes: &[u8]) -> (count: usize)
    ensures
        count == newline_count(bytes@),
{
    let mut count: usize = 0;
    let mut i: usize = 0;
    while i < bytes.len()
        invariant
            i <= bytes@.len(),
            count == newline_count(bytes@.take(i as int)),
            count <= i,
        decreases bytes@.len() - i,
    {
        assert(bytes@.take(i + 1).drop_last() =~= bytes@.take(i as int));
        if bytes[i] == 10u8 {
            count += 1;
        }
        i += 1;
    }
    assert(bytes@.take(i as int) =~= bytes@);
    count
}

} // verus!
