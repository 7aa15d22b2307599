//! Per-commit records and the line grammar of `git log --numstat` output.

use crate::scan::{
    count_of, find_from, line_bounds, lines, lines_from, next_or_end, parse_count, split_fields,
    stat_fields,
};
use crate::engine::identity;
use crate::text::{chars_of, has_at, occurs_at, string_of};
use itertools::Itertools;
use vstd::prelude::*;
use vstd::slice::slice_subrange;

verus! {

/// One file changed within a commit.
#[derive(Debug, PartialEq, Eq)]
pub struct FilesChanged {
    pub insertions: usize,
    pub deletions: usize,
    pub filename: String,
}

/// The model of a [`FilesChanged`].
pub struct FileDelta {
    pub insertions: nat,
    pub deletions: nat,
    pub filename: Seq<char>,
}

impl View for FilesChanged {
    type V = FileDelta;

    open spec fn view(&self) -> FileDelta {
        FileDelta {
            insertions: self.insertions as nat,
            deletions: self.deletions as nat,
            filename: self.filename@,
        }
    }
}

impl DeepView for FilesChanged {
    type V = FileDelta;

    open spec fn deep_view(&self) -> FileDelta {
        self@
    }
}

impl Clone for FilesChanged {
    fn clone(&self) -> (copy: FilesChanged)
        ensures
            copy@ == self@,
    {
        FilesChanged {
            insertions: self.insertions,
            deletions: self.deletions,
            filename: self.filename.clone(),
        }
    }
}

/// One commit that is not a merge: its author, the files it changed and their totals.
#[derive(Debug, PartialEq, Eq)]
pub struct Commit {
    pub author: String,
    pub files_changed_list: Vec<FilesChanged>,
    pub insertions: usize,
    pub deletions: usize,
    pub files_changed: usize,
}

/// The model of a [`Commit`].
pub struct CommitRecord {
    pub author: Seq<char>,
    pub files: Seq<FileDelta>,
    pub insertions: nat,
    pub deletions: nat,
    pub files_changed: nat,
}

impl View for Commit {
    type V = CommitRecord;

    open spec fn view(&self) -> CommitRecord {
        CommitRecord {
            author: self.author@,
            files: self.files_changed_list.deep_view(),
            insertions: self.insertions as nat,
            deletions: self.deletions as nat,
            files_changed: self.files_changed as nat,
        }
    }
}

impl DeepView for Commit {
    type V = CommitRecord;

    open spec fn deep_view(&self) -> CommitRecord {
        self@
    }
}

/// The lines inserted over all of `files`.
pub open spec fn inserted(files: Seq<FileDelta>) -> nat
    decreases files.len(),
{
    if files.len() == 0 {
        0
    } else {
        inserted(files.drop_last()) + files.last().insertions
    }
}

/// The lines deleted over all of `files`.
pub open spec fn deleted(files: Seq<FileDelta>) -> nat
    decreases files.len(),
{
    if files.len() == 0 {
        0
    } else {
        deleted(files.drop_last()) + files.last().deletions
    }
}

impl CommitRecord {
    /// A commit of `author` that changed no file.
    pub open spec fn empty(author: Seq<char>) -> CommitRecord {
        CommitRecord { author, files: Seq::empty(), insertions: 0, deletions: 0, files_changed: 0 }
    }

    /// A commit of `author` that changed `files`, with the totals over them.
    pub open spec fn of(author: Seq<char>, files: Seq<FileDelta>) -> CommitRecord {
        CommitRecord {
            author,
            files,
            insertions: inserted(files),
            deletions: deleted(files),
            files_changed: files.len(),
        }
    }

    /// This commit with one more changed file, counted into its totals.
    pub open spec fn with(self, delta: FileDelta) -> CommitRecord {
        CommitRecord {
            author: self.author,
            files: self.files.push(delta),
            insertions: self.insertions + delta.insertions,
            deletions: self.deletions + delta.deletions,
            files_changed: self.files_changed + 1,
        }
    }

    /// Whether the totals are those of the listed files.
    pub open spec fn consistent(self) -> bool {
        &&& self.insertions == inserted(self.files)
        &&& self.deletions == deleted(self.files)
        &&& self.files_changed == self.files.len()
    }
}

impl Commit {
    /// The commit of `author` that changed `files`, with the totals over them;
    /// nothing if a total does not fit in `usize`.
    pub fn new(author: String, files: Vec<FilesChanged>) -> (commit: Option<Commit>)
        ensures
            commit is Some <==> inserted(files.deep_view()) <= usize::MAX && deleted(
                files.deep_view(),
            ) <= usize::MAX,
            commit matches Some(c) ==> c@ == CommitRecord::of(author@, files.deep_view()),
    {
        let ghost model = files.deep_view();
        let mut insertions: Option<usize> = Some(0);
        let mut deletions: Option<usize> = Some(0);
        let mut i: usize = 0;
        while i < files.len()
            invariant
                i <= files@.len(),
                model == files.deep_view(),
                match insertions {
                    Some(sum) => sum == inserted(model.take(i as int)),
                    None => inserted(model.take(i as int)) > usize::MAX,
                },
                match deletions {
                    Some(sum) => sum == deleted(model.take(i as int)),
                    None => deleted(model.take(i as int)) > usize::MAX,
                },
            decreases files@.len() - i,
        {
            let file = &files[i];
            proof {
                assert(model.take(i + 1).drop_last() =~= model.take(i as int));
                assert(model.take(i + 1).last() == file@);
            }
            insertions =
            match insertions {
                Some(sum) => sum.checked_add(file.insertions),
                None => None,
            };
            deletions =
            match deletions {
                Some(sum) => sum.checked_add(file.deletions),
                None => None,
            };
            i += 1;
        }
        assert(model.take(i as int) =~= model);
        match (insertions, deletions) {
            (Some(insertions), Some(deletions)) => {
                let files_changed = files.len();
                Some(
                    Commit {
                        author,
                        files_changed_list: files,
                        insertions,
                        deletions,
                        files_changed,
                    },
                )
            },
            _ => None,
        }
    }
}

/// Why a log was refused.
#[derive(Clone, Copy, Debug, PartialEq, Eq, Structural)]
pub enum LogError {
    /// A line of file statistics stands in front of the first author line.
    OrphanStat,
    /// A line of file statistics has fewer than three tab-separated fields.
    MalformedStat,
    /// The insertions or the deletions of one commit do not fit in `usize`.
    CountOverflow,
}

/// The words that open an author line.
pub open spec fn sentinel() -> Seq<char> {
    seq!['a', 'u', 't', 'h', 'o', 'r', ' ']
}

/// Whether `line` opens with the sentinel.
pub open spec fn is_author_line(line: Seq<char>) -> bool {
    occurs_at(line, 0, sentinel())
}

/// The name on an author line: what stands behind the sentinel, up to the
/// first tab if there is one.
pub open spec fn name_of(line: Seq<char>) -> Seq<char> {
    let signature = line.skip(7);
    signature.take(next_or_end(signature, '\t', 0))
}

/// The address on an author line: what stands behind the first tab that
/// follows the sentinel; nothing if there is no tab.
pub open spec fn address_of(line: Seq<char>) -> Seq<char> {
    let signature = line.skip(7);
    let tab = next_or_end(signature, '\t', 0);
    if tab < signature.len() {
        signature.skip(tab + 1)
    } else {
        Seq::empty()
    }
}

/// The author of an author line: the identity that its name and its address
/// give. A line without a tab is all name, and the name is taken whole.
pub open spec fn author_of(line: Seq<char>) -> Seq<char> {
    identity(name_of(line), address_of(line))
}

/// The file that a line of statistics with the three fields `fields` reports.
pub open spec fn delta_of(fields: Seq<Seq<char>>) -> FileDelta {
    FileDelta {
        insertions: count_of(fields[0]),
        deletions: count_of(fields[1]),
        filename: fields[2],
    }
}

/// The commits read so far, after one more line.
///
/// An empty line changes nothing. An author line opens a commit of the author
/// that it names. Every other line reports one file of the commit opened
/// last: it needs such a commit and three fields, and the commit's totals with
/// it must fit in `usize`.
pub open spec fn step(commits: Seq<CommitRecord>, line: Seq<char>) -> Result<
    Seq<CommitRecord>,
    LogError,
> {
    if line.len() == 0 {
        Ok(commits)
    } else if is_author_line(line) {
        Ok(commits.push(CommitRecord::empty(author_of(line))))
    } else if commits.len() == 0 {
        Err(LogError::OrphanStat)
    } else if stat_fields(line).len() != 3 {
        Err(LogError::MalformedStat)
    } else {
        let commit = commits.last().with(delta_of(stat_fields(line)));
        if commit.insertions > usize::MAX || commit.deletions > usize::MAX {
            Err(LogError::CountOverflow)
        } else {
            Ok(commits.drop_last().push(commit))
        }
    }
}

/// The commits that `lines` describe, or the error of the first line that is refused.
pub open spec fn fold_lines(lines: Seq<Seq<char>>) -> Result<Seq<CommitRecord>, LogError>
    decreases lines.len(),
{
    if lines.len() == 0 {
        Ok(Seq::empty())
    } else {
        match fold_lines(lines.drop_last()) {
            Ok(commits) => step(commits, lines.last()),
            Err(e) => Err(e),
        }
    }
}

/// What a log says: its commits in the order of their lines, or why it is refused.
pub open spec fn parsed(log: Seq<char>) -> Result<Seq<CommitRecord>, LogError> {
    fold_lines(lines(log))
}

/// Once a line is refused, no later line mends the log.
pub proof fn lemma_error_sticks(read: Seq<Seq<char>>, rest: Seq<Seq<char>>)
    requires
        fold_lines(read) is Err,
    ensures
        fold_lines(read + rest) == fold_lines(read),
    decreases rest.len(),
{
    if rest.len() == 0 {
        assert(read + rest =~= read);
    } else {
        lemma_error_sticks(read, rest.drop_last());
        assert((read + rest).drop_last() =~= read + rest.drop_last());
    }
}

/// `Itertools::collect_tuple`, for tuples of three: the items as a tuple, in
/// their order, if there are exactly three of them, and nothing otherwise.
#[verifier::external_body]
fn collect_triple<T>(items: Vec<T>) -> (triple: Option<(T, T, T)>)
    ensures
        triple is Some <==> items@.len() == 3,
        triple matches Some(t) ==> items@ == seq![t.0, t.1, t.2],
{
    items.into_iter().collect_tuple()
}

/// Reads the author of an author line.
fn read_author(line: &[char]) -> (author: String)
    requires
        is_author_line(line@),
    ensures
        author@ == author_of(line@),
{
    let signature = slice_subrange(line, 7, line.len());
    assert(signature@ =~= line@.skip(7));
    let tab = find_from(signature, '\t', 0);
    let name = slice_subrange(signature, 0, tab);
    assert(name@ =~= name_of(line@));
    if name.len() > 0 {
        return string_of(name);
    }
    if tab < signature.len() {
        let address = slice_subrange(signature, tab + 1, signature.len());
        assert(address@ =~= address_of(line@));
        if address.len() > 0 {
            return string_of(address);
        }
    }
    "unknown".to_owned()
}

/// Takes one line into the commits read so far, as [`step`] says.
fn read_line(commits: Vec<Commit>, line: &[char], sentinel: &[char]) -> (outcome: Result<
    Vec<Commit>,
    LogError,
>)
    requires
        sentinel@ == self::sentinel(),
        forall|k: int|
            0 <= k < commits@.len() ==> (#[trigger] commits@[k]).files_changed
                == commits@[k].files_changed_list@.len(),
    ensures
        records_of(outcome) == step(commits.deep_view(), line@),
        outcome matches Ok(next) ==> forall|k: int|
            0 <= k < next@.len() ==> (#[trigger] next@[k]).files_changed
                == next@[k].files_changed_list@.len(),
{
    let ghost before = commits.deep_view();
    let mut commits = commits;
    if line.len() == 0 {
        return Ok(commits);
    }
    if has_at(line, 0, sentinel) {
        let author = read_author(line);
        let commit = Commit {
            author,
            files_changed_list: Vec::new(),
            insertions: 0,
            deletions: 0,
            files_changed: 0,
        };
        assert(commit.files_changed_list.deep_view() =~= Seq::<FileDelta>::empty());
        commits.push(commit);
        assert(commits.deep_view() =~= before.push(CommitRecord::empty(author_of(line@))));
        return Ok(commits);
    }
    let mut commit = match commits.pop() {
        Some(commit) => commit,
        None => {
            return Err(LogError::OrphanStat);
        },
    };
    assert(commit@ == before.last());
    let ghost earlier = commits.deep_view();
    assert(earlier =~= before.drop_last());
    let fields = split_fields(line);
    let (insertions, deletions, file) = match collect_triple(fields) {
        Some(triple) => triple,
        None => {
            return Err(LogError::MalformedStat);
        },
    };
    let ghost shown = stat_fields(line@);
    assert(insertions@ == shown[0] && deletions@ == shown[1] && file@ == shown[2]) by {
        assert(fields@[0] == insertions && fields@[1] == deletions && fields@[2] == file);
    }
    let insertions = parse_count(insertions);
    let deletions = parse_count(deletions);
    let delta = FilesChanged { insertions, deletions, filename: string_of(file) };
    assert(delta@ == delta_of(shown));
    let total_insertions = commit.insertions.checked_add(insertions);
    let total_deletions = commit.deletions.checked_add(deletions);
    match (total_insertions, total_deletions) {
        (Some(total_insertions), Some(total_deletions)) => {
            let ghost files = commit.files_changed_list.deep_view();
            commit.insertions = total_insertions;
            commit.deletions = total_deletions;
            commit.files_changed_list.push(delta);
            commit.files_changed = commit.files_changed_list.len();
            assert(commit.files_changed_list.deep_view() =~= files.push(delta@));
            assert(commit@ == before.last().with(delta_of(shown)));
            commits.push(commit);
            assert(commits.deep_view() =~= earlier.push(commit@));
            Ok(commits)
        },
        _ => Err(LogError::CountOverflow),
    }
}

/// The commits never count files that they do not list.
proof fn lemma_lists_all_files(lines: Seq<Seq<char>>)
    ensures
        fold_lines(lines) matches Ok(commits) ==> forall|k: int|
            0 <= k < commits.len() ==> (#[trigger] commits[k]).consistent(),
    decreases lines.len(),
{
    if lines.len() > 0 {
        lemma_lists_all_files(lines.drop_last());
        match fold_lines(lines.drop_last()) {
            Ok(commits) => {
                let line = lines.last();
                match step(commits, line) {
                    Ok(next) => {
                        assert forall|k: int| 0 <= k < next.len() implies (
                        #[trigger] next[k]).consistent() by {
                            if k < next.len() - 1 && k < commits.len() {
                                assert(commits[k].consistent());
                            } else if line.len() != 0 && !is_author_line(line) {
                                let last = commits.last();
                                let delta = delta_of(stat_fields(line));
                                assert(last.consistent());
                                assert(last.files.push(delta).drop_last() =~= last.files);
                            } else if line.len() == 0 {
                                assert(commits[k].consistent());
                            }
                        }
                    },
                    Err(_) => {},
                }
            },
            Err(_) => {},
        }
    }
}

/// In every commit of a log that is read, the totals are those of the files listed.
pub proof fn lemma_parsed_consistent(log: Seq<char>)
    ensures
        parsed(log) matches Ok(commits) ==> forall|k: int|
            0 <= k < commits.len() ==> (#[trigger] commits[k]).consistent(),
{
    lemma_lists_all_files(lines(log));
}

/// Every commit that lines describe has an author with a name.
proof fn lemma_names_all_authors(lines: Seq<Seq<char>>)
    ensures
        fold_lines(lines) matches Ok(commits) ==> forall|k: int|
            0 <= k < commits.len() ==> (#[trigger] commits[k]).author.len() > 0,
    decreases lines.len(),
{
    reveal_strlit("unknown");
    if lines.len() > 0 {
        lemma_names_all_authors(lines.drop_last());
        if let Ok(commits) = fold_lines(lines.drop_last()) {
            if let Ok(next) = step(commits, lines.last()) {
                assert forall|k: int| 0 <= k < next.len() implies (#[trigger] next[k]).author.len()
                    > 0 by {
                    if k < commits.len() {
                        assert(commits[k].author.len() > 0);
                    }
                }
            }
        }
    }
}

/// In every commit of a log that is read, the author has a name: the name of
/// the author line, or `unknown`.
pub proof fn lemma_parsed_named(log: Seq<char>)
    ensures
        parsed(log) matches Ok(commits) ==> forall|k: int|
            0 <= k < commits.len() ==> (#[trigger] commits[k]).author.len() > 0,
{
    lemma_names_all_authors(lines(log));
}

/// The model of an outcome that holds commits.
pub open spec fn records_of<E>(outcome: Result<Vec<Commit>, E>) -> Result<Seq<CommitRecord>, E> {
    match outcome {
        Ok(commits) => Ok(commits.deep_view()),
        Err(e) => Err(e),
    }
}

/// Reads the output of `git log --no-merges --no-renames
/// --format="author %aN%x09%aE" --numstat`.
///
/// Each author line opens a commit: behind the word `author` and one space
/// stands the name and, behind a tab, the address. The author is the name,
/// taken whole; without a name the address; without both `unknown`. A line
/// without a tab is all name. Each line of file statistics that follows
/// (insertions, deletions and file name, separated by tabs) adds one file to
/// the commit. Empty lines are passed over. A count that cannot be read, as the `-` of a
/// binary file, is taken as zero. The log is refused if statistics stand in
/// front of the first author line, if a line of statistics has fewer than three
/// fields, or if the totals of a commit do not fit in `usize`.
pub fn parse_git_log(log: &str) -> (outcome: Result<Vec<Commit>, LogError>)
    ensures
        records_of(outcome) == parsed(log@),
        outcome matches Ok(commits) ==> forall|k: int|
            0 <= k < commits@.len() ==> (#[trigger] commits@[k])@.consistent()
                && commits@[k].author@.len() > 0,
{
    let text = chars_of(log);
    let sentinel = chars_of("author ");
    proof {
        reveal_strlit("author ");
        assert(sentinel@ =~= self::sentinel());
    }
    let mut commits: Vec<Commit> = Vec::new();
    let mut at: usize = 0;
    let ghost mut read: Seq<Seq<char>> = Seq::empty();
    assert(commits.deep_view() =~= Seq::<CommitRecord>::empty());
    while at < text.len()
        invariant
            at <= text@.len(),
            text@ == log@,
            sentinel@ == self::sentinel(),
            lines(text@) == read + lines_from(text@, at as int),
            fold_lines(read) matches Ok(records) && records == commits.deep_view(),
            forall|k: int|
                0 <= k < commits@.len() ==> (#[trigger] commits@[k]).files_changed
                    == commits@[k].files_changed_list@.len(),
        decreases text@.len() - at,
    {
        let (end, next) = line_bounds(text.as_slice(), at);
        let line = slice_subrange(text.as_slice(), at, end);
        proof {
            let rest = lines_from(text@, next as int);
            assert(lines_from(text@, at as int) == seq![line@] + rest);
            assert(read + (seq![line@] + rest) =~= read.push(line@) + rest);
            assert(read.push(line@).drop_last() =~= read);
        }
        match read_line(commits, line, sentinel.as_slice()) {
            Ok(next_commits) => {
                commits = next_commits;
            },
            Err(e) => {
                proof {
                    lemma_error_sticks(read.push(line@), lines_from(text@, next as int));
                }
                return Err(e);
            },
        }
        proof {
            read = read.push(line@);
        }
        at = next;
    }
    proof {
        assert(read + lines_from(text@, at as int) =~= read);
        lemma_parsed_consistent(log@);
        lemma_parsed_named(log@);
        assert forall|k: int| 0 <= k < commits@.len() implies (
        #[trigger] commits@[k])@.consistent() && commits@[k].author@.len() > 0 by {
            assert(commits.deep_view()[k] == commits@[k]@);
        }
    }
    Ok(commits)
}

} // verus!
