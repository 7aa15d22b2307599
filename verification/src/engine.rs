//! The two queries of the statistics engine, over a history that was read
//! from a repository.
//!
//! Reading is not done here. The caller walks the repository, newest commit
//! first, and hands over for each revision the author's name and e-mail
//! address, the number of parents and the files of its diff against its first
//! parent (against the empty tree for a root commit), computed with rename
//! and copy detection switched off.

use crate::glob::{any_match, compile_all, globs_of, PathMatcher, Piece};
use crate::group::{
    accumulate, all_fit, by_files, is_grouping, lemma_grouping_is_unique, Contribution,
};
use crate::stats::{records_of, Commit, CommitRecord, FileDelta, FilesChanged};
use crate::tally::{AuthorStats, AuthorTally, StatsError};
use crate::text::{chars_of, has_at, occurs_at, string_of};
use vstd::prelude::*;
use vstd::slice::slice_subrange;

verus! {

/// One revision as it was read from the repository.
#[derive(Debug, PartialEq, Eq)]
pub struct Revision {
    /// The author's name; empty if the revision records none.
    pub name: String,
    /// The author's e-mail address; empty if the revision records none.
    pub email: String,
    /// The number of parents; more than one for a merge.
    pub parent_count: usize,
    /// The files of the diff; `None` if the diff could not be computed.
    pub diff: Option<Vec<FilesChanged>>,
}

/// The model of a [`Revision`].
pub struct RevisionRecord {
    pub name: Seq<char>,
    pub email: Seq<char>,
    pub parent_count: nat,
    pub diff: Option<Seq<FileDelta>>,
}

impl View for Revision {
    type V = RevisionRecord;

    open spec fn view(&self) -> RevisionRecord {
        RevisionRecord {
            name: self.name@,
            email: self.email@,
            parent_count: self.parent_count as nat,
            diff: match self.diff {
                Some(files) => Some(files.deep_view()),
                None => None,
            },
        }
    }
}

impl DeepView for Revision {
    type V = RevisionRecord;

    open spec fn deep_view(&self) -> RevisionRecord {
        self@
    }
}

impl RevisionRecord {
    /// Whether the revision is a merge.
    pub open spec fn is_merge(self) -> bool {
        self.parent_count > 1
    }

    /// The revision with `files` as its diff.
    pub open spec fn with_files(self, files: Seq<FileDelta>) -> RevisionRecord {
        RevisionRecord { diff: Some(files), ..self }
    }

    /// The files of the diff; none if the diff could not be computed.
    pub open spec fn files(self) -> Seq<FileDelta> {
        match self.diff {
            Some(files) => files,
            None => Seq::empty(),
        }
    }
}

/// What came of reading the history of a repository.
#[derive(Debug, PartialEq, Eq)]
pub enum History {
    /// The location is not inside a repository.
    NotARepository,
    /// The repository was found and its history could not be read.
    Unreadable,
    /// The revisions of the history, newest first.
    Walked(Vec<Revision>),
}

/// The model of a [`History`].
pub enum HistoryRecord {
    NotARepository,
    Unreadable,
    Walked(Seq<RevisionRecord>),
}

impl View for History {
    type V = HistoryRecord;

    open spec fn view(&self) -> HistoryRecord {
        match self {
            History::NotARepository => HistoryRecord::NotARepository,
            History::Unreadable => HistoryRecord::Unreadable,
            History::Walked(revisions) => HistoryRecord::Walked(revisions.deep_view()),
        }
    }
}

/// The identity under which an author is counted: the name; without a name
/// the e-mail address; without both the word `unknown`.
pub open spec fn identity(name: Seq<char>, email: Seq<char>) -> Seq<char> {
    if name.len() > 0 {
        name
    } else if email.len() > 0 {
        email
    } else {
        "unknown"@
    }
}

/// Resolves the identity of an author from the name and the e-mail address.
pub fn resolve_author(name: &str, email: &str) -> (author: String)
    ensures
        author@ == identity(name@, email@),
{
    if !name.is_empty() {
        name.to_owned()
    } else if !email.is_empty() {
        email.to_owned()
    } else {
        "unknown".to_owned()
    }
}

/// Tests whether a revision with `parent_count` parents is a merge.
pub fn is_merge(parent_count: usize) -> (merge: bool)
    ensures
        merge == (parent_count > 1),
{
    parent_count > 1
}

/// Those of `files` that the pathspec admits, in their order: all of them
/// without a pathspec, and with one those that a pattern of it matches.
pub open spec fn included(files: Seq<FileDelta>, scope: Option<Seq<Seq<Piece>>>) -> Seq<FileDelta>
    decreases files.len(),
{
    if files.len() == 0 {
        Seq::empty()
    } else {
        let earlier = included(files.drop_last(), scope);
        if admits(scope, files.last().filename) {
            earlier.push(files.last())
        } else {
            earlier
        }
    }
}

/// Whether the pathspec admits `path`.
pub open spec fn admits(scope: Option<Seq<Seq<Piece>>>, path: Seq<char>) -> bool {
    match scope {
        Some(globs) => any_match(globs, path),
        None => true,
    }
}

/// Restricts `files` to those that the pathspec admits.
pub fn select_included(files: &Vec<FilesChanged>, scope: Option<&PathMatcher>) -> (selected: Vec<
    FilesChanged,
>)
    ensures
        selected.deep_view() == included(files.deep_view(), globs_of(scope)),
{
    let ghost model = files.deep_view();
    let ghost globs = globs_of(scope);
    let mut selected: Vec<FilesChanged> = Vec::new();
    let mut i: usize = 0;
    assert(selected.deep_view() =~= included(model.take(0), globs));
    while i < files.len()
        invariant
            i <= files@.len(),
            model == files.deep_view(),
            globs == globs_of(scope),
            selected.deep_view() == included(model.take(i as int), globs),
        decreases files@.len() - i,
    {
        let file = &files[i];
        let ghost held = selected.deep_view();
        proof {
            assert(model.take(i + 1).drop_last() =~= model.take(i as int));
            assert(model.take(i + 1).last() == file@);
        }
        let admitted = match scope {
            Some(matcher) => matcher.is_match(file.filename.as_str()),
            None => true,
        };
        if admitted {
            selected.push(file.clone());
            assert(selected.deep_view() =~= held.push(file@));
        }
        i += 1;
    }
    assert(model.take(i as int) =~= model);
    selected
}

/// The commit that a revision stands for, its files restricted to those that
/// the pathspec admits.
pub open spec fn commit_of(
    revision: RevisionRecord,
    scope: Option<Seq<Seq<Piece>>>,
) -> CommitRecord {
    CommitRecord::of(
        identity(revision.name, revision.email),
        included(revision.files(), scope),
    )
}

/// The commits of a history: one for each revision that is not a merge, in
/// the order of the revisions.
pub open spec fn walked(revisions: Seq<RevisionRecord>, scope: Option<Seq<Seq<Piece>>>) -> Seq<
    CommitRecord,
>
    decreases revisions.len(),
{
    if revisions.len() == 0 {
        Seq::empty()
    } else {
        let earlier = walked(revisions.drop_last(), scope);
        if revisions.last().is_merge() {
            earlier
        } else {
            earlier.push(commit_of(revisions.last(), scope))
        }
    }
}

/// The revision that a commit read off a log stands for. A log lists no
/// merges, and the author of its commits is resolved: the revision has the
/// commit's author as its name, no address, one parent, and the commit's
/// files as its diff.
pub open spec fn revision_of(commit: CommitRecord) -> RevisionRecord {
    RevisionRecord {
        name: commit.author,
        email: Seq::empty(),
        parent_count: 1,
        diff: Some(commit.files),
    }
}

/// The revisions that the commits of a log stand for, in their order.
pub open spec fn log_revisions(commits: Seq<CommitRecord>) -> Seq<RevisionRecord> {
    commits.map_values(|c: CommitRecord| revision_of(c))
}

/// Without a pathspec every file is admitted.
pub proof fn lemma_all_included(files: Seq<FileDelta>)
    ensures
        included(files, None) == files,
    decreases files.len(),
{
    if files.len() > 0 {
        lemma_all_included(files.drop_last());
        assert(files.drop_last().push(files.last()) =~= files);
    }
}

/// The commits of a log as the revisions of a history, in their order, so that
/// the queries can be put to what a log says.
pub fn revisions_of(commits: &Vec<Commit>) -> (revisions: Vec<Revision>)
    ensures
        revisions.deep_view() == log_revisions(commits.deep_view()),
{
    let ghost model = commits.deep_view();
    let mut revisions: Vec<Revision> = Vec::new();
    let mut i: usize = 0;
    while i < commits.len()
        invariant
            i <= commits@.len(),
            model == commits.deep_view(),
            revisions@.len() == i,
            forall|k: int| 0 <= k < i ==> (#[trigger] revisions@[k])@ == revision_of(model[k]),
        decreases commits@.len() - i,
    {
        let commit = &commits[i];
        let files = select_included(&commit.files_changed_list, None);
        proof {
            lemma_all_included(commit.files_changed_list.deep_view());
            assert(model[i as int] == commit@);
        }
        revisions.push(
            Revision {
                name: commit.author.clone(),
                email: String::new(),
                parent_count: 1,
                diff: Some(files),
            },
        );
        i += 1;
    }
    assert(revisions.deep_view() =~= log_revisions(model));
    revisions
}

/// A commit whose author is named and whose totals are those of its files is
/// the commit of the revision that it stands for.
pub proof fn lemma_commit_of_revision(commit: CommitRecord)
    requires
        commit.author.len() > 0,
        commit.consistent(),
    ensures
        !revision_of(commit).is_merge(),
        commit_of(revision_of(commit), None) == commit,
{
    lemma_all_included(commit.files);
}

/// The history that stands for a log has the commits of the log: nothing is
/// lost or added on the way from a log to the queries, as long as every
/// author is named and every commit's totals are those of its files.
pub proof fn lemma_log_history(commits: Seq<CommitRecord>)
    requires
        forall|k: int|
            0 <= k < commits.len() ==> (#[trigger] commits[k]).author.len() > 0
                && commits[k].consistent(),
    ensures
        walked(log_revisions(commits), None) == commits,
    decreases commits.len(),
{
    if commits.len() > 0 {
        let last = commits.last();
        assert(commits[commits.len() - 1].consistent());
        lemma_commit_of_revision(last);
        lemma_log_history(commits.drop_last());
        assert(log_revisions(commits).drop_last() =~= log_revisions(commits.drop_last()));
        assert(commits.drop_last().push(last) =~= commits);
    } else {
        assert(walked(log_revisions(commits), None) =~= commits);
    }
}

/// Whether the totals of every commit fit in `usize`.
pub open spec fn totals_fit(commits: Seq<CommitRecord>) -> bool {
    forall|k: int|
        0 <= k < commits.len() ==> (#[trigger] commits[k]).insertions <= usize::MAX
            && commits[k].deletions <= usize::MAX
}

/// The commits of the first revisions of a history are the first commits of the history.
pub proof fn lemma_walked_grows(
    revisions: Seq<RevisionRecord>,
    scope: Option<Seq<Seq<Piece>>>,
    n: int,
)
    requires
        0 <= n <= revisions.len(),
    ensures
        walked(revisions.take(n), scope).is_prefix_of(walked(revisions, scope)),
    decreases revisions.len(),
{
    if n == revisions.len() {
        assert(revisions.take(n) =~= revisions);
    } else {
        lemma_walked_grows(revisions.drop_last(), scope, n);
        assert(revisions.drop_last().take(n) =~= revisions.take(n));
    }
}

/// Turns the revisions that are not merges into commits. A revision whose
/// diff could not be computed gives a commit without files. Fails if the
/// totals of a commit do not fit in `usize`.
pub fn walk(revisions: &Vec<Revision>, scope: Option<&PathMatcher>) -> (outcome: Result<
    Vec<Commit>,
    StatsError,
>)
    ensures
        outcome is Ok <==> totals_fit(walked(revisions.deep_view(), globs_of(scope))),
        outcome matches Ok(commits) ==> commits.deep_view() == walked(
            revisions.deep_view(),
            globs_of(scope),
        ),
        outcome matches Err(e) ==> e == StatsError::CountOverflow,
{
    let ghost model = revisions.deep_view();
    let ghost globs = globs_of(scope);
    let mut commits: Vec<Commit> = Vec::new();
    let mut i: usize = 0;
    assert(commits.deep_view() =~= walked(model.take(0), globs));
    while i < revisions.len()
        invariant
            i <= revisions@.len(),
            model == revisions.deep_view(),
            globs == globs_of(scope),
            commits.deep_view() == walked(model.take(i as int), globs),
        decreases revisions@.len() - i,
    {
        let revision = &revisions[i];
        let ghost held = commits.deep_view();
        proof {
            assert(model.take(i + 1).drop_last() =~= model.take(i as int));
            assert(model.take(i + 1).last() == revision@);
        }
        if !is_merge(revision.parent_count) {
            let files = match &revision.diff {
                Some(files) => select_included(files, scope),
                None => Vec::new(),
            };
            assert(files.deep_view() =~= included(revision@.files(), globs));
            let author = resolve_author(revision.name.as_str(), revision.email.as_str());
            match Commit::new(author, files) {
                Some(commit) => {
                    let ghost record = commit@;
                    commits.push(commit);
                    assert(commits.deep_view() =~= held.push(record));
                },
                None => {
                    proof {
                        let prefix = walked(model.take(i + 1), globs);
                        lemma_walked_grows(model, globs, i + 1);
                        assert(prefix[prefix.len() - 1] == commit_of(revision@, globs));
                        assert(walked(model, globs)[prefix.len() - 1] == prefix[prefix.len() - 1]);
                    }
                    return Err(StatsError::CountOverflow);
                },
            }
        }
        i += 1;
    }
    proof {
        assert(model.take(i as int) =~= model);
        assert forall|k: int| 0 <= k < commits@.len() implies (#[trigger] walked(
            model,
            globs,
        )[k]).insertions <= usize::MAX && walked(model, globs)[k].deletions <= usize::MAX by {
            assert(commits.deep_view()[k] == commits@[k]@);
        }
    }
    Ok(commits)
}

/// The texts of an optional list of patterns.
pub open spec fn texts_of(patterns: Option<&Vec<String>>) -> Option<Seq<Seq<char>>> {
    match patterns {
        Some(list) => Some(list.deep_view()),
        None => None,
    }
}

/// An optional list of patterns, compiled: no list gives no matcher.
pub open spec fn compile_some(patterns: Option<Seq<Seq<char>>>) -> Option<Seq<Seq<Piece>>> {
    match patterns {
        Some(list) => Some(compile_all(list)),
        None => None,
    }
}

/// The compiled patterns of an optional matcher.
spec fn globs_in(matcher: Option<PathMatcher>) -> Option<Seq<Seq<Piece>>> {
    match matcher {
        Some(m) => Some(m@),
        None => None,
    }
}

/// Builds the matcher of an optional list of patterns.
fn build_some(patterns: Option<&Vec<String>>) -> (matcher: Option<PathMatcher>)
    ensures
        globs_in(matcher) == compile_some(texts_of(patterns)),
{
    match patterns {
        Some(list) => Some(PathMatcher::build(list)),
        None => None,
    }
}

/// What the query for the list of commits answers: for a history that was
/// walked its commits, restricted to the pathspec `scope`.
pub open spec fn listing(history: HistoryRecord, scope: Option<Seq<Seq<Piece>>>) -> Result<
    Seq<CommitRecord>,
    StatsError,
> {
    match history {
        HistoryRecord::NotARepository => Err(StatsError::RepositoryNotFound),
        HistoryRecord::Unreadable => Err(StatsError::NoCommitsFound),
        HistoryRecord::Walked(revisions) => if totals_fit(walked(revisions, scope)) {
            Ok(walked(revisions, scope))
        } else {
            Err(StatsError::CountOverflow)
        },
    }
}

/// The contributions that the query for statistics groups, or the condition
/// that it reports: a history without a commit that is not a merge is
/// reported as `NoCommitsFound`.
pub open spec fn contributions(
    history: HistoryRecord,
    scope: Option<Seq<Seq<Piece>>>,
    exclusions: Option<Seq<Seq<Piece>>>,
) -> Result<Seq<Contribution>, StatsError> {
    match listing(history, scope) {
        Err(e) => Err(e),
        Ok(commits) => if commits.len() == 0 {
            Err(StatsError::NoCommitsFound)
        } else if all_fit(by_files(commits, exclusions)) {
            Ok(by_files(commits, exclusions))
        } else {
            Err(StatsError::CountOverflow)
        },
    }
}

/// Whether `answer` is what the query for statistics owes for these arguments.
pub open spec fn is_answer(
    answer: Result<Seq<AuthorTally>, StatsError>,
    history: HistoryRecord,
    scope: Option<Seq<Seq<Piece>>>,
    exclusions: Option<Seq<Seq<Piece>>>,
) -> bool {
    match contributions(history, scope, exclusions) {
        Ok(grouped) => answer matches Ok(table) && is_grouping(table, grouped),
        Err(e) => answer matches Err(cause) && cause == e,
    }
}

/// The model of an answer of the query for statistics.
pub open spec fn answer_of(outcome: Result<Vec<AuthorStats>, StatsError>) -> Result<
    Seq<AuthorTally>,
    StatsError,
> {
    match outcome {
        Ok(table) => Ok(table.deep_view()),
        Err(e) => Err(e),
    }
}

/// The query for the raw list of commits: one record for each revision that
/// is not a merge, newest first as the history gives them, with the files that
/// the patterns of `pathspec` admit and the totals over these files.
pub fn list_commits(history: &History, pathspec: Option<&Vec<String>>) -> (outcome: Result<
    Vec<Commit>,
    StatsError,
>)
    ensures
        records_of(outcome) == listing(history@, compile_some(texts_of(pathspec))),
{
    match history {
        History::NotARepository => Err(StatsError::RepositoryNotFound),
        History::Unreadable => Err(StatsError::NoCommitsFound),
        History::Walked(revisions) => {
            let scope = build_some(pathspec);
            walk(revisions, scope.as_ref())
        },
    }
}

/// The query for statistics: the commits of the history that are not merges,
/// restricted to the files that the patterns of `pathspec` admit, folded into
/// one row for each author identity. The lines of a file that a pattern of
/// `excluded` matches are not counted; the file is. A location outside a
/// repository is reported as `RepositoryNotFound`; a history that could not be
/// read, or that holds no commit that is not a merge, as `NoCommitsFound`.
pub fn aggregate(
    history: &History,
    pathspec: Option<&Vec<String>>,
    excluded: Option<&Vec<String>>,
) -> (outcome: Result<Vec<AuthorStats>, StatsError>)
    ensures
        is_answer(
            answer_of(outcome),
            history@,
            compile_some(texts_of(pathspec)),
            compile_some(texts_of(excluded)),
        ),
        history@ is NotARepository ==> outcome == Err::<Vec<AuthorStats>, StatsError>(
            StatsError::RepositoryNotFound,
        ),
        history@ is Unreadable ==> outcome == Err::<Vec<AuthorStats>, StatsError>(
            StatsError::NoCommitsFound,
        ),
        history@ matches HistoryRecord::Walked(revisions) ==> (walked(
            revisions,
            compile_some(texts_of(pathspec)),
        ).len() == 0 ==> outcome == Err::<Vec<AuthorStats>, StatsError>(
            StatsError::NoCommitsFound,
        )),
{
    let commits = list_commits(history, pathspec)?;
    if commits.len() == 0 {
        return Err(StatsError::NoCommitsFound);
    }
    let exclusions = build_some(excluded);
    accumulate(&commits, exclusions.as_ref())
}

/// Whether an entry of a combined pathspec names an exclusion: it opens with `:!`.
pub open spec fn is_exclusion(entry: Seq<char>) -> bool {
    occurs_at(entry, 0, seq![':', '!'])
}

/// The entries of a combined pathspec that name no exclusion, in their order.
pub open spec fn inclusions(entries: Seq<Seq<char>>) -> Seq<Seq<char>>
    decreases entries.len(),
{
    if entries.len() == 0 {
        Seq::empty()
    } else if is_exclusion(entries.last()) {
        inclusions(entries.drop_last())
    } else {
        inclusions(entries.drop_last()).push(entries.last())
    }
}

/// The exclusion patterns of a combined pathspec, in their order: the entries
/// that open with `:!`, without these two characters.
pub open spec fn exclusions(entries: Seq<Seq<char>>) -> Seq<Seq<char>>
    decreases entries.len(),
{
    if entries.len() == 0 {
        Seq::empty()
    } else if is_exclusion(entries.last()) {
        exclusions(entries.drop_last()).push(entries.last().skip(2))
    } else {
        exclusions(entries.drop_last())
    }
}

/// A combined pathspec, split.
#[derive(Debug, PartialEq, Eq)]
pub struct Pathspec {
    /// The patterns to which the diff is restricted; `None` if there is no such pattern.
    pub scope: Option<Vec<String>>,
    /// The patterns whose files do not count with their lines.
    pub excluded: Vec<String>,
}

/// Splits a combined pathspec into the patterns that restrict the diff and the
/// exclusion patterns. Without an entry of the first kind the diff is not restricted.
pub fn split_pathspec(entries: &Vec<String>) -> (split: Pathspec)
    ensures
        split.excluded.deep_view() == exclusions(entries.deep_view()),
        match split.scope {
            Some(scope) => scope.deep_view() == inclusions(entries.deep_view()) && scope@.len() > 0,
            None => inclusions(entries.deep_view()).len() == 0,
        },
{
    let ghost model = entries.deep_view();
    let mark = vec![':', '!'];
    let mut scope: Vec<String> = Vec::new();
    let mut excluded: Vec<String> = Vec::new();
    let mut i: usize = 0;
    assert(scope.deep_view() =~= inclusions(model.take(0)));
    assert(excluded.deep_view() =~= exclusions(model.take(0)));
    while i < entries.len()
        invariant
            i <= entries@.len(),
            model == entries.deep_view(),
            mark@ == seq![':', '!'],
            scope.deep_view() == inclusions(model.take(i as int)),
            excluded.deep_view() == exclusions(model.take(i as int)),
        decreases entries@.len() - i,
    {
        let entry = &entries[i];
        let chars = chars_of(entry.as_str());
        let ghost held_scope = scope.deep_view();
        let ghost held_excluded = excluded.deep_view();
        proof {
            assert(model.take(i + 1).drop_last() =~= model.take(i as int));
            assert(model.take(i + 1).last() == entry@);
        }
        if has_at(chars.as_slice(), 0, mark.as_slice()) {
            let pattern = string_of(slice_subrange(chars.as_slice(), 2, chars.len()));
            assert(pattern@ =~= entry@.skip(2));
            excluded.push(pattern);
            assert(excluded.deep_view() =~= held_excluded.push(entry@.skip(2)));
        } else {
            scope.push(entry.clone());
            assert(scope.deep_view() =~= held_scope.push(entry@));
        }
        i += 1;
    }
    assert(model.take(i as int) =~= model);
    if scope.len() == 0 {
        Pathspec { scope: None, excluded }
    } else {
        Pathspec { scope: Some(scope), excluded }
    }
}

/// A history without a commit that is not a merge has no commits, and the
/// query for statistics reports it as `NoCommitsFound`.
pub proof fn lemma_only_merges_is_no_commits(
    revisions: Seq<RevisionRecord>,
    scope: Option<Seq<Seq<Piece>>>,
    exclusions: Option<Seq<Seq<Piece>>>,
)
    requires
        forall|k: int| 0 <= k < revisions.len() ==> (#[trigger] revisions[k]).is_merge(),
    ensures
        walked(revisions, scope).len() == 0,
        contributions(HistoryRecord::Walked(revisions), scope, exclusions) == Err::<
            Seq<Contribution>,
            StatsError,
        >(StatsError::NoCommitsFound),
    decreases revisions.len(),
{
    if revisions.len() > 0 {
        assert(revisions[revisions.len() - 1].is_merge());
        lemma_only_merges_is_no_commits(revisions.drop_last(), scope, exclusions);
    }
}

/// A merge contributes nothing: the history with it and the history without
/// it have the same commits, and with them the same statistics.
pub proof fn lemma_merges_do_not_count(
    revisions: Seq<RevisionRecord>,
    at: int,
    scope: Option<Seq<Seq<Piece>>>,
    exclusions: Option<Seq<Seq<Piece>>>,
)
    requires
        0 <= at < revisions.len(),
        revisions[at].is_merge(),
    ensures
        walked(revisions, scope) == walked(revisions.remove(at), scope),
        contributions(HistoryRecord::Walked(revisions), scope, exclusions) == contributions(
            HistoryRecord::Walked(revisions.remove(at)),
            scope,
            exclusions,
        ),
    decreases revisions.len(),
{
    if at == revisions.len() - 1 {
        assert(revisions.remove(at) =~= revisions.drop_last());
    } else {
        lemma_merges_do_not_count(revisions.drop_last(), at, scope, exclusions);
        assert(revisions.remove(at).drop_last() =~= revisions.drop_last().remove(at));
        assert(revisions.remove(at).last() == revisions.last());
    }
}

/// Histories whose revisions agree, one by one, in being merges and in the
/// commits that they stand for have the same commits.
pub proof fn lemma_walked_by_commits(
    first: Seq<RevisionRecord>,
    second: Seq<RevisionRecord>,
    scope: Option<Seq<Seq<Piece>>>,
)
    requires
        first.len() == second.len(),
        forall|k: int|
            0 <= k < first.len() ==> (#[trigger] first[k]).is_merge() == second[k].is_merge()
                && commit_of(first[k], scope) == commit_of(second[k], scope),
    ensures
        walked(first, scope) == walked(second, scope),
    decreases first.len(),
{
    if first.len() > 0 {
        let last = first.len() - 1;
        assert(first[last].is_merge() == second[last].is_merge());
        assert(commit_of(first[last], scope) == commit_of(second[last], scope));
        lemma_walked_by_commits(first.drop_last(), second.drop_last(), scope);
    }
}

/// Without a file that the pathspec does not admit, the admitted files are the same.
pub proof fn lemma_included_without(files: Seq<FileDelta>, at: int, scope: Option<Seq<Seq<Piece>>>)
    requires
        0 <= at < files.len(),
        !admits(scope, files[at].filename),
    ensures
        included(files, scope) == included(files.remove(at), scope),
    decreases files.len(),
{
    if at == files.len() - 1 {
        assert(files.remove(at) =~= files.drop_last());
    } else {
        lemma_included_without(files.drop_last(), at, scope);
        assert(files.remove(at).drop_last() =~= files.drop_last().remove(at));
        assert(files.remove(at).last() == files.last());
    }
}

/// A file outside the pathspec is not seen: the history in which a revision
/// lists it and the history in which that revision does not give the same
/// commits, so that the file counts neither as a changed file nor with its
/// lines, whatever the exclusion patterns are.
pub proof fn lemma_outside_scope_is_invisible(
    revisions: Seq<RevisionRecord>,
    at: int,
    files: Seq<FileDelta>,
    file: int,
    scope: Option<Seq<Seq<Piece>>>,
    exclusions: Option<Seq<Seq<Piece>>>,
)
    requires
        0 <= at < revisions.len(),
        revisions[at].diff == Some(files),
        0 <= file < files.len(),
        !admits(scope, files[file].filename),
    ensures
        walked(revisions, scope) == walked(
            revisions.update(at, revisions[at].with_files(files.remove(file))),
            scope,
        ),
        contributions(HistoryRecord::Walked(revisions), scope, exclusions) == contributions(
            HistoryRecord::Walked(
                revisions.update(at, revisions[at].with_files(files.remove(file))),
            ),
            scope,
            exclusions,
        ),
{
    let without = revisions.update(at, revisions[at].with_files(files.remove(file)));
    lemma_included_without(files, file, scope);
    lemma_walked_by_commits(revisions, without, scope);
}

/// The query for statistics has one answer: two answers owed for the same
/// history and the same patterns are equal, row for row, so that a second run
/// over an unchanged repository gives the result of the first.
pub proof fn lemma_answer_is_unique(
    first: Result<Seq<AuthorTally>, StatsError>,
    second: Result<Seq<AuthorTally>, StatsError>,
    history: HistoryRecord,
    scope: Option<Seq<Seq<Piece>>>,
    exclusions: Option<Seq<Seq<Piece>>>,
)
    requires
        is_answer(first, history, scope, exclusions),
        is_answer(second, history, scope, exclusions),
    ensures
        first == second,
{
    match contributions(history, scope, exclusions) {
        Ok(grouped) => {
            lemma_grouping_is_unique(first->Ok_0, second->Ok_0, grouped);
        },
        Err(_) => {},
    }
}

} // verus!
