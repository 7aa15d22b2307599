//! Counters: the unbounded mathematical tally and its machine-sized record.

use vstd::prelude::*;

verus! {

/// What went wrong in a query for statistics.
#[derive(Clone, Copy, Debug, PartialEq, Eq, Structural)]
pub enum StatsError {
    /// The location is not inside a repository.
    RepositoryNotFound,
    /// The history holds no commit that is not a merge, or could not be read.
    NoCommitsFound,
    /// A counter does not fit in `usize`.
    CountOverflow,
}

impl StatsError {
    /// The words in which the condition is reported.
    pub open spec fn text(self) -> Seq<char> {
        match self {
            StatsError::RepositoryNotFound =>
                "fatal: not a git repository (or any of the parent directories): .git"@,
            StatsError::NoCommitsFound => "no commits found"@,
            StatsError::CountOverflow => "fatal: a count exceeds the machine word"@,
        }
    }

    /// The condition in plain words, as it is shown to the user.
    pub fn message(&self) -> (words: String)
        ensures
            words@ == self.text(),
    {
        match self {
            StatsError::RepositoryNotFound =>
                "fatal: not a git repository (or any of the parent directories): .git".to_owned(),
            StatsError::NoCommitsFound => "no commits found".to_owned(),
            StatsError::CountOverflow => "fatal: a count exceeds the machine word".to_owned(),
        }
    }
}

/// Counters over the natural numbers: the model of [`UserCommitStats`].
pub struct Tally {
    pub commits: nat,
    pub files_changed: nat,
    pub insertions: nat,
    pub deletions: nat,
}

impl Tally {
    /// The tally of nothing.
    pub open spec fn zero() -> Tally {
        Tally { commits: 0, files_changed: 0, insertions: 0, deletions: 0 }
    }

    /// The tally of one commit with these counts.
    pub open spec fn one_commit(files_changed: nat, insertions: nat, deletions: nat) -> Tally {
        Tally { commits: 1, files_changed, insertions, deletions }
    }

    /// Field-wise sum.
    pub open spec fn plus(self, other: Tally) -> Tally {
        Tally {
            commits: self.commits + other.commits,
            files_changed: self.files_changed + other.files_changed,
            insertions: self.insertions + other.insertions,
            deletions: self.deletions + other.deletions,
        }
    }

    /// Inserted and deleted lines together.
    pub open spec fn lines_changed(self) -> nat {
        self.insertions + self.deletions
    }

    /// Whether every counter, `lines_changed` included, fits in `usize`.
    pub open spec fn fits(self) -> bool {
        &&& self.commits <= usize::MAX
        &&& self.files_changed <= usize::MAX
        &&& self.lines_changed() <= usize::MAX
    }

    /// Field-wise at most `other`.
    pub open spec fn le(self, other: Tally) -> bool {
        &&& self.commits <= other.commits
        &&& self.files_changed <= other.files_changed
        &&& self.insertions <= other.insertions
        &&& self.deletions <= other.deletions
    }
}

/// Accumulated statistics of one author.
#[derive(Clone, Copy, Debug, PartialEq, Eq, Structural)]
pub struct UserCommitStats {
    pub commits: usize,
    pub files_changed: usize,
    pub insertions: usize,
    pub deletions: usize,
    pub lines_changed: usize,
}

impl UserCommitStats {
    /// Whether this record holds exactly the counters of `tally`.
    pub open spec fn records(self, tally: Tally) -> bool {
        &&& self.commits == tally.commits
        &&& self.files_changed == tally.files_changed
        &&& self.insertions == tally.insertions
        &&& self.deletions == tally.deletions
        &&& self.lines_changed == tally.lines_changed()
    }

    /// The four independent counters as a tally.
    pub open spec fn tally(self) -> Tally {
        Tally {
            commits: self.commits as nat,
            files_changed: self.files_changed as nat,
            insertions: self.insertions as nat,
            deletions: self.deletions as nat,
        }
    }

    /// Whether `lines_changed` is the sum of insertions and deletions.
    pub open spec fn consistent(self) -> bool {
        self.lines_changed == self.insertions + self.deletions
    }
}

impl Default for UserCommitStats {
    /// All counters at zero.
    fn default() -> (stats: UserCommitStats)
        ensures
            stats.records(Tally::zero()),
    {
        UserCommitStats {
            commits: 0,
            files_changed: 0,
            insertions: 0,
            deletions: 0,
            lines_changed: 0,
        }
    }
}

/// One row of the result: an author identity and its statistics.
#[derive(Debug, PartialEq, Eq)]
pub struct AuthorStats {
    pub author: String,
    pub stats: UserCommitStats,
}

/// The model of an [`AuthorStats`].
pub struct AuthorTally {
    pub author: Seq<char>,
    pub stats: UserCommitStats,
}

impl View for AuthorStats {
    type V = AuthorTally;

    open spec fn view(&self) -> AuthorTally {
        AuthorTally { author: self.author@, stats: self.stats }
    }
}

impl DeepView for AuthorStats {
    type V = AuthorTally;

    open spec fn deep_view(&self) -> AuthorTally {
        self@
    }
}

impl Clone for AuthorStats {
    fn clone(&self) -> (copy: AuthorStats)
        ensures
            copy@ == self@,
    {
        AuthorStats { author: self.author.clone(), stats: self.stats }
    }
}

} // verus!
