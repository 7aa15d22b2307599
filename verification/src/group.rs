//! The fold of commits into per-author statistics.

use crate::glob::{globs_of, is_listed, listed, PathMatcher, Piece};
use crate::stats::{deleted, inserted, Commit, CommitRecord, FileDelta, FilesChanged};
use crate::tally::{AuthorStats, AuthorTally, StatsError, Tally, UserCommitStats};
use vstd::prelude::*;

verus! {

/// What one commit adds to the statistics of its author.
pub struct Contribution {
    pub author: Seq<char>,
    pub files_changed: nat,
    pub insertions: nat,
    pub deletions: nat,
}

impl Contribution {
    /// The contribution of one commit of `author` with these counts.
    pub open spec fn of(
        author: Seq<char>,
        files_changed: nat,
        insertions: nat,
        deletions: nat,
    ) -> Contribution {
        Contribution { author, files_changed, insertions, deletions }
    }

    /// The contribution as a tally: one commit with its files and lines.
    pub open spec fn tally(self) -> Tally {
        Tally::one_commit(self.files_changed, self.insertions, self.deletions)
    }
}

/// The sum of the contributions made under the identity `author`.
pub open spec fn tally_of(contributions: Seq<Contribution>, author: Seq<char>) -> Tally
    decreases contributions.len(),
{
    if contributions.len() == 0 {
        Tally::zero()
    } else {
        let earlier = tally_of(contributions.drop_last(), author);
        if contributions.last().author == author {
            earlier.plus(contributions.last().tally())
        } else {
            earlier
        }
    }
}

/// The identities under which contributions were made, each once, in the order
/// in which they first occur.
pub open spec fn authors_of(contributions: Seq<Contribution>) -> Seq<Seq<char>>
    decreases contributions.len(),
{
    if contributions.len() == 0 {
        Seq::empty()
    } else {
        let earlier = authors_of(contributions.drop_last());
        if earlier.contains(contributions.last().author) {
            earlier
        } else {
            earlier.push(contributions.last().author)
        }
    }
}

/// Whether the statistics of every author fit in `usize`.
pub open spec fn all_fit(contributions: Seq<Contribution>) -> bool {
    forall|author: Seq<char>| (#[trigger] tally_of(contributions, author)).fits()
}

/// Whether `table` is the grouping of `contributions`: one row for each identity,
/// in the order of first occurrence, that records the sum of what was
/// contributed under it.
pub open spec fn is_grouping(table: Seq<AuthorTally>, contributions: Seq<Contribution>) -> bool {
    &&& table.len() == authors_of(contributions).len()
    &&& forall|k: int|
        0 <= k < table.len() ==> {
            &&& (#[trigger] table[k]).author == authors_of(contributions)[k]
            &&& table[k].stats.records(tally_of(contributions, table[k].author))
        }
}

/// What each of `commits` contributes by the totals that it carries.
pub open spec fn by_totals(commits: Seq<CommitRecord>) -> Seq<Contribution> {
    commits.map_values(
        |c: CommitRecord|
            Contribution {
                author: c.author,
                files_changed: c.files_changed,
                insertions: c.insertions,
                deletions: c.deletions,
            },
    )
}

/// The identities are exactly those of the contributions, and none stands twice.
pub proof fn lemma_authors_of(contributions: Seq<Contribution>)
    ensures
        forall|a: int, b: int|
            0 <= a < b < authors_of(contributions).len() ==> authors_of(contributions)[a]
                != authors_of(contributions)[b],
        forall|author: Seq<char>|
            authors_of(contributions).contains(author) <==> exists|k: int|
                0 <= k < contributions.len() && (#[trigger] contributions[k]).author == author,
    decreases contributions.len(),
{
    let authors = authors_of(contributions);
    if contributions.len() > 0 {
        let shorter = contributions.drop_last();
        let earlier = authors_of(shorter);
        let last = contributions.last();
        lemma_authors_of(shorter);
        assert forall|author: Seq<char>| authors.contains(author) implies exists|k: int|
            0 <= k < contributions.len() && (#[trigger] contributions[k]).author == author by {
            let at = choose|at: int| 0 <= at < authors.len() && authors[at] == author;
            if at < earlier.len() {
                assert(earlier[at] == author);
                assert(earlier.contains(author));
                let k = choose|k: int|
                    0 <= k < shorter.len() && (#[trigger] shorter[k]).author == author;
                assert(contributions[k].author == author);
            } else {
                assert(contributions[contributions.len() - 1].author == author);
            }
        }
        assert forall|author: Seq<char>|
            (exists|k: int|
                0 <= k < contributions.len() && (#[trigger] contributions[k]).author
                    == author) implies authors.contains(author) by {
            let k = choose|k: int|
                0 <= k < contributions.len() && (#[trigger] contributions[k]).author == author;
            if k < shorter.len() {
                assert(shorter[k].author == author);
                assert(earlier.contains(author));
                let at = choose|at: int| 0 <= at < earlier.len() && earlier[at] == author;
                assert(authors[at] == author);
            } else if earlier.contains(author) {
            } else {
                assert(authors[authors.len() - 1] == author);
            }
        }
        assert forall|a: int, b: int| 0 <= a < b < authors.len() implies authors[a]
            != authors[b] by {
            if b == earlier.len() {
                assert(earlier[a] == authors[a]);
                if authors[a] == authors[b] {
                    assert(earlier.contains(last.author));
                }
            }
        }
    }
}

/// Under an identity that made no contribution nothing is counted.
pub proof fn lemma_absent_author(contributions: Seq<Contribution>, author: Seq<char>)
    requires
        !authors_of(contributions).contains(author),
    ensures
        tally_of(contributions, author) == Tally::zero(),
    decreases contributions.len(),
{
    if contributions.len() > 0 {
        let shorter = contributions.drop_last();
        let earlier = authors_of(shorter);
        let authors = authors_of(contributions);
        if earlier.contains(author) {
            let at = choose|at: int| 0 <= at < earlier.len() && earlier[at] == author;
            assert(authors[at] == author);
        }
        if contributions.last().author == author {
            if !earlier.contains(author) {
                assert(authors[authors.len() - 1] == author);
            }
        }
        lemma_absent_author(shorter, author);
    }
}

/// Counters only grow: what is counted over the first `n` contributions is at
/// most what is counted over all of them.
pub proof fn lemma_tally_grows(contributions: Seq<Contribution>, author: Seq<char>, n: int)
    requires
        0 <= n <= contributions.len(),
    ensures
        tally_of(contributions.take(n), author).le(tally_of(contributions, author)),
    decreases contributions.len(),
{
    if n == contributions.len() {
        assert(contributions.take(n) =~= contributions);
    } else {
        lemma_tally_grows(contributions.drop_last(), author, n);
        assert(contributions.drop_last().take(n) =~= contributions.take(n));
    }
}

/// The row of `author` in `table`, if there is one.
fn row_of(table: &Vec<AuthorStats>, author: &String) -> (row: Option<usize>)
    ensures
        match row {
            Some(k) => k < table@.len() && table@[k as int].author@ == author@,
            None => forall|k: int|
                0 <= k < table@.len() ==> (#[trigger] table@[k]).author@ != author@,
        },
{
    let mut k: usize = 0;
    while k < table.len()
        invariant
            k <= table@.len(),
            forall|j: int| 0 <= j < k ==> (#[trigger] table@[j]).author@ != author@,
        decreases table@.len() - k,
    {
        if table[k].author == *author {
            return Some(k);
        }
        k += 1;
    }
    None
}

/// The statistics `stats` with one more commit of the given size, if they fit.
fn credited(
    stats: UserCommitStats,
    files_changed: usize,
    insertions: usize,
    deletions: usize,
) -> (sum: Option<UserCommitStats>)
    requires
        stats.consistent(),
    ensures
        sum is Some <==> stats.tally().plus(
            Tally::one_commit(files_changed as nat, insertions as nat, deletions as nat),
        ).fits(),
        sum matches Some(s) ==> s.records(
            stats.tally().plus(
                Tally::one_commit(files_changed as nat, insertions as nat, deletions as nat),
            ),
        ),
{
    let commits = stats.commits.checked_add(1)?;
    let files_changed = stats.files_changed.checked_add(files_changed)?;
    let insertions = stats.insertions.checked_add(insertions)?;
    let deletions = stats.deletions.checked_add(deletions)?;
    let lines_changed = insertions.checked_add(deletions)?;
    Some(UserCommitStats { commits, files_changed, insertions, deletions, lines_changed })
}

/// Counts one contribution into the table that groups the contributions `seen`.
fn credit(
    table: Vec<AuthorStats>,
    author: &String,
    files_changed: usize,
    insertions: usize,
    deletions: usize,
    Ghost(seen): Ghost<Seq<Contribution>>,
) -> (outcome: Option<Vec<AuthorStats>>)
    requires
        is_grouping(table.deep_view(), seen),
    ensures
        outcome matches Some(next) ==> is_grouping(
            next.deep_view(),
            seen.push(
                Contribution::of(
                    author@,
                    files_changed as nat,
                    insertions as nat,
                    deletions as nat,
                ),
            ),
        ),
        outcome is None ==> !tally_of(
            seen.push(
                Contribution::of(
                    author@,
                    files_changed as nat,
                    insertions as nat,
                    deletions as nat,
                ),
            ),
            author@,
        ).fits(),
{
    let ghost added = Contribution::of(
        author@,
        files_changed as nat,
        insertions as nat,
        deletions as nat,
    );
    let ghost all = seen.push(added);
    let ghost before = table.deep_view();
    proof {
        assert(all.drop_last() =~= seen);
        lemma_authors_of(seen);
    }
    let mut table = table;
    match row_of(&table, author) {
        Some(row) => {
            assert(before[row as int] == table@[row as int]@);
            assert(authors_of(seen)[row as int] == author@);
            assert(authors_of(seen).contains(author@));
            let stats = credited(table[row].stats, files_changed, insertions, deletions)?;
            table[row].stats = stats;
            proof {
                let after = table.deep_view();
                assert forall|k: int| 0 <= k < after.len() implies {
                    &&& (#[trigger] after[k]).author == authors_of(all)[k]
                    &&& after[k].stats.records(tally_of(all, after[k].author))
                } by {
                    if k != row {
                        assert(after[k] == before[k]);
                        assert(authors_of(seen)[k] != authors_of(seen)[row as int]);
                    }
                }
            }
            Some(table)
        },
        None => {
            proof {
                if authors_of(seen).contains(author@) {
                    let k = choose|k: int|
                        0 <= k < authors_of(seen).len() && authors_of(seen)[k] == author@;
                    assert(before[k] == table@[k]@);
                }
                lemma_absent_author(seen, author@);
            }
            let stats = credited(UserCommitStats::default(), files_changed, insertions, deletions)?;
            table.push(AuthorStats { author: author.clone(), stats });
            proof {
                let after = table.deep_view();
                assert forall|k: int| 0 <= k < after.len() implies {
                    &&& (#[trigger] after[k]).author == authors_of(all)[k]
                    &&& after[k].stats.records(tally_of(all, after[k].author))
                } by {
                    if k < before.len() {
                        assert(after[k] == before[k]);
                    }
                }
            }
            Some(table)
        },
    }
}

/// A table that groups contributions shows that the statistics of every author fit.
proof fn lemma_grouping_fits(table: Seq<AuthorTally>, contributions: Seq<Contribution>)
    requires
        is_grouping(table, contributions),
    ensures
        all_fit(contributions),
{
    assert forall|author: Seq<char>| (#[trigger] tally_of(contributions, author)).fits() by {
        if authors_of(contributions).contains(author) {
            let k = choose|k: int|
                0 <= k < authors_of(contributions).len() && authors_of(contributions)[k] == author;
            assert(table[k].author == author);
        } else {
            lemma_absent_author(contributions, author);
        }
    }
}

/// Groups `commits` by author and sums, for each author, the commits and the
/// totals that they carry: files changed, insertions and deletions, and the two
/// together as lines changed. The rows stand in the order in which the authors
/// first occur. Fails if a sum does not fit in `usize`.
pub fn group_commits(commits: &Vec<Commit>) -> (outcome: Result<Vec<AuthorStats>, StatsError>)
    ensures
        outcome is Ok <==> all_fit(by_totals(commits.deep_view())),
        outcome matches Ok(table) ==> is_grouping(
            table.deep_view(),
            by_totals(commits.deep_view()),
        ),
        outcome matches Err(e) ==> e == StatsError::CountOverflow,
{
    let ghost contributions = by_totals(commits.deep_view());
    let mut table: Vec<AuthorStats> = Vec::new();
    let mut i: usize = 0;
    assert(contributions.take(0) =~= Seq::<Contribution>::empty());
    while i < commits.len()
        invariant
            i <= commits@.len(),
            contributions == by_totals(commits.deep_view()),
            is_grouping(table.deep_view(), contributions.take(i as int)),
        decreases commits@.len() - i,
    {
        let commit = &commits[i];
        proof {
            assert(commits.deep_view()[i as int] == commit@);
            assert(contributions.take(i + 1) =~= contributions.take(i as int).push(
                contributions[i as int],
            ));
        }
        match credit(
            table,
            &commit.author,
            commit.files_changed,
            commit.insertions,
            commit.deletions,
            Ghost(contributions.take(i as int)),
        ) {
            Some(next) => {
                table = next;
            },
            None => {
                proof {
                    lemma_tally_grows(contributions, commit.author@, i + 1);
                }
                return Err(StatsError::CountOverflow);
            },
        }
        i += 1;
    }
    proof {
        assert(contributions.take(i as int) =~= contributions);
        lemma_grouping_fits(table.deep_view(), contributions);
    }
    Ok(table)
}

/// The lines inserted over those of `files` that `exclusions` do not list.
pub open spec fn inserted_outside(files: Seq<FileDelta>, exclusions: Option<Seq<Seq<Piece>>>) -> nat
    decreases files.len(),
{
    if files.len() == 0 {
        0
    } else {
        inserted_outside(files.drop_last(), exclusions) + if listed(
            exclusions,
            files.last().filename,
        ) {
            0
        } else {
            files.last().insertions
        }
    }
}

/// The lines deleted over those of `files` that `exclusions` do not list.
pub open spec fn deleted_outside(files: Seq<FileDelta>, exclusions: Option<Seq<Seq<Piece>>>) -> nat
    decreases files.len(),
{
    if files.len() == 0 {
        0
    } else {
        deleted_outside(files.drop_last(), exclusions) + if listed(
            exclusions,
            files.last().filename,
        ) {
            0
        } else {
            files.last().deletions
        }
    }
}

/// What each of `commits` contributes by the files that it lists: every file
/// counts as a changed file, and its lines count unless `exclusions` list it.
pub open spec fn by_files(commits: Seq<CommitRecord>, exclusions: Option<Seq<Seq<Piece>>>) -> Seq<
    Contribution,
> {
    commits.map_values(
        |c: CommitRecord|
            Contribution {
                author: c.author,
                files_changed: c.files.len(),
                insertions: inserted_outside(c.files, exclusions),
                deletions: deleted_outside(c.files, exclusions),
            },
    )
}

/// The lines of `files` that count under `exclusions`, if both sums fit in `usize`.
fn lines_outside(files: &Vec<FilesChanged>, exclusions: Option<&PathMatcher>) -> (lines: Option<
    (usize, usize),
>)
    ensures
        lines matches Some((insertions, deletions)) ==> insertions == inserted_outside(
            files.deep_view(),
            globs_of(exclusions),
        ) && deletions == deleted_outside(files.deep_view(), globs_of(exclusions)),
        lines is None ==> inserted_outside(files.deep_view(), globs_of(exclusions)) > usize::MAX
            || deleted_outside(files.deep_view(), globs_of(exclusions)) > usize::MAX,
{
    let ghost model = files.deep_view();
    let ghost globs = globs_of(exclusions);
    let mut insertions: Option<usize> = Some(0);
    let mut deletions: Option<usize> = Some(0);
    let mut i: usize = 0;
    while i < files.len()
        invariant
            i <= files@.len(),
            model == files.deep_view(),
            globs == globs_of(exclusions),
            match insertions {
                Some(sum) => sum == inserted_outside(model.take(i as int), globs),
                None => inserted_outside(model.take(i as int), globs) > usize::MAX,
            },
            match deletions {
                Some(sum) => sum == deleted_outside(model.take(i as int), globs),
                None => deleted_outside(model.take(i as int), globs) > usize::MAX,
            },
        decreases files@.len() - i,
    {
        let file = &files[i];
        proof {
            assert(model.take(i + 1).drop_last() =~= model.take(i as int));
            assert(model.take(i + 1).last() == file@);
        }
        if !is_listed(exclusions, file.filename.as_str()) {
            insertions =
            match insertions {
                Some(sum) => sum.checked_add(file.insertions),
                None => None,
            };
            deletions =
            match deletions {
                Some(sum) => sum.checked_add(file.deletions),
                None => None,
            };
        }
        i += 1;
    }
    assert(model.take(i as int) =~= model);
    match (insertions, deletions) {
        (Some(insertions), Some(deletions)) => Some((insertions, deletions)),
        _ => None,
    }
}

/// What is counted for an author holds each single contribution made under it.
pub proof fn lemma_tally_holds_each(contributions: Seq<Contribution>, at: int)
    requires
        0 <= at < contributions.len(),
    ensures
        contributions[at].tally().le(tally_of(contributions, contributions[at].author)),
{
    let author = contributions[at].author;
    lemma_tally_grows(contributions, author, at + 1);
    assert(contributions.take(at + 1).drop_last() =~= contributions.take(at));
    assert(contributions.take(at + 1).last() == contributions[at]);
}

/// Folds `commits` into per-author statistics, one row for each author
/// identity in the order of first occurrence. Every commit counts as one
/// commit of its author and every file that it lists as one changed file; the
/// lines of a file count unless `exclusions` list the file. Fails if a counter
/// does not fit in `usize`.
pub fn accumulate(commits: &Vec<Commit>, exclusions: Option<&PathMatcher>) -> (outcome: Result<
    Vec<AuthorStats>,
    StatsError,
>)
    ensures
        outcome is Ok <==> all_fit(by_files(commits.deep_view(), globs_of(exclusions))),
        outcome matches Ok(table) ==> is_grouping(
            table.deep_view(),
            by_files(commits.deep_view(), globs_of(exclusions)),
        ),
        outcome matches Err(e) ==> e == StatsError::CountOverflow,
{
    let ghost contributions = by_files(commits.deep_view(), globs_of(exclusions));
    let mut table: Vec<AuthorStats> = Vec::new();
    let mut i: usize = 0;
    assert(contributions.take(0) =~= Seq::<Contribution>::empty());
    while i < commits.len()
        invariant
            i <= commits@.len(),
            contributions == by_files(commits.deep_view(), globs_of(exclusions)),
            is_grouping(table.deep_view(), contributions.take(i as int)),
        decreases commits@.len() - i,
    {
        let commit = &commits[i];
        proof {
            assert(commits.deep_view()[i as int] == commit@);
            assert(contributions.take(i + 1) =~= contributions.take(i as int).push(
                contributions[i as int],
            ));
        }
        let (insertions, deletions) = match lines_outside(&commit.files_changed_list, exclusions) {
            Some(lines) => lines,
            None => {
                proof {
                    lemma_tally_holds_each(contributions, i as int);
                }
                return Err(StatsError::CountOverflow);
            },
        };
        match credit(
            table,
            &commit.author,
            commit.files_changed_list.len(),
            insertions,
            deletions,
            Ghost(contributions.take(i as int)),
        ) {
            Some(next) => {
                table = next;
            },
            None => {
                proof {
                    lemma_tally_grows(contributions, commit.author@, i + 1);
                }
                return Err(StatsError::CountOverflow);
            },
        }
        i += 1;
    }
    proof {
        assert(contributions.take(i as int) =~= contributions);
        lemma_grouping_fits(table.deep_view(), contributions);
    }
    Ok(table)
}

/// Without exclusions the lines counted over files are all their lines.
pub proof fn lemma_nothing_excluded(files: Seq<FileDelta>)
    ensures
        inserted_outside(files, None) == inserted(files),
        deleted_outside(files, None) == deleted(files),
    decreases files.len(),
{
    if files.len() > 0 {
        lemma_nothing_excluded(files.drop_last());
    }
}

/// Exclusions take lines away and nothing else.
pub proof fn lemma_excluded_lines(files: Seq<FileDelta>, exclusions: Option<Seq<Seq<Piece>>>)
    ensures
        inserted_outside(files, exclusions) <= inserted(files),
        deleted_outside(files, exclusions) <= deleted(files),
    decreases files.len(),
{
    if files.len() > 0 {
        lemma_excluded_lines(files.drop_last(), exclusions);
    }
}

/// For commits whose totals are those of their files, grouping by the totals
/// and accumulating over the files without exclusions count the same.
pub proof fn lemma_totals_are_files(commits: Seq<CommitRecord>)
    requires
        forall|k: int| 0 <= k < commits.len() ==> (#[trigger] commits[k]).consistent(),
    ensures
        by_files(commits, None) == by_totals(commits),
{
    assert forall|k: int| 0 <= k < commits.len() implies by_files(commits, None)[k] == by_totals(
        commits,
    )[k] by {
        assert(commits[k].consistent());
        lemma_nothing_excluded(commits[k].files);
    }
    assert(by_files(commits, None) =~= by_totals(commits));
}

/// Exclusion patterns lower the line counts of an author and never the number
/// of commits or of files changed; nor do they change who is listed.
pub proof fn lemma_exclusions_spare_files(
    commits: Seq<CommitRecord>,
    exclusions: Option<Seq<Seq<Piece>>>,
    author: Seq<char>,
)
    ensures
        tally_of(by_files(commits, exclusions), author).commits == tally_of(
            by_files(commits, None),
            author,
        ).commits,
        tally_of(by_files(commits, exclusions), author).files_changed == tally_of(
            by_files(commits, None),
            author,
        ).files_changed,
        tally_of(by_files(commits, exclusions), author).insertions <= tally_of(
            by_files(commits, None),
            author,
        ).insertions,
        tally_of(by_files(commits, exclusions), author).deletions <= tally_of(
            by_files(commits, None),
            author,
        ).deletions,
        authors_of(by_files(commits, exclusions)) == authors_of(by_files(commits, None)),
    decreases commits.len(),
{
    if commits.len() > 0 {
        let shorter = commits.drop_last();
        lemma_exclusions_spare_files(shorter, exclusions, author);
        assert(by_files(commits, exclusions).drop_last() =~= by_files(shorter, exclusions));
        assert(by_files(commits, None).drop_last() =~= by_files(shorter, None));
        lemma_excluded_lines(commits.last().files, exclusions);
        lemma_nothing_excluded(commits.last().files);
    }
}

/// Commits with the same author identity are counted in one row: no identity
/// stands in two rows, and every commit's identity has its row.
pub proof fn lemma_one_row_per_identity(table: Seq<AuthorTally>, contributions: Seq<Contribution>)
    requires
        is_grouping(table, contributions),
    ensures
        forall|a: int, b: int| 0 <= a < b < table.len() ==> table[a].author != table[b].author,
        forall|k: int|
            0 <= k < contributions.len() ==> exists|row: int|
                0 <= row < table.len() && (#[trigger] table[row]).author == (
                #[trigger] contributions[k]).author,
{
    lemma_authors_of(contributions);
    let authors = authors_of(contributions);
    assert forall|k: int| 0 <= k < contributions.len() implies exists|row: int|
        0 <= row < table.len() && (#[trigger] table[row]).author == (
        #[trigger] contributions[k]).author by {
        let author = contributions[k].author;
        assert(authors.contains(author));
        let row = choose|row: int| 0 <= row < authors.len() && authors[row] == author;
        assert(table[row].author == author);
    }
}

/// The contributions fix their grouping: two tables that group the same
/// contributions are the same table, so that a second run over unchanged
/// input gives the result of the first.
pub proof fn lemma_grouping_is_unique(
    first: Seq<AuthorTally>,
    second: Seq<AuthorTally>,
    contributions: Seq<Contribution>,
)
    requires
        is_grouping(first, contributions),
        is_grouping(second, contributions),
    ensures
        first == second,
{
    assert forall|k: int| 0 <= k < first.len() implies first[k] == second[k] by {
        assert(first[k].author == second[k].author);
        assert(first[k].stats == second[k].stats);
    }
    assert(first =~= second);
}

} // verus!
