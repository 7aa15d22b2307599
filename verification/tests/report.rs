use git_statistics::report::{decimal_width, key_of, rank, totals, SortBy};
use git_statistics::tally::{AuthorStats, StatsError, UserCommitStats};

fn row(
    author: &str,
    commits: usize,
    files_changed: usize,
    insertions: usize,
    deletions: usize,
) -> AuthorStats {
    AuthorStats {
        author: author.to_string(),
        stats: UserCommitStats {
            commits,
            files_changed,
            insertions,
            deletions,
            lines_changed: insertions + deletions,
        },
    }
}

fn authors(table: &[AuthorStats]) -> Vec<&str> {
    table.iter().map(|row| row.author.as_str()).collect()
}

fn table() -> Vec<AuthorStats> {
    vec![
        row("alice", 3, 9, 100, 5),
        row("bob", 7, 2, 10, 60),
        row("carol", 3, 4, 50, 50),
        row("dave", 1, 9, 0, 200),
    ]
}

#[test]
fn sort_keys_are_the_columns() {
    let stats = UserCommitStats {
        commits: 1,
        files_changed: 2,
        insertions: 3,
        deletions: 4,
        lines_changed: 99,
    };
    assert_eq!(key_of(&stats, SortBy::Commits), 1);
    assert_eq!(key_of(&stats, SortBy::FilesChanged), 2);
    assert_eq!(key_of(&stats, SortBy::Insertions), 3);
    assert_eq!(key_of(&stats, SortBy::Deletions), 4);
    assert_eq!(key_of(&stats, SortBy::LinesChanged), 7);
}

#[test]
fn key_of_lines_changed_is_wide_enough() {
    let stats = UserCommitStats {
        commits: 0,
        files_changed: 0,
        insertions: usize::MAX,
        deletions: usize::MAX,
        lines_changed: 0,
    };
    assert_eq!(key_of(&stats, SortBy::LinesChanged), 2 * (usize::MAX as u128));
}

#[test]
fn rank_orders_by_each_column() {
    let t = table();
    assert_eq!(authors(&rank(&t, SortBy::Commits, None)), ["bob", "carol", "alice", "dave"]);
    assert_eq!(authors(&rank(&t, SortBy::FilesChanged, None)), ["dave", "alice", "carol", "bob"]);
    assert_eq!(authors(&rank(&t, SortBy::Insertions, None)), ["alice", "carol", "bob", "dave"]);
    assert_eq!(authors(&rank(&t, SortBy::Deletions, None)), ["dave", "bob", "carol", "alice"]);
    assert_eq!(authors(&rank(&t, SortBy::LinesChanged, None)), ["dave", "alice", "carol", "bob"]);
}

#[test]
fn rank_keeps_the_rows_whole() {
    let t = table();
    let ranked = rank(&t, SortBy::Commits, None);
    assert_eq!(ranked, vec![t[1].clone(), t[2].clone(), t[0].clone(), t[3].clone()]);
}

#[test]
fn rank_puts_the_later_of_equal_rows_first() {
    let t = vec![row("a", 1, 0, 0, 0), row("b", 1, 0, 0, 0), row("c", 2, 0, 0, 0), row("d", 1, 0, 0, 0)];
    assert_eq!(authors(&rank(&t, SortBy::Commits, None)), ["c", "d", "b", "a"]);
    assert_eq!(authors(&rank(&t, SortBy::Insertions, None)), ["d", "c", "b", "a"]);
}

#[test]
fn rank_agrees_with_a_stable_sort_reversed() {
    let t = vec![
        row("a", 5, 1, 7, 0),
        row("b", 2, 1, 7, 3),
        row("c", 5, 3, 0, 3),
        row("d", 9, 3, 1, 1),
        row("e", 2, 1, 1, 0),
        row("f", 5, 0, 7, 9),
    ];
    for by in
        [SortBy::Commits, SortBy::FilesChanged, SortBy::Insertions, SortBy::Deletions, SortBy::LinesChanged]
    {
        let mut expected = t.clone();
        expected.sort_by_key(|row| key_of(&row.stats, by));
        expected.reverse();
        assert_eq!(rank(&t, by, None), expected);
    }
}

#[test]
fn rank_cuts_after_max_count() {
    let t = table();
    assert_eq!(authors(&rank(&t, SortBy::Commits, Some(2))), ["bob", "carol"]);
    assert_eq!(authors(&rank(&t, SortBy::Commits, Some(0))), Vec::<&str>::new());
    assert_eq!(authors(&rank(&t, SortBy::Commits, Some(4))), ["bob", "carol", "alice", "dave"]);
    assert_eq!(authors(&rank(&t, SortBy::Commits, Some(100))), ["bob", "carol", "alice", "dave"]);
    assert_eq!(rank(&vec![], SortBy::Commits, Some(3)), vec![]);
}

#[test]
fn totals_sum_every_column() {
    assert_eq!(
        totals(&table()),
        Ok(UserCommitStats {
            commits: 14,
            files_changed: 24,
            insertions: 160,
            deletions: 315,
            lines_changed: 475,
        })
    );
    assert_eq!(totals(&vec![]), Ok(UserCommitStats::default()));
}

#[test]
fn totals_take_lines_changed_from_the_lines() {
    let odd = AuthorStats {
        author: "a".to_string(),
        stats: UserCommitStats {
            commits: 1,
            files_changed: 1,
            insertions: 2,
            deletions: 3,
            lines_changed: 1000,
        },
    };
    assert_eq!(totals(&vec![odd]).map(|sum| sum.lines_changed), Ok(5));
}

#[test]
fn totals_must_fit() {
    let big = vec![row("a", 1, 1, usize::MAX - 1, 0), row("b", 1, 1, 0, 2)];
    assert_eq!(totals(&big), Err(StatsError::CountOverflow));
    let fits = vec![row("a", 1, 1, usize::MAX - 1, 0), row("b", 1, 1, 0, 1)];
    assert_eq!(totals(&fits).map(|sum| sum.lines_changed), Ok(usize::MAX));
    let commits = vec![row("a", usize::MAX, 0, 0, 0), row("b", 1, 0, 0, 0)];
    assert_eq!(totals(&commits), Err(StatsError::CountOverflow));
    let files = vec![row("a", 0, usize::MAX, 0, 0), row("b", 0, 1, 0, 0)];
    assert_eq!(totals(&files), Err(StatsError::CountOverflow));
}

#[test]
fn decimal_width_counts_digits() {
    assert_eq!(decimal_width(0), 1);
    assert_eq!(decimal_width(9), 1);
    assert_eq!(decimal_width(10), 2);
    assert_eq!(decimal_width(99), 2);
    assert_eq!(decimal_width(100), 3);
    assert_eq!(decimal_width(2147483647), 10);
    assert_eq!(decimal_width(usize::MAX), usize::MAX.to_string().len());
}
