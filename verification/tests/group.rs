use git_statistics::glob::PathMatcher;
use git_statistics::group::{accumulate, group_commits};
use git_statistics::stats::{Commit, FilesChanged};
use git_statistics::tally::{AuthorStats, StatsError, UserCommitStats};

fn file(insertions: usize, deletions: usize, filename: &str) -> FilesChanged {
    FilesChanged { insertions, deletions, filename: filename.to_string() }
}

fn commit(author: &str, files: Vec<FilesChanged>) -> Commit {
    Commit::new(author.to_string(), files).unwrap()
}

fn row(
    author: &str,
    commits: usize,
    files_changed: usize,
    insertions: usize,
    deletions: usize,
) -> AuthorStats {
    AuthorStats {
        author: author.to_string(),
        stats: UserCommitStats {
            commits,
            files_changed,
            insertions,
            deletions,
            lines_changed: insertions + deletions,
        },
    }
}

fn exclusions(list: &[&str]) -> PathMatcher {
    PathMatcher::build(&list.iter().map(|p| p.to_string()).collect())
}

#[test]
fn default_statistics_are_zero() {
    let zero = UserCommitStats::default();
    assert_eq!(
        zero,
        UserCommitStats { commits: 0, files_changed: 0, insertions: 0, deletions: 0, lines_changed: 0 }
    );
}

#[test]
fn no_commits_group_to_an_empty_table() {
    assert_eq!(group_commits(&vec![]), Ok(vec![]));
    assert_eq!(accumulate(&vec![], None), Ok(vec![]));
}

#[test]
fn commits_of_one_author_are_summed() {
    let commits = vec![
        commit("alice", vec![file(10, 2, "a"), file(1, 1, "b")]),
        commit("alice", vec![file(5, 0, "c"), file(0, 7, "d"), file(2, 2, "e")]),
        commit("alice", vec![]),
    ];
    assert_eq!(group_commits(&commits), Ok(vec![row("alice", 3, 5, 18, 12)]));
    assert_eq!(accumulate(&commits, None), Ok(vec![row("alice", 3, 5, 18, 12)]));
}

#[test]
fn authors_stand_in_the_order_of_first_occurrence() {
    let commits = vec![
        commit("carol", vec![file(1, 0, "a")]),
        commit("alice", vec![file(2, 0, "a")]),
        commit("carol", vec![file(4, 1, "b")]),
        commit("bob", vec![]),
        commit("alice", vec![file(8, 2, "a"), file(16, 4, "c")]),
    ];
    let expected =
        vec![row("carol", 2, 2, 5, 1), row("alice", 2, 3, 26, 6), row("bob", 1, 0, 0, 0)];
    assert_eq!(group_commits(&commits), Ok(expected));
}

#[test]
fn grouping_reads_the_totals_of_a_commit() {
    let commits = vec![Commit {
        author: "a".to_string(),
        files_changed_list: vec![file(1, 1, "x")],
        insertions: 40,
        deletions: 2,
        files_changed: 9,
    }];
    assert_eq!(group_commits(&commits), Ok(vec![row("a", 1, 9, 40, 2)]));
    assert_eq!(accumulate(&commits, None), Ok(vec![row("a", 1, 1, 1, 1)]));
}

#[test]
fn excluded_files_count_as_files_but_not_with_their_lines() {
    let commits = vec![commit("alice", vec![file(10, 2, "src/lib.rs"), file(500, 0, "assets/logo.png")])];
    let matcher = exclusions(&["assets/*"]);
    assert_eq!(accumulate(&commits, Some(&matcher)), Ok(vec![row("alice", 1, 2, 10, 2)]));
    assert_eq!(accumulate(&commits, None), Ok(vec![row("alice", 1, 2, 510, 2)]));
}

#[test]
fn exclusions_never_change_commits_or_files() {
    let commits = vec![
        commit("alice", vec![file(10, 2, "src/lib.rs"), file(7, 7, "docs/a.md")]),
        commit("bob", vec![file(3, 3, "docs/b.md")]),
        commit("alice", vec![file(1, 0, "docs/deep/c.md")]),
    ];
    let plain = accumulate(&commits, None).unwrap();
    for list in [vec![], vec!["docs/*"], vec!["**"], vec!["docs/**", "src/*"], vec!["["]] {
        let matcher = exclusions(&list);
        let cut = accumulate(&commits, Some(&matcher)).unwrap();
        assert_eq!(cut.len(), plain.len());
        for (with, without) in cut.iter().zip(plain.iter()) {
            assert_eq!(with.author, without.author);
            assert_eq!(with.stats.commits, without.stats.commits);
            assert_eq!(with.stats.files_changed, without.stats.files_changed);
            assert!(with.stats.insertions <= without.stats.insertions);
            assert!(with.stats.deletions <= without.stats.deletions);
        }
    }
    let matcher = exclusions(&["docs/*"]);
    assert_eq!(
        accumulate(&commits, Some(&matcher)),
        Ok(vec![row("alice", 2, 3, 11, 2), row("bob", 1, 1, 0, 0)])
    );
    let everything = exclusions(&["**"]);
    assert_eq!(
        accumulate(&commits, Some(&everything)),
        Ok(vec![row("alice", 2, 3, 0, 0), row("bob", 1, 1, 0, 0)])
    );
}

#[test]
fn a_renamed_file_counts_twice_with_equal_lines() {
    let commits = vec![commit("alice", vec![file(0, 120, "old/name.rs"), file(120, 0, "new/name.rs")])];
    assert_eq!(accumulate(&commits, None), Ok(vec![row("alice", 1, 2, 120, 120)]));
    let matcher = exclusions(&["new/*"]);
    assert_eq!(accumulate(&commits, Some(&matcher)), Ok(vec![row("alice", 1, 2, 0, 120)]));
}

#[test]
fn sums_of_an_author_must_fit() {
    let commits = vec![
        commit("a", vec![file(usize::MAX, 0, "x")]),
        commit("b", vec![file(1, 0, "y")]),
        commit("a", vec![file(1, 0, "z")]),
    ];
    assert_eq!(group_commits(&commits), Err(StatsError::CountOverflow));
    assert_eq!(accumulate(&commits, None), Err(StatsError::CountOverflow));
    let matcher = exclusions(&["z"]);
    assert_eq!(
        accumulate(&commits, Some(&matcher)),
        Ok(vec![row("a", 2, 2, usize::MAX, 0), row("b", 1, 1, 1, 0)])
    );
}

#[test]
fn lines_changed_of_an_author_must_fit() {
    let commits = vec![commit("a", vec![file(usize::MAX, 0, "x")]), commit("a", vec![file(0, 1, "y")])];
    assert_eq!(group_commits(&commits), Err(StatsError::CountOverflow));
    let each = vec![commit("a", vec![file(usize::MAX, 0, "x")]), commit("b", vec![file(0, 1, "y")])];
    assert_eq!(
        group_commits(&each),
        Ok(vec![row("a", 1, 1, usize::MAX, 0), row("b", 1, 1, 0, 1)])
    );
    let files = vec![Commit {
        author: "a".to_string(),
        files_changed_list: vec![],
        insertions: 0,
        deletions: 0,
        files_changed: usize::MAX,
    }, Commit {
        author: "a".to_string(),
        files_changed_list: vec![],
        insertions: 0,
        deletions: 0,
        files_changed: 1,
    }];
    assert_eq!(group_commits(&files), Err(StatsError::CountOverflow));
    assert_eq!(accumulate(&files, None), Ok(vec![row("a", 2, 0, 0, 0)]));
}

#[test]
fn grouping_twice_gives_the_same_table() {
    let commits = vec![
        commit("carol", vec![file(1, 0, "a")]),
        commit("alice", vec![file(2, 0, "a")]),
        commit("carol", vec![file(4, 1, "b")]),
    ];
    assert_eq!(group_commits(&commits), group_commits(&commits));
    let matcher = exclusions(&["a"]);
    assert_eq!(accumulate(&commits, Some(&matcher)), accumulate(&commits, Some(&matcher)));
}
