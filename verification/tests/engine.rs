use git_statistics::engine::{
    aggregate, is_merge, list_commits, resolve_author, revisions_of, select_included,
    split_pathspec, walk, History, Pathspec, Revision,
};
use git_statistics::stats::parse_git_log;
use git_statistics::glob::PathMatcher;
use git_statistics::stats::{Commit, FilesChanged};
use git_statistics::tally::{AuthorStats, StatsError, UserCommitStats};

fn file(insertions: usize, deletions: usize, filename: &str) -> FilesChanged {
    FilesChanged { insertions, deletions, filename: filename.to_string() }
}

fn revision(name: &str, email: &str, parent_count: usize, diff: Option<Vec<FilesChanged>>) -> Revision {
    Revision { name: name.to_string(), email: email.to_string(), parent_count, diff }
}

fn row(
    author: &str,
    commits: usize,
    files_changed: usize,
    insertions: usize,
    deletions: usize,
) -> AuthorStats {
    AuthorStats {
        author: author.to_string(),
        stats: UserCommitStats {
            commits,
            files_changed,
            insertions,
            deletions,
            lines_changed: insertions + deletions,
        },
    }
}

fn strings(list: &[&str]) -> Vec<String> {
    list.iter().map(|p| p.to_string()).collect()
}

#[test]
fn author_is_name_then_email_then_unknown() {
    assert_eq!(resolve_author("Alice", "alice@example.org"), "Alice");
    assert_eq!(resolve_author("Alice", ""), "Alice");
    assert_eq!(resolve_author("", "alice@example.org"), "alice@example.org");
    assert_eq!(resolve_author("", ""), "unknown");
    assert_eq!(resolve_author(" ", "x"), " ");
}

#[test]
fn merges_have_more_than_one_parent() {
    assert!(!is_merge(0));
    assert!(!is_merge(1));
    assert!(is_merge(2));
    assert!(is_merge(8));
}

#[test]
fn outside_a_repository_nothing_is_answered() {
    assert_eq!(aggregate(&History::NotARepository, None, None), Err(StatsError::RepositoryNotFound));
    assert_eq!(list_commits(&History::NotARepository, None), Err(StatsError::RepositoryNotFound));
    let everything = strings(&["**"]);
    assert_eq!(
        aggregate(&History::NotARepository, Some(&everything), Some(&everything)),
        Err(StatsError::RepositoryNotFound)
    );
}

#[test]
fn unreadable_history_is_reported_as_no_commits() {
    assert_eq!(aggregate(&History::Unreadable, None, None), Err(StatsError::NoCommitsFound));
    assert_eq!(list_commits(&History::Unreadable, None), Err(StatsError::NoCommitsFound));
}

#[test]
fn history_without_commits_is_reported() {
    assert_eq!(aggregate(&History::Walked(vec![]), None, None), Err(StatsError::NoCommitsFound));
    assert_eq!(list_commits(&History::Walked(vec![]), None), Ok(vec![]));
    let merges = History::Walked(vec![
        revision("bob", "", 2, Some(vec![file(1, 1, "a")])),
        revision("carol", "", 3, None),
    ]);
    assert_eq!(aggregate(&merges, None, None), Err(StatsError::NoCommitsFound));
    assert_eq!(list_commits(&merges, None), Ok(vec![]));
}

#[test]
fn merge_commits_are_not_counted() {
    let branch = History::Walked(vec![
        revision("bob", "bob@example.org", 2, Some(vec![file(30, 30, "merged.rs")])),
        revision("alice", "alice@example.org", 1, Some(vec![file(4, 1, "b.rs")])),
    ]);
    assert_eq!(aggregate(&branch, None, None), Ok(vec![row("alice", 1, 1, 4, 1)]));
    let history = History::Walked(vec![
        revision("bob", "bob@example.org", 2, Some(vec![file(30, 30, "merged.rs")])),
        revision("alice", "alice@example.org", 1, Some(vec![file(4, 1, "b.rs")])),
        revision("", "", 0, Some(vec![file(9, 0, "a.rs")])),
    ]);
    let rows = aggregate(&history, None, None).unwrap();
    assert_eq!(rows, vec![row("alice", 1, 1, 4, 1), row("unknown", 1, 1, 9, 0)]);
    assert!(rows.iter().all(|row| row.author != "bob"));
    let same_author = History::Walked(vec![
        revision("alice", "", 2, Some(vec![file(30, 30, "merged.rs")])),
        revision("alice", "", 1, Some(vec![file(4, 1, "b.rs")])),
    ]);
    assert_eq!(aggregate(&same_author, None, None), Ok(vec![row("alice", 1, 1, 4, 1)]));
}

#[test]
fn a_merge_more_or_less_changes_nothing() {
    let merge = || revision("bob", "", 2, Some(vec![file(30, 30, "merged.rs")]));
    let work = || {
        vec![
            revision("alice", "", 1, Some(vec![file(4, 1, "b.rs")])),
            revision("carol", "", 1, Some(vec![file(2, 2, "c.rs")])),
        ]
    };
    let plain = aggregate(&History::Walked(work()), None, None);
    for at in 0..=2 {
        let mut revisions = work();
        revisions.insert(at, merge());
        assert_eq!(aggregate(&History::Walked(revisions), None, None), plain);
    }
}

#[test]
fn a_failed_diff_still_counts_the_commit() {
    let history = History::Walked(vec![
        revision("alice", "", 1, None),
        revision("alice", "", 1, Some(vec![file(4, 1, "b.rs")])),
        revision("bob", "", 1, None),
    ]);
    assert_eq!(
        aggregate(&history, None, None),
        Ok(vec![row("alice", 2, 1, 4, 1), row("bob", 1, 0, 0, 0)])
    );
    let commits = list_commits(&history, None).unwrap();
    assert_eq!(commits[0], Commit::new("alice".to_string(), vec![]).unwrap());
    assert_eq!(commits[2], Commit::new("bob".to_string(), vec![]).unwrap());
}

#[test]
fn commits_with_one_identity_share_a_row() {
    let history = History::Walked(vec![
        revision("", "dev@example.org", 1, Some(vec![file(1, 0, "a")])),
        revision("dev@example.org", "other@example.org", 1, Some(vec![file(2, 0, "b")])),
        revision("", "", 1, Some(vec![file(4, 0, "c")])),
        revision("unknown", "someone@example.org", 1, Some(vec![file(8, 0, "d")])),
        revision("", "dev@example.org", 0, Some(vec![file(16, 0, "e")])),
    ]);
    assert_eq!(
        aggregate(&history, None, None),
        Ok(vec![row("dev@example.org", 3, 3, 19, 0), row("unknown", 2, 2, 12, 0)])
    );
}

#[test]
fn exclusion_keeps_the_file_and_drops_its_lines() {
    let history = History::Walked(vec![revision(
        "alice",
        "",
        1,
        Some(vec![file(10, 2, "src/lib.rs"), file(500, 0, "assets/logo.png")]),
    )]);
    let excluded = strings(&["assets/*"]);
    let rows = aggregate(&history, None, Some(&excluded)).unwrap();
    assert_eq!(rows, vec![row("alice", 1, 2, 10, 2)]);
    assert_ne!(rows[0].stats.files_changed, 1);
    let with_malformed = strings(&["[", "assets/*", "[z-a]"]);
    assert_eq!(aggregate(&history, None, Some(&with_malformed)), Ok(vec![row("alice", 1, 2, 10, 2)]));
    let only_malformed = strings(&["["]);
    assert_eq!(aggregate(&history, None, Some(&only_malformed)), Ok(vec![row("alice", 1, 2, 510, 2)]));
    assert_eq!(aggregate(&history, None, Some(&vec![])), Ok(vec![row("alice", 1, 2, 510, 2)]));
}

#[test]
fn files_outside_the_pathspec_are_not_seen() {
    let history = History::Walked(vec![
        revision("alice", "", 1, Some(vec![file(10, 2, "src/lib.rs"), file(500, 0, "assets/logo.png")])),
        revision("bob", "", 1, Some(vec![file(7, 7, "docs/guide.md")])),
    ]);
    let scope = strings(&["src/*", "assets/*"]);
    assert_eq!(
        aggregate(&history, Some(&scope), None),
        Ok(vec![row("alice", 1, 2, 510, 2), row("bob", 1, 0, 0, 0)])
    );
    let excluded = strings(&["assets/*", "docs/*"]);
    assert_eq!(
        aggregate(&history, Some(&scope), Some(&excluded)),
        Ok(vec![row("alice", 1, 2, 10, 2), row("bob", 1, 0, 0, 0)])
    );
    let narrow = strings(&["src/*"]);
    assert_eq!(
        aggregate(&history, Some(&narrow), Some(&excluded)),
        Ok(vec![row("alice", 1, 1, 10, 2), row("bob", 1, 0, 0, 0)])
    );
    let commits = list_commits(&history, Some(&narrow)).unwrap();
    assert_eq!(commits[0], Commit::new("alice".to_string(), vec![file(10, 2, "src/lib.rs")]).unwrap());
    assert_eq!(commits[1], Commit::new("bob".to_string(), vec![]).unwrap());
}

#[test]
fn a_pathspec_without_a_valid_pattern_admits_nothing() {
    let history = History::Walked(vec![revision("alice", "", 1, Some(vec![file(10, 2, "src/lib.rs")]))]);
    assert_eq!(aggregate(&history, Some(&vec![]), None), Ok(vec![row("alice", 1, 0, 0, 0)]));
    assert_eq!(aggregate(&history, Some(&strings(&["["])), None), Ok(vec![row("alice", 1, 0, 0, 0)]));
}

#[test]
fn select_included_keeps_order() {
    let files = vec![file(1, 0, "a.rs"), file(2, 0, "b.md"), file(3, 0, "c.rs"), file(4, 0, "d/e.rs")];
    let matcher = PathMatcher::build(&strings(&["*.rs"]));
    assert_eq!(select_included(&files, Some(&matcher)), vec![file(1, 0, "a.rs"), file(3, 0, "c.rs")]);
    assert_eq!(select_included(&files, None), files);
}

#[test]
fn walk_lists_commits_with_totals() {
    let revisions = vec![
        revision("alice", "", 1, Some(vec![file(10, 2, "src/lib.rs"), file(5, 5, "src/main.rs")])),
        revision("bob", "", 2, Some(vec![file(1, 1, "x")])),
        revision("", "carol@example.org", 0, Some(vec![file(7, 0, "README.md")])),
    ];
    let commits = walk(&revisions, None).unwrap();
    assert_eq!(commits.len(), 2);
    assert_eq!(commits[0].author, "alice");
    assert_eq!(commits[0].insertions, 15);
    assert_eq!(commits[0].deletions, 7);
    assert_eq!(commits[0].files_changed, 2);
    assert_eq!(commits[1].author, "carol@example.org");
    assert_eq!(commits[1].files_changed_list, vec![file(7, 0, "README.md")]);
}

#[test]
fn totals_of_a_commit_that_do_not_fit_are_reported() {
    let revisions = vec![
        revision("alice", "", 1, Some(vec![file(1, 0, "a")])),
        revision("bob", "", 1, Some(vec![file(usize::MAX, 0, "big"), file(1, 0, "small")])),
    ];
    assert_eq!(walk(&revisions, None), Err(StatsError::CountOverflow));
    let history = History::Walked(revisions);
    assert_eq!(list_commits(&history, None), Err(StatsError::CountOverflow));
    assert_eq!(aggregate(&history, None, None), Err(StatsError::CountOverflow));
    let scope = strings(&["[a-z]", "big"]);
    assert_eq!(
        aggregate(&history, Some(&scope), None),
        Ok(vec![row("alice", 1, 1, 1, 0), row("bob", 1, 1, usize::MAX, 0)])
    );
}

#[test]
fn statistics_that_do_not_fit_are_reported() {
    let history = History::Walked(vec![
        revision("alice", "", 1, Some(vec![file(usize::MAX, 0, "a")])),
        revision("alice", "", 1, Some(vec![file(0, 1, "b")])),
    ]);
    assert_eq!(list_commits(&history, None).map(|commits| commits.len()), Ok(2));
    assert_eq!(aggregate(&history, None, None), Err(StatsError::CountOverflow));
    assert_eq!(
        aggregate(&history, None, Some(&strings(&["b"]))),
        Ok(vec![row("alice", 2, 2, usize::MAX, 0)])
    );
}

#[test]
fn a_second_run_gives_the_same_answer() {
    let build = || {
        History::Walked(vec![
            revision("alice", "", 1, Some(vec![file(10, 2, "src/lib.rs"), file(500, 0, "assets/logo.png")])),
            revision("bob", "", 2, None),
            revision("", "carol@example.org", 1, Some(vec![file(7, 7, "docs/guide.md")])),
            revision("alice", "", 0, Some(vec![file(1, 0, "src/main.rs")])),
        ])
    };
    let scope = strings(&["src/*", "docs/*"]);
    let excluded = strings(&["docs/*"]);
    let first = aggregate(&build(), Some(&scope), Some(&excluded));
    let second = aggregate(&build(), Some(&scope), Some(&excluded));
    assert_eq!(first, second);
    assert_eq!(first, Ok(vec![row("alice", 2, 2, 11, 2), row("carol@example.org", 1, 1, 0, 0)]));
}

#[test]
fn combined_pathspec_is_split_at_the_mark() {
    let split = split_pathspec(&strings(&["src/*", ":!src/assets/*", "*.md", ":!", ":!:!x", "!y", ":", ""]));
    assert_eq!(
        split,
        Pathspec {
            scope: Some(strings(&["src/*", "*.md", "!y", ":", ""])),
            excluded: strings(&["src/assets/*", "", ":!x"]),
        }
    );
}

#[test]
fn pathspec_without_inclusions_has_no_scope() {
    assert_eq!(split_pathspec(&vec![]), Pathspec { scope: None, excluded: vec![] });
    assert_eq!(
        split_pathspec(&strings(&[":!assets/*"])),
        Pathspec { scope: None, excluded: strings(&["assets/*"]) }
    );
    let history = History::Walked(vec![revision(
        "alice",
        "",
        1,
        Some(vec![file(10, 2, "src/lib.rs"), file(500, 0, "assets/logo.png")]),
    )]);
    let split = split_pathspec(&strings(&[":!assets/*"]));
    assert_eq!(
        aggregate(&history, split.scope.as_ref(), Some(&split.excluded)),
        Ok(vec![row("alice", 1, 2, 10, 2)])
    );
}

#[test]
fn conditions_are_reported_in_plain_words() {
    assert_eq!(
        StatsError::RepositoryNotFound.message(),
        "fatal: not a git repository (or any of the parent directories): .git"
    );
    assert_eq!(StatsError::NoCommitsFound.message(), "no commits found");
    assert_eq!(StatsError::CountOverflow.message(), "fatal: a count exceeds the machine word");
}

#[test]
fn commits_of_a_log_stand_as_revisions() {
    let commits = vec![
        Commit::new("alice".to_string(), vec![file(10, 2, "src/lib.rs"), file(1, 0, "a.md")]).unwrap(),
        Commit::new("unknown".to_string(), vec![]).unwrap(),
    ];
    assert_eq!(
        revisions_of(&commits),
        vec![
            revision("alice", "", 1, Some(vec![file(10, 2, "src/lib.rs"), file(1, 0, "a.md")])),
            revision("unknown", "", 1, Some(vec![])),
        ]
    );
    assert_eq!(revisions_of(&vec![]), vec![]);
    assert_eq!(walk(&revisions_of(&commits), None), Ok(commits));
}

#[test]
fn the_queries_can_be_put_to_a_log() {
    let log = "author alice\ta@example.org\n\n10\t2\tsrc/lib.rs\n500\t0\tassets/logo.png\n\
               \nauthor \tbob@example.org\n\n7\t7\tdocs/guide.md\n\
               \nauthor \t\n\n1\t1\tsrc/main.rs\n\
               \nauthor \tbob@example.org\n";
    let history = History::Walked(revisions_of(&parse_git_log(log).unwrap()));
    let split = split_pathspec(&strings(&["src/*", "assets/*", ":!assets/*"]));
    assert_eq!(
        aggregate(&history, split.scope.as_ref(), Some(&split.excluded)),
        Ok(vec![
            row("alice", 1, 2, 10, 2),
            row("bob@example.org", 2, 0, 0, 0),
            row("unknown", 1, 1, 1, 1)
        ])
    );
    assert_eq!(
        aggregate(&history, None, None),
        Ok(vec![
            row("alice", 1, 2, 510, 2),
            row("bob@example.org", 2, 1, 7, 7),
            row("unknown", 1, 1, 1, 1)
        ])
    );
    let empty = History::Walked(revisions_of(&parse_git_log("").unwrap()));
    assert_eq!(aggregate(&empty, None, None), Err(StatsError::NoCommitsFound));
}
