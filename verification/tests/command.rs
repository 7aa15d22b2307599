use git_statistics::command::{count_newlines, log_arguments, ls_files_arguments, read_log, LogFailure};
use git_statistics::stats::{Commit, FilesChanged, LogError};

#[test]
fn log_arguments_without_pathspec() {
    assert_eq!(
        log_arguments(None),
        vec!["log", "--no-merges", "--no-renames", "--format=author %aN%x09%aE", "--numstat", "--"]
    );
}

#[test]
fn log_arguments_end_with_the_pathspec() {
    let pathspec = vec!["src".to_string(), ":!src/assets/*".to_string()];
    assert_eq!(
        log_arguments(Some(&pathspec)),
        vec![
            "log",
            "--no-merges",
            "--no-renames",
            "--format=author %aN%x09%aE",
            "--numstat",
            "--",
            "src",
            ":!src/assets/*"
        ]
    );
    assert_eq!(log_arguments(Some(&vec![])), log_arguments(None));
}

#[test]
fn ls_files_arguments_end_with_the_pathspec() {
    assert_eq!(ls_files_arguments(None), vec!["ls-files", "--"]);
    let pathspec = vec!["*.rs".to_string()];
    assert_eq!(ls_files_arguments(Some(&pathspec)), vec!["ls-files", "--", "*.rs"]);
}

#[test]
fn newlines_are_counted() {
    assert_eq!(count_newlines(b""), 0);
    assert_eq!(count_newlines(b"a.rs"), 0);
    assert_eq!(count_newlines(b"a.rs\nb.rs\nsrc/c.rs\n"), 3);
    assert_eq!(count_newlines(b"\n\n\r\n"), 3);
    assert_eq!(count_newlines(b"a\nb"), 1);
}

#[test]
fn a_failed_command_gives_its_complaint() {
    let complaint = "fatal: not a git repository (or any of the parent directories): .git\n";
    assert_eq!(
        read_log(false, "author a\n", complaint.to_string()),
        Err(LogFailure::Command(complaint.to_string()))
    );
}

#[test]
fn a_successful_command_gives_its_commits() {
    let expected = Commit {
        author: "alice".to_string(),
        files_changed_list: vec![FilesChanged {
            insertions: 3,
            deletions: 1,
            filename: "src/lib.rs".to_string(),
        }],
        insertions: 3,
        deletions: 1,
        files_changed: 1,
    };
    assert_eq!(
        read_log(true, "author alice\n\n3\t1\tsrc/lib.rs\n", "warning".to_string()),
        Ok(vec![expected])
    );
    assert_eq!(read_log(true, "", String::new()), Ok(vec![]));
}

#[test]
fn output_that_is_no_log_is_refused() {
    assert_eq!(
        read_log(true, "3\t1\tsrc/lib.rs\n", String::new()),
        Err(LogFailure::Output(LogError::OrphanStat))
    );
    assert_eq!(
        read_log(true, "author a\nnonsense\n", String::new()),
        Err(LogFailure::Output(LogError::MalformedStat))
    );
}
