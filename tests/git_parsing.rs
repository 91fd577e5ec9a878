use vexc_core::git::{
    mentions_missing_repository, mentions_unknown_path, order_branches, GitBranchInfo, commit_summary, validate_commit_message, ensure_workspace_is_git_repository, extract_git_commit_hash, get_git_status_snapshot,
    is_not_git_repository_error, is_restore_unknown_path_error, parse_git_branch_header,
    parse_git_branch_name, parse_git_branches_output, parse_git_change_line,
    parse_git_status_porcelain, run_git_command_expect_success, summarize_git_failure,
    validate_git_branch_name, GitCommandResult, GitRepoStatus,
};

fn command_result(stdout: &str, stderr: &str, exit_code: i32, success: bool) -> GitCommandResult {
    GitCommandResult {
        command: String::from("git"),
        args: vec![String::from("status")],
        stdout: stdout.to_string(),
        stderr: stderr.to_string(),
        exit_code,
        success,
    }
}

fn empty_status() -> GitRepoStatus {
    GitRepoStatus {
        is_repo: true,
        branch: None,
        upstream: None,
        ahead: 0,
        behind: 0,
        has_changes: false,
    }
}

#[test]
fn parse_git_status_reads_branch_and_changes() {
    let root = "/workspace";
    let output = "\
## main...origin/main [ahead 2, behind 1]
M  src/lib.rs
 M README.md
R  old.txt -> new.txt
?? notes.txt
";

    let (status, changes) = parse_git_status_porcelain(output, root);
    assert!(status.is_repo);
    assert_eq!(status.branch.as_deref(), Some("main"));
    assert_eq!(status.upstream.as_deref(), Some("origin/main"));
    assert_eq!(status.ahead, 2);
    assert_eq!(status.behind, 1);
    assert!(status.has_changes);
    assert_eq!(changes.len(), 4);

    let rename_change = changes
        .iter()
        .find(|change| change.status_code == "R ")
        .expect("rename change should exist");
    assert!(rename_change.staged);
    assert!(rename_change
        .old_path
        .as_deref()
        .map(|path| path.ends_with("old.txt"))
        .unwrap_or(false));
    assert!(rename_change.path.ends_with("new.txt"));

    let untracked_change = changes
        .iter()
        .find(|change| change.untracked)
        .expect("untracked change should exist");
    assert!(!untracked_change.staged);
    assert!(untracked_change.unstaged);
}

#[test]
fn parse_git_branches_marks_local_and_remote() {
    let output = "\
* main
  feature/ui
  remotes/origin/main
  remotes/origin/feature/ui
  remotes/origin/HEAD -> origin/main
";

    let branches = parse_git_branches_output(output, Some("main"));
    assert_eq!(branches.len(), 4);

    let main_branch = branches
        .iter()
        .find(|branch| branch.name == "main" && !branch.is_remote)
        .expect("local main branch should exist");
    assert!(main_branch.is_current);

    let remote_main = branches
        .iter()
        .find(|branch| branch.name == "origin/main" && branch.is_remote)
        .expect("remote main branch should exist");
    assert!(!remote_main.is_current);
}

#[test]
fn branches_are_sorted_locals_first_by_lowercase_name() {
    let output = "  zeta\r\n  remotes/origin/Alpha\n* Beta\n  alpha\n  zeta\n";
    let branches = parse_git_branches_output(output, None);
    let names: Vec<(&str, bool)> = branches
        .iter()
        .map(|b| (b.name.as_str(), b.is_remote))
        .collect();
    assert_eq!(
        names,
        vec![("alpha", false), ("Beta", false), ("zeta", false), ("origin/Alpha", true)]
    );
    assert!(branches[1].is_current);
    assert!(!branches[0].is_current);
}

#[test]
fn change_line_paths_are_joined_to_root() {
    let change = parse_git_change_line("A  dir/file.rs", "/repo").expect("a change");
    assert_eq!(change.path, "/repo/dir/file.rs");
    assert_eq!(change.old_path, None);
    assert_eq!(change.index_status, "A");
    assert_eq!(change.worktree_status, " ");
    assert_eq!(change.status_code, "A ");
    assert!(change.staged);
    assert!(!change.unstaged);
    assert!(!change.untracked);
    assert!(parse_git_change_line("MM", "/repo").is_none());
    assert!(parse_git_change_line("MMx a", "/repo").is_none());
    assert!(parse_git_change_line("M    ", "/repo").is_none());
}

#[test]
fn branch_names_of_header_fragments() {
    assert_eq!(parse_git_branch_name("  main  ").as_deref(), Some("main"));
    assert_eq!(parse_git_branch_name("No commits yet on dev").as_deref(), Some("dev"));
    assert_eq!(parse_git_branch_name("HEAD (no branch)").as_deref(), Some("HEAD"));
    assert_eq!(parse_git_branch_name("feature extra words").as_deref(), Some("feature"));
    assert_eq!(parse_git_branch_name("   "), None);
    assert_eq!(parse_git_branch_name("No commits yet on ").as_deref(), Some("No"));
}

#[test]
fn branch_header_without_upstream_keeps_counts_at_zero() {
    let mut status = empty_status();
    parse_git_branch_header("## No commits yet on main", &mut status);
    assert_eq!(status.branch.as_deref(), Some("main"));
    assert_eq!(status.upstream, None);
    assert_eq!(status.ahead, 0);
    assert_eq!(status.behind, 0);

    let mut status = empty_status();
    parse_git_branch_header("## dev...origin/dev [behind 7]", &mut status);
    assert_eq!(status.branch.as_deref(), Some("dev"));
    assert_eq!(status.upstream.as_deref(), Some("origin/dev"));
    assert_eq!(status.ahead, 0);
    assert_eq!(status.behind, 7);
}

#[test]
fn branch_header_with_unparsable_count_reads_zero() {
    let mut status = empty_status();
    status.ahead = 5;
    parse_git_branch_header("## dev...origin/dev [ahead x]", &mut status);
    assert_eq!(status.ahead, 0);
}

#[test]
fn commit_hash_is_read_from_summary_line() {
    let stdout = "[main 1a2b3c4] Add feature\n 1 file changed\n";
    assert_eq!(extract_git_commit_hash(stdout).as_deref(), Some("1a2b3c4"));
    assert_eq!(
        extract_git_commit_hash("[main (root-commit) abc123] x").as_deref(),
        None
    );
    assert_eq!(extract_git_commit_hash("nothing here"), None);
    assert_eq!(extract_git_commit_hash("[main"), None);
    assert_eq!(extract_git_commit_hash("[main]"), None);
}

#[test]
fn failure_summary_prefers_stderr_then_stdout_then_code() {
    assert_eq!(summarize_git_failure(&command_result(" out ", " err\n", 1, false)), "err");
    assert_eq!(summarize_git_failure(&command_result(" out ", "  ", 1, false)), "out");
    assert_eq!(
        summarize_git_failure(&command_result("", "", -3, false)),
        "command exited with code -3"
    );
    assert_eq!(
        summarize_git_failure(&command_result("", "", 128, false)),
        "command exited with code 128"
    );
}

#[test]
fn git_error_texts_are_recognised_in_any_case() {
    assert!(is_not_git_repository_error(
        "fatal: NOT A GIT REPOSITORY (or any of the parent directories): .git"
    ));
    assert!(!is_not_git_repository_error("fatal: something else"));
    assert!(is_restore_unknown_path_error(&command_result(
        "",
        "error: PathSpec 'x' did not match",
        1,
        false
    )));
    assert!(is_restore_unknown_path_error(&command_result(
        "Could Not Resolve x",
        "",
        1,
        false
    )));
    assert!(!is_restore_unknown_path_error(&command_result("", "other", 1, false)));
}

#[test]
fn branch_names_to_check_out_are_validated() {
    assert_eq!(validate_git_branch_name("  topic  "), Ok(String::from("topic")));
    assert_eq!(
        validate_git_branch_name("   "),
        Err(String::from("Branch name cannot be empty"))
    );
    assert_eq!(
        validate_git_branch_name("-x"),
        Err(String::from("Branch name cannot start with '-'"))
    );
    assert_eq!(
        validate_git_branch_name("a\nb"),
        Err(String::from("Branch name is not valid"))
    );
}

#[test]
fn command_outcomes_map_to_results() {
    let ok = run_git_command_expect_success(command_result("done", "", 0, true), "Failed");
    assert_eq!(ok.map(|r| r.stdout), Ok(String::from("done")));
    let err = run_git_command_expect_success(command_result("", "boom", 1, false), "Failed to push");
    assert_eq!(err.err(), Some(String::from("Failed to push: boom")));

    let mut status = empty_status();
    assert_eq!(ensure_workspace_is_git_repository(&status), Ok(()));
    status.is_repo = false;
    assert_eq!(
        ensure_workspace_is_git_repository(&status),
        Err(String::from("Workspace is not a git repository"))
    );
}

#[test]
fn status_snapshot_distinguishes_missing_repository_from_failure() {
    let not_repo = command_result("", "fatal: not a git repository", 128, false);
    let (status, changes) = get_git_status_snapshot(&not_repo, "/w").expect("not a repo is no error");
    assert!(!status.is_repo);
    assert!(changes.is_empty());

    let failed = command_result("", "fatal: bad object", 128, false);
    assert_eq!(
        get_git_status_snapshot(&failed, "/w").err(),
        Some(String::from("Failed to read git status: fatal: bad object"))
    );

    let ok = command_result("## main\n?? a.txt\n", "", 0, true);
    let (status, changes) = get_git_status_snapshot(&ok, "/w").expect("parsed");
    assert!(status.is_repo);
    assert_eq!(status.branch.as_deref(), Some("main"));
    assert_eq!(changes.len(), 1);
    assert_eq!(changes[0].path, "/w/a.txt");
}

#[test]
fn commits_are_checked_and_summed_up() {
    assert_eq!(validate_commit_message("  fix  "), Ok(String::from("fix")));
    assert_eq!(
        validate_commit_message(" \n "),
        Err(String::from("Commit message cannot be empty"))
    );
    assert_eq!(commit_summary(" [main 1a2b] fix \n 1 file changed"), "[main 1a2b] fix");
    assert_eq!(commit_summary(""), "Commit created");
    assert_eq!(commit_summary("   \nlater"), "Commit created");
}

#[test]
fn lowercase_messages_are_matched_exactly() {
    assert!(mentions_missing_repository("fatal: not a git repository"));
    assert!(!mentions_missing_repository("fatal: NOT A GIT REPOSITORY"));
    assert!(mentions_unknown_path("error: pathspec 'x'"));
    assert!(mentions_unknown_path("did not match any file(s) known to git"));
    assert!(!mentions_unknown_path("could not lock"));
}

#[test]
fn branches_are_ordered_by_given_keys() {
    let branch = |name: &str, remote: bool| GitBranchInfo {
        name: name.to_string(),
        is_current: false,
        is_remote: remote,
    };
    let keyed = vec![
        ("b".chars().collect::<Vec<char>>(), branch("x", false)),
        ("a".chars().collect::<Vec<char>>(), branch("y", true)),
        ("c".chars().collect::<Vec<char>>(), branch("z", false)),
        ("a".chars().collect::<Vec<char>>(), branch("w", false)),
    ];
    let names: Vec<String> = order_branches(keyed).into_iter().map(|b| b.name).collect();
    assert_eq!(names, vec!["w", "x", "z", "y"]);
}
