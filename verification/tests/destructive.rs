//! Destructive-ask predicate scenarios.

use roster::destructive::is_destructive;

#[test]
fn force_push_is_destructive() {
    assert!(is_destructive("Bash", "git push --force origin main"));
    assert!(is_destructive("Bash", "git push -f"));
    assert!(is_destructive(
        "Bash",
        "git push --force-with-lease=origin/main origin main"
    ));
    assert!(is_destructive("Bash", "git -C /repo push --force"));
    assert!(!is_destructive("Bash", "git push origin main"));
}

#[test]
fn plus_refspec_push_is_destructive() {
    assert!(is_destructive("Bash", "git push origin +main"));
}

#[test]
fn remote_branch_deletion_is_destructive() {
    assert!(is_destructive("Bash", "git push origin --delete fix/foo"));
}

#[test]
fn rm_rf_variants_are_destructive() {
    assert!(is_destructive("Bash", "rm -rf /tmp/build"));
    assert!(is_destructive("Bash", "rm -fr target"));
    assert!(is_destructive("Bash", "rm -r -f target"));
    assert!(is_destructive("Bash", "rm --recursive --force target"));
    assert!(is_destructive("Bash", "sudo /bin/rm -rf /var/cache"));
    assert!(!is_destructive("Bash", "rm -r target"));
}

#[test]
fn reset_hard_is_destructive() {
    assert!(is_destructive("Bash", "git reset --hard HEAD~1"));
    assert!(!is_destructive("Bash", "git reset HEAD~1"));
}

#[test]
fn discarding_working_tree_edits_is_destructive() {
    assert!(is_destructive("Bash", "git checkout -- ."));
    assert!(is_destructive("Bash", "git restore src/main.rs"));
    assert!(is_destructive("Bash", "git clean -fd"));
    assert!(!is_destructive("Bash", "git checkout main"));
}

#[test]
fn find_delete_is_destructive() {
    assert!(is_destructive("Bash", "find . -name '*.pyc' -delete"));
    assert!(!is_destructive("Bash", "find . -name '*.pyc'"));
}

#[test]
fn plain_ls_is_not_destructive() {
    assert!(!is_destructive("Bash", "ls -la"));
}

#[test]
fn empty_input_is_not_destructive() {
    assert!(!is_destructive("Bash", ""));
}

#[test]
fn chmod_recursive_is_destructive() {
    assert!(is_destructive("Bash", "chmod -R 755 ."));
    assert!(!is_destructive("Bash", "chmod 644 README.md"));
}

#[test]
fn noclobber_override_redirect_is_destructive() {
    assert!(is_destructive("Bash", "echo done >| status.txt"));
}

#[test]
fn sql_statements_match_sql_and_shell_tools() {
    assert!(is_destructive("execute_sql", "DROP TABLE users;"));
    assert!(is_destructive("execute_sql", "truncate sessions"));
    assert!(is_destructive("execute_sql", "DELETE FROM sessions"));
    assert!(is_destructive("Bash", "psql -c \"drop table users\""));
    assert!(!is_destructive("execute_sql", "SELECT * FROM users"));
}

#[test]
fn unknown_tools_are_never_destructive() {
    assert!(!is_destructive("Write", "rm -rf /"));
    assert!(!is_destructive("Read", "DROP TABLE users"));
}

#[test]
fn query_named_tools_are_not_sql_scoped() {
    assert!(!is_destructive(
        "notion-query-data-sources",
        "truncate the summary column"
    ));
}

#[test]
fn wrapped_commands_still_match() {
    assert!(is_destructive("Bash", "bash -c \"rm -rf /tmp/x\""));
    assert!(is_destructive("Bash", "cd /tmp && rm -rf scratch"));
    assert!(is_destructive("Bash", "xargs rm -rf < list.txt"));
}

#[test]
fn line_continuations_stay_one_command() {
    assert!(is_destructive("Bash", "rm \\\n  -rf /tmp/build"));
}

#[test]
fn prose_mentioning_a_program_is_not_destructive() {
    assert!(!is_destructive("Bash", "echo rm -rf is dangerous"));
    assert!(!is_destructive("Bash", "rg truncate crates/"));
    assert!(!is_destructive("Bash", "man truncate"));
    assert!(!is_destructive(
        "Bash",
        "git commit -m \"truncate old logs\""
    ));
}

#[test]
fn truncate_invocation_is_destructive() {
    assert!(is_destructive("Bash", "truncate -s 0 app.log"));
}

#[test]
fn flags_in_a_later_segment_do_not_combine() {
    assert!(!is_destructive("Bash", "rm -r target && tar -cf out.tar ."));
}

#[test]
fn json_envelope_input_matches_nothing() {
    // The contract: callers pass the extracted command string. The
    // serialized envelope must not half-match.
    assert!(!is_destructive("Bash", "{\"command\":\"rm -rf /\"}"));
}

#[test]
fn appending_a_segment_keeps_an_input_destructive() {
    for a in ["git push --force", "rm -rf build", "DROP TABLE users"] {
        let tool = if a.starts_with("DROP") { "mcp__postgres__query" } else { "Bash" };
        if !is_destructive(tool, a) {
            continue;
        }
        for b in ["echo done", "ls", "", "git status"] {
            let joined = format!("{a} ; {b}");
            assert!(is_destructive(tool, &joined), "{joined:?}");
        }
    }
    assert!(is_destructive("Bash", "git push --force ; echo done"));
}
