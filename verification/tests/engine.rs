use vbranch::errors::EngineError;
use vbranch::project::{ClaimRequest, Project};
use vbranch::tree::TreeFile;

fn text(v: &[&str]) -> Vec<String> {
    v.iter().map(|s| s.to_string()).collect()
}

fn base_file(path: &str, n: usize) -> TreeFile {
    TreeFile {
        path: path.to_string(),
        lines: (0..n).map(|i| format!("line {}", i)).collect(),
    }
}

// A project with one committed change at 1-based line `k` of a 21-line file,
// then an edit at 1-based line `edit`; returns whether the edit is reported
// locked.
fn edit_is_locked(k: usize, edit: usize) -> bool {
    let mut p = Project::new(vec![base_file("file.txt", 21)]);
    let b = p.create_virtual_branch("work".to_string(), true);
    let mut content: Vec<String> = (0..21).map(|i| format!("line {}", i)).collect();
    content[k - 1] = "committed change".to_string();
    p.write_file("file.txt".to_string(), content.clone());
    p.create_commit(b, "one change".to_string(), None).unwrap();
    content[edit - 1] = "later edit".to_string();
    p.write_file("file.txt".to_string(), content);
    let bs = p.list_virtual_branches();
    assert_eq!(bs[b].files.len(), 1);
    assert_eq!(bs[b].files[0].hunks.len(), 1);
    assert_eq!(bs[b].files[0].hunks[0].hunk.new_start, edit);
    bs[b].files[0].hunks[0].locked
}

#[test]
fn context_boundary_locking() {
    // Context window 3: five lines away is safely outside, two lines inside.
    assert!(!edit_is_locked(10, 5));
    assert!(!edit_is_locked(10, 15));
    assert!(edit_is_locked(10, 8));
    assert!(edit_is_locked(10, 12));
    // The boundary itself: exactly three lines away still locks.
    assert!(edit_is_locked(10, 7));
    assert!(edit_is_locked(10, 13));
    assert!(!edit_is_locked(10, 6));
    assert!(!edit_is_locked(10, 14));
}

#[test]
fn post_commit_locking_exact_chain() {
    // Committing lines [5,7], then editing the same lines, yields exactly one
    // hunk locked to exactly that commit.
    let mut p = Project::new(vec![base_file("file.txt", 12)]);
    let b = p.create_virtual_branch("work".to_string(), true);
    let mut content: Vec<String> = (0..12).map(|i| format!("line {}", i)).collect();
    content[4] = "a".to_string();
    content[5] = "b".to_string();
    content[6] = "c".to_string();
    p.write_file("file.txt".to_string(), content.clone());
    let bs = p.list_virtual_branches();
    assert_eq!(bs[b].files[0].hunks.len(), 1);
    assert_eq!(bs[b].files[0].hunks[0].hunk.new_start, 5);
    assert_eq!(bs[b].files[0].hunks[0].hunk.new_lines, 3);
    let commit = p.create_commit(b, "span".to_string(), None).unwrap();

    content[5] = "edited again".to_string();
    p.write_file("file.txt".to_string(), content);
    let bs = p.list_virtual_branches();
    assert_eq!(bs[b].files.len(), 1);
    assert_eq!(bs[b].files[0].hunks.len(), 1);
    assert!(bs[b].files[0].hunks[0].locked);
    assert_eq!(bs[b].files[0].hunks[0].locked_to.len(), 1);
    assert_eq!(bs[b].files[0].hunks[0].locked_to[0].commit_id, commit);
    assert_eq!(bs[b].files[0].hunks[0].locked_to[0].branch_id, b);
}

#[test]
fn fresh_branches_report_no_locks() {
    let mut p = Project::new(vec![base_file("a.txt", 4)]);
    let b1 = p.create_virtual_branch("one".to_string(), true);
    p.write_file("a.txt".to_string(), text(&["line 0", "x", "line 2", "y"]));
    p.write_file("b.txt".to_string(), text(&["fresh"]));
    let bs = p.list_virtual_branches();
    for fc in &bs[b1].files {
        for h in &fc.hunks {
            assert!(!h.locked);
            assert!(h.locked_to.is_empty());
        }
    }
}

#[test]
fn stable_assignment_across_unrelated_edits() {
    let mut p = Project::new(vec![base_file("a.txt", 1)]);
    let b1 = p.create_virtual_branch("one".to_string(), true);
    p.write_file("a.txt".to_string(), text(&["claimed by one"]));
    p.list_virtual_branches();

    // Selection moves to a second branch; the existing claim must not move.
    let b2 = p.create_virtual_branch("two".to_string(), true);
    p.write_file("b.txt".to_string(), text(&["new work"]));
    let bs = p.list_virtual_branches();
    assert_eq!(bs[b1].files.len(), 1);
    assert_eq!(bs[b1].files[0].path, "a.txt");
    assert_eq!(bs[b2].files.len(), 1);
    assert_eq!(bs[b2].files[0].path, "b.txt");

    // And again, after yet another unrelated edit is dropped back out.
    p.write_file("b.txt".to_string(), text(&["new work", "more"]));
    let bs = p.list_virtual_branches();
    assert_eq!(bs[b1].files.len(), 1);
    assert_eq!(bs[b1].files[0].path, "a.txt");
}

#[test]
fn idempotent_reconciliation() {
    let mut p = Project::new(vec![base_file("a.txt", 8)]);
    let b = p.create_virtual_branch("one".to_string(), true);
    let mut content: Vec<String> = (0..8).map(|i| format!("line {}", i)).collect();
    content[2] = "committed".to_string();
    p.write_file("a.txt".to_string(), content.clone());
    p.create_commit(b, "first".to_string(), None).unwrap();
    content[3] = "pending".to_string();
    content[7] = "pending far".to_string();
    p.write_file("a.txt".to_string(), content);

    let first = p.list_virtual_branches();
    let second = p.list_virtual_branches();
    assert_eq!(first, second);
}

#[test]
fn atomic_commit_on_store_failure() {
    let mut p = Project::new(vec![base_file("a.txt", 1)]);
    let b = p.create_virtual_branch("one".to_string(), true);
    p.write_file("a.txt".to_string(), text(&["pending"]));
    let before = p.list_virtual_branches();
    assert_eq!(before[b].files.len(), 1);

    p.set_fail_next_write(true);
    assert_eq!(
        p.create_commit(b, "will fail".to_string(), None),
        Err(EngineError::Object)
    );

    // Head and claims are exactly as before the failed attempt.
    let after = p.list_virtual_branches();
    assert_eq!(before, after);
    assert_eq!(after[b].head, 0);

    // The injected fault was one-shot: the retry succeeds.
    let commit = p.create_commit(b, "now works".to_string(), None).unwrap();
    assert_eq!(commit, 1);
    let done = p.list_virtual_branches();
    assert_eq!(done[b].head, 1);
    assert_eq!(done[b].files.len(), 0);
}

#[test]
fn explicit_selection_commits_only_named_hunks() {
    let mut p = Project::new(vec![base_file("a.txt", 20)]);
    let b = p.create_virtual_branch("one".to_string(), true);
    let mut content: Vec<String> = (0..20).map(|i| format!("line {}", i)).collect();
    content[2] = "first edit".to_string();
    content[15] = "second edit".to_string();
    p.write_file("a.txt".to_string(), content);
    let bs = p.list_virtual_branches();
    assert_eq!(bs[b].files[0].hunks.len(), 2);

    let picked = vec![ClaimRequest { path: "a.txt".to_string(), start: 3, lines: 1 }];
    let commit = p.create_commit(b, "partial".to_string(), Some(picked)).unwrap();

    // The unpicked hunk stays uncommitted; being 12 lines away it is not
    // locked to the new commit either.
    let bs = p.list_virtual_branches();
    assert_eq!(bs[b].head, commit);
    assert_eq!(bs[b].files.len(), 1);
    assert_eq!(bs[b].files[0].hunks.len(), 1);
    assert_eq!(bs[b].files[0].hunks[0].hunk.new_start, 16);
    assert!(!bs[b].files[0].hunks[0].locked);
}

#[test]
fn ownership_error_on_foreign_claim() {
    let mut p = Project::new(vec![base_file("a.txt", 3)]);
    let b = p.create_virtual_branch("one".to_string(), true);
    p.write_file("a.txt".to_string(), text(&["line 0", "edited", "line 2"]));
    p.list_virtual_branches();
    let wrong = vec![ClaimRequest { path: "a.txt".to_string(), start: 9, lines: 1 }];
    assert_eq!(
        p.create_commit(b, "nope".to_string(), Some(wrong)),
        Err(EngineError::Ownership)
    );
    // Nothing moved.
    let bs = p.list_virtual_branches();
    assert_eq!(bs[b].head, 0);
    assert_eq!(bs[b].files[0].hunks.len(), 1);
}

#[test]
fn branch_not_found_errors() {
    let mut p = Project::new(Vec::new());
    assert_eq!(
        p.create_commit(3, "ghost".to_string(), None),
        Err(EngineError::BranchNotFound)
    );
    assert_eq!(p.reset_virtual_branch(0, 0), Err(EngineError::BranchNotFound));
    assert_eq!(
        p.update_virtual_branch(1, None, Some(true)),
        Err(EngineError::BranchNotFound)
    );
}

#[test]
fn invalid_target_on_foreign_or_unknown_commit() {
    let mut p = Project::new(vec![base_file("a.txt", 1)]);
    let b1 = p.create_virtual_branch("one".to_string(), true);
    p.write_file("a.txt".to_string(), text(&["change 1"]));
    p.list_virtual_branches();
    let c1 = p.create_commit(b1, "commit 1".to_string(), None).unwrap();

    let b2 = p.create_virtual_branch("two".to_string(), true);
    p.write_file("a.txt".to_string(), text(&["change 2"]));
    p.list_virtual_branches();
    p.create_commit(b2, "commit 2".to_string(), None).unwrap();

    // Commit 1 belongs to branch one's history, not branch two's.
    assert_eq!(p.reset_virtual_branch(b2, c1), Err(EngineError::InvalidTarget));
    // A commit id beyond the store is refused outright.
    assert_eq!(p.reset_virtual_branch(b1, 99), Err(EngineError::InvalidTarget));
}

#[test]
fn reset_routes_changes_to_selected_branch() {
    let mut p = Project::new(vec![base_file("a.txt", 1)]);
    let b1 = p.create_virtual_branch("one".to_string(), true);
    p.write_file("a.txt".to_string(), text(&["change 1"]));
    p.list_virtual_branches();
    p.create_commit(b1, "commit 1".to_string(), None).unwrap();

    // Selection moves to branch two, then branch one is reset to the base:
    // the reintroduced hunk must land on branch two.
    let b2 = p.create_virtual_branch("two".to_string(), true);
    p.reset_virtual_branch(b1, 0).unwrap();
    let bs = p.list_virtual_branches();
    assert_eq!(bs[b1].head, 0);
    assert_eq!(bs[b1].files.len(), 0);
    assert_eq!(bs[b2].files.len(), 1);
    assert_eq!(bs[b2].files[0].hunks[0].hunk.lines, text(&["change 1"]));
}

#[test]
fn selecting_a_branch_deselects_the_others() {
    let mut p = Project::new(Vec::new());
    let b1 = p.create_virtual_branch("one".to_string(), true);
    let b2 = p.create_virtual_branch("two".to_string(), false);
    p.update_virtual_branch(b2, None, Some(true)).unwrap();
    let bs = p.list_virtual_branches();
    assert!(!bs[b1].selected_for_changes);
    assert!(bs[b2].selected_for_changes);

    p.update_virtual_branch(b2, Some("renamed".to_string()), None).unwrap();
    let bs = p.list_virtual_branches();
    assert_eq!(bs[b2].name, "renamed");
    assert!(bs[b2].selected_for_changes);
}

#[test]
fn diff_reports_exact_ranges() {
    let mut p = Project::new(vec![base_file("a.txt", 3)]);
    let b = p.create_virtual_branch("one".to_string(), true);

    // In-place replacement of the middle line.
    p.write_file("a.txt".to_string(), text(&["line 0", "x", "line 2"]));
    let bs = p.list_virtual_branches();
    let h = &bs[b].files[0].hunks[0].hunk;
    assert_eq!((h.old_start, h.old_lines, h.new_start, h.new_lines), (2, 1, 2, 1));
    assert_eq!(h.lines, text(&["x"]));

    // An insertion between line 2 and line 3: zero old lines at the gap.
    p.write_file("a.txt".to_string(), text(&["line 0", "line 1", "inserted", "line 2"]));
    let bs = p.list_virtual_branches();
    let h = &bs[b].files[0].hunks[0].hunk;
    assert_eq!((h.old_start, h.old_lines, h.new_start, h.new_lines), (3, 0, 3, 1));
    assert_eq!(h.lines, text(&["inserted"]));

    // A deletion: zero new lines.
    p.write_file("a.txt".to_string(), text(&["line 0", "line 2"]));
    let bs = p.list_virtual_branches();
    let h = &bs[b].files[0].hunks[0].hunk;
    assert_eq!((h.old_start, h.old_lines, h.new_start, h.new_lines), (2, 1, 2, 0));
    assert!(h.lines.is_empty());
}

#[test]
fn committing_everything_materializes_the_worktree() {
    let mut p = Project::new(vec![base_file("a.txt", 9)]);
    let b = p.create_virtual_branch("one".to_string(), true);
    let mut content: Vec<String> = (0..9).map(|i| format!("line {}", i)).collect();
    content[1] = "first".to_string();
    content[5] = "second".to_string();
    content.push("appended".to_string());
    p.write_file("a.txt".to_string(), content.clone());
    let commit = p.create_commit(b, "all of it".to_string(), None).unwrap();

    // The commit's tree holds exactly the edited file content, and nothing is
    // left uncommitted.
    assert_eq!(p.store.commits[commit].tree.files[0].lines, content);
    let bs = p.list_virtual_branches();
    assert_eq!(bs[b].files.len(), 0);
}

#[test]
fn branch_head_names_the_commit_a_push_would_publish() {
    let mut p = Project::new(vec![base_file("a.txt", 1)]);
    let b = p.create_virtual_branch("one".to_string(), true);
    assert_eq!(p.branch_head(b), Ok(0));
    p.write_file("a.txt".to_string(), text(&["edited"]));
    let commit = p.create_commit(b, "work".to_string(), None).unwrap();
    assert_eq!(p.branch_head(b), Ok(commit));
    assert_eq!(p.branch_head(b + 1), Err(EngineError::BranchNotFound));
}

#[test]
fn error_descriptions_are_stable() {
    assert_eq!(EngineError::Ownership.describe(), "hunk not owned by branch");
    assert_eq!(EngineError::InvalidTarget.describe(), "target is not an ancestor");
    assert_eq!(EngineError::Object.describe(), "object store failure");
    assert_eq!(EngineError::BranchNotFound.describe(), "branch not found");
}
