use vbranch::branch::Lock;
use vbranch::project::Project;
use vbranch::tree::TreeFile;

fn lines_of(v: &[&str]) -> Vec<String> {
    v.iter().map(|s| s.to_string()).collect()
}

fn numbered_lines(n: usize) -> Vec<String> {
    (0..n).map(|i| format!("line {}", i)).collect()
}

#[test]
fn should_lock_updated_hunks() {
    let mut p = Project::new(Vec::new());
    let b = p.create_virtual_branch("test branch".to_string(), true);

    p.write_file("file.txt".to_string(), lines_of(&["content"]));
    let bs = p.list_virtual_branches();
    assert_eq!(bs.len(), 1);
    assert_eq!(bs[b].files.len(), 1);
    assert_eq!(bs[b].files[0].path, "file.txt");
    assert_eq!(bs[b].files[0].hunks.len(), 1);
    assert!(!bs[b].files[0].hunks[0].locked);
    assert!(bs[b].files[0].hunks[0].locked_to.is_empty());

    let commit = p.create_commit(b, "test".to_string(), None).unwrap();
    assert_eq!(commit, 1);

    p.write_file("file.txt".to_string(), lines_of(&["updated content"]));
    let bs = p.list_virtual_branches();
    assert_eq!(bs[b].files.len(), 1);
    assert_eq!(bs[b].files[0].hunks.len(), 1);
    assert!(bs[b].files[0].hunks[0].locked);
    assert_eq!(
        bs[b].files[0].hunks[0].locked_to,
        vec![Lock { commit_id: commit, branch_id: b }]
    );
}

#[test]
fn should_not_lock_disjointed_hunks() {
    // A 25-line file committed in the base; the committed change sits at line
    // 13 (index 12), so edits further than the 3-line context stay unlocked.
    let base = numbered_lines(25);
    let mut p = Project::new(vec![TreeFile {
        path: "file.txt".to_string(),
        lines: base.clone(),
    }]);
    let b = p.create_virtual_branch("test branch".to_string(), true);

    let mut content = base.clone();
    content[12] = "commited stuff".to_string();
    p.write_file("file.txt".to_string(), content.clone());
    let bs = p.list_virtual_branches();
    assert_eq!(bs[b].files[0].hunks.len(), 1);
    assert_eq!(bs[b].files[0].hunks[0].hunk.new_start, 13);
    assert_eq!(bs[b].files[0].hunks[0].hunk.new_lines, 1);
    assert!(!bs[b].files[0].hunks[0].locked);
    let first = p.create_commit(b, "my commit".to_string(), None).unwrap();

    // An edit at line 21 is 8 lines below the committed range: disjoint.
    content[20] = "updated line".to_string();
    p.write_file("file.txt".to_string(), content.clone());
    let bs = p.list_virtual_branches();
    assert_eq!(bs[b].files[0].hunks.len(), 1);
    assert_eq!(bs[b].files[0].hunks[0].hunk.new_start, 21);
    assert!(!bs[b].files[0].hunks[0].locked);
    let second = p.create_commit(b, "test commit".to_string(), None).unwrap();
    assert!(second > first);

    // Line 17 (index 16) is 4 lines from both committed ranges: unlocked.
    content[16] = "updated line".to_string();
    p.write_file("file.txt".to_string(), content.clone());
    let bs = p.list_virtual_branches();
    assert_eq!(bs[b].files[0].hunks.len(), 1);
    assert_eq!(bs[b].files[0].hunks[0].hunk.new_start, 17);
    assert!(!bs[b].files[0].hunks[0].locked);

    // Line 11 (index 10) is 2 lines from the first commit's range: locked.
    content[10] = "updated line".to_string();
    p.write_file("file.txt".to_string(), content.clone());
    let bs = p.list_virtual_branches();
    assert_eq!(bs[b].files[0].hunks.len(), 2);
    assert_eq!(bs[b].files[0].hunks[0].hunk.new_start, 11);
    assert!(bs[b].files[0].hunks[0].locked);
    assert_eq!(
        bs[b].files[0].hunks[0].locked_to,
        vec![Lock { commit_id: first, branch_id: b }]
    );
    assert_eq!(bs[b].files[0].hunks[1].hunk.new_start, 17);
    assert!(!bs[b].files[0].hunks[1].locked);
}

#[test]
fn should_reset_into_same_branch() {
    let mut p = Project::new(Vec::new());
    let b1 = p.create_virtual_branch("branch one".to_string(), false);
    let b2 = p.create_virtual_branch("branch two".to_string(), true);

    p.write_file("file.txt".to_string(), lines_of(&["change 1"]));
    let bs = p.list_virtual_branches();
    assert_eq!(bs[b1].files.len(), 0);
    assert_eq!(bs[b2].files.len(), 1);

    p.create_commit(b2, "commit to branch 2".to_string(), None).unwrap();
    let bs = p.list_virtual_branches();
    assert_eq!(bs[b1].files.len(), 0);
    assert_eq!(bs[b2].files.len(), 0);

    p.reset_virtual_branch(b2, 0).unwrap();

    // The reintroduced changes land on the branch selected for changes,
    // which is still branch two itself.
    let bs = p.list_virtual_branches();
    assert_eq!(bs[b1].files.len(), 0);
    assert_eq!(bs[b2].files.len(), 1);
    assert_eq!(bs[b2].files[0].hunks.len(), 1);
    assert_eq!(bs[b2].files[0].hunks[0].hunk.lines, lines_of(&["change 1"]));
}

#[test]
fn should_double_lock() {
    let mut p = Project::new(Vec::new());
    let b = p.create_virtual_branch("test branch".to_string(), true);

    p.write_file("file.txt".to_string(), lines_of(&["change 1"]));
    p.list_virtual_branches();
    let commit_a = p.create_commit(b, "commit 1".to_string(), None).unwrap();

    p.write_file("file.txt".to_string(), lines_of(&["change 2"]));
    p.list_virtual_branches();
    let commit_b = p.create_commit(b, "commit 2".to_string(), None).unwrap();

    p.write_file("file.txt".to_string(), lines_of(&["change3"]));
    let bs = p.list_virtual_branches();
    assert_eq!(bs[b].files[0].hunks.len(), 1);
    assert!(bs[b].files[0].hunks[0].locked);
    assert_eq!(
        bs[b].files[0].hunks[0].locked_to,
        vec![
            Lock { commit_id: commit_a, branch_id: b },
            Lock { commit_id: commit_b, branch_id: b },
        ]
    );
}

#[test]
fn should_double_lock_across_branches() {
    let mut p = Project::new(vec![TreeFile {
        path: "file.txt".to_string(),
        lines: lines_of(&["content"]),
    }]);
    let b1 = p.create_virtual_branch("branch one".to_string(), true);

    p.write_file("file.txt".to_string(), lines_of(&["change 1"]));
    p.list_virtual_branches();
    let commit_a = p.create_commit(b1, "commit 1".to_string(), None).unwrap();

    let b2 = p.create_virtual_branch("branch two".to_string(), true);
    p.write_file("file.txt".to_string(), lines_of(&["change 2"]));
    let bs = p.list_virtual_branches();
    assert_eq!(bs[b2].files.len(), 1);
    let commit_b = p.create_commit(b2, "commit 2".to_string(), None).unwrap();

    p.write_file("file.txt".to_string(), lines_of(&["change3"]));
    let bs = p.list_virtual_branches();
    assert_eq!(bs[b2].files[0].hunks.len(), 1);
    assert!(bs[b2].files[0].hunks[0].locked);
    // Oldest commit first, ordered by creation, across both branches.
    assert_eq!(
        bs[b2].files[0].hunks[0].locked_to,
        vec![
            Lock { commit_id: commit_a, branch_id: b1 },
            Lock { commit_id: commit_b, branch_id: b2 },
        ]
    );
}
