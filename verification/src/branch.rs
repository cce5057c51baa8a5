//! Virtual branches and their ownership claims.
//!
//! A claim assigns one hunk of the uncommitted diff to one branch. The
//! identity of a claim is the hunk's file path plus its replacement text; its
//! line range is a projection of the current diff, recomputed on every
//! reconciliation, never carried across writes.

use vstd::prelude::*;

use crate::hunks::{DiffHunk, HunkV};
use crate::util::lemma_vec_deep;

verus! {

/// A recorded dependency of an uncommitted hunk on one commit of one branch.
#[derive(Clone, Copy, PartialEq, Eq, Structural, Debug)]
pub struct Lock {
    pub commit_id: usize,
    pub branch_id: usize,
}

/// Model of a lock.
#[verifier::ext_equal]
pub struct LockV {
    pub commit_id: int,
    pub branch_id: int,
}

impl View for Lock {
    type V = LockV;

    open spec fn view(&self) -> LockV {
        LockV { commit_id: self.commit_id as int, branch_id: self.branch_id as int }
    }
}

impl DeepView for Lock {
    type V = LockV;

    open spec fn deep_view(&self) -> LockV {
        self.view()
    }
}

/// One claimed hunk, with the locks attached by the last reconciliation.
#[derive(PartialEq, Eq, Debug)]
pub struct HunkClaim {
    pub hunk: DiffHunk,
    pub locked: bool,
    pub locked_to: Vec<Lock>,
}

/// Model of a claim.
#[verifier::ext_equal]
pub struct ClaimV {
    pub hunk: HunkV,
    pub locked: bool,
    pub locked_to: Seq<LockV>,
}

impl View for HunkClaim {
    type V = ClaimV;

    open spec fn view(&self) -> ClaimV {
        ClaimV { hunk: self.hunk@, locked: self.locked, locked_to: self.locked_to.deep_view() }
    }
}

impl DeepView for HunkClaim {
    type V = ClaimV;

    open spec fn deep_view(&self) -> ClaimV {
        self.view()
    }
}

/// All claims of one branch within one file.
#[derive(PartialEq, Eq, Debug)]
pub struct FileClaim {
    pub path: String,
    pub hunks: Vec<HunkClaim>,
}

/// Model of a file claim.
#[verifier::ext_equal]
pub struct FileClaimV {
    pub path: Seq<char>,
    pub hunks: Seq<ClaimV>,
}

impl View for FileClaim {
    type V = FileClaimV;

    open spec fn view(&self) -> FileClaimV {
        FileClaimV { path: self.path@, hunks: self.hunks.deep_view() }
    }
}

impl DeepView for FileClaim {
    type V = FileClaimV;

    open spec fn deep_view(&self) -> FileClaimV {
        self.view()
    }
}

/// One virtual branch. Its id equals its position in the branch list, which
/// is also its rank for default-assignment tie-breaks; `head` is commit 0
/// while the branch has no commits of its own.
#[derive(PartialEq, Eq, Debug)]
pub struct VirtualBranch {
    pub id: usize,
    pub name: String,
    pub head: usize,
    pub selected_for_changes: bool,
    pub files: Vec<FileClaim>,
}

/// Model of a virtual branch.
#[verifier::ext_equal]
pub struct BranchV {
    pub id: int,
    pub name: Seq<char>,
    pub head: int,
    pub selected_for_changes: bool,
    pub files: Seq<FileClaimV>,
}

impl View for VirtualBranch {
    type V = BranchV;

    open spec fn view(&self) -> BranchV {
        BranchV {
            id: self.id as int,
            name: self.name@,
            head: self.head as int,
            selected_for_changes: self.selected_for_changes,
            files: self.files.deep_view(),
        }
    }
}

impl DeepView for VirtualBranch {
    type V = BranchV;

    open spec fn deep_view(&self) -> BranchV {
        self.view()
    }
}

/// Branch ids equal positions, heads point into a store of `n` commits, and
/// at most one branch is selected for changes.
pub open spec fn branches_wf(bs: Seq<BranchV>, n: int) -> bool {
    &&& forall|i: int| 0 <= i < bs.len() ==> #[trigger] bs[i].id == i
    &&& forall|i: int| 0 <= i < bs.len() ==> 0 <= #[trigger] bs[i].head < n
    &&& forall|i: int, j: int|
        0 <= i < j < bs.len() && bs[i].selected_for_changes ==> !bs[j].selected_for_changes
}

/// The first branch marked selected-for-changes, scanning from `i`.
pub open spec fn spec_selected(bs: Seq<BranchV>, i: int) -> Option<int>
    decreases bs.len() - i,
{
    if i < 0 || i >= bs.len() {
        None
    } else if bs[i].selected_for_changes {
        Some(i)
    } else {
        spec_selected(bs, i + 1)
    }
}

/// The branch that receives unclaimed hunks: the selected branch if any,
/// otherwise the lowest-ranked branch, none when no branch exists.
pub open spec fn spec_default_target(bs: Seq<BranchV>) -> Option<int> {
    match spec_selected(bs, 0) {
        Some(k) => Some(k),
        None => if bs.len() > 0 {
            Some(0)
        } else {
            None
        },
    }
}

/// Whether some claim among `hunks`, from index `k` on, has the replacement
/// text `lines`.
pub open spec fn spec_claims_text(hunks: Seq<ClaimV>, lines: Seq<Seq<char>>, k: int) -> bool
    decreases hunks.len() - k,
{
    if k < 0 || k >= hunks.len() {
        false
    } else if hunks[k].hunk.lines == lines {
        true
    } else {
        spec_claims_text(hunks, lines, k + 1)
    }
}

/// Whether some file claim among `files`, from `k` on, holds a claim of
/// identity (`path`, `lines`).
pub open spec fn spec_files_claim(
    files: Seq<FileClaimV>,
    path: Seq<char>,
    lines: Seq<Seq<char>>,
    k: int,
) -> bool
    decreases files.len() - k,
{
    if k < 0 || k >= files.len() {
        false
    } else if files[k].path == path && spec_claims_text(files[k].hunks, lines, 0) {
        true
    } else {
        spec_files_claim(files, path, lines, k + 1)
    }
}

/// Whether branch `b` claims a hunk of identity (`path`, `lines`), scanning
/// its file claims from index `k` on.
pub open spec fn spec_branch_claims(b: BranchV, path: Seq<char>, lines: Seq<Seq<char>>, k: int) -> bool {
    spec_files_claim(b.files, path, lines, k)
}

/// The first branch, from index `i` on, that claims a hunk of identity
/// (`path`, `lines`).
pub open spec fn spec_owner(bs: Seq<BranchV>, path: Seq<char>, lines: Seq<Seq<char>>, i: int) -> Option<int>
    decreases bs.len() - i,
{
    if i < 0 || i >= bs.len() {
        None
    } else if spec_branch_claims(bs[i], path, lines, 0) {
        Some(i)
    } else {
        spec_owner(bs, path, lines, i + 1)
    }
}

/// The branch a hunk of identity (`path`, `lines`) is assigned to: its
/// current owner when one exists (stable assignment), otherwise the default
/// target.
pub open spec fn spec_assignee(bs: Seq<BranchV>, path: Seq<char>, lines: Seq<Seq<char>>) -> Option<int> {
    match spec_owner(bs, path, lines, 0) {
        Some(k) => Some(k),
        None => spec_default_target(bs),
    }
}

/// Finds the selected branch, scanning from `i`.
pub fn find_selected(bs: &Vec<VirtualBranch>, i: usize) -> (r: Option<usize>)
    requires
        i <= bs.len(),
    ensures
        match r {
            Some(k) => spec_selected(bs.deep_view(), i as int) == Some(k as int) && k < bs.len(),
            None => spec_selected(bs.deep_view(), i as int) is None,
        },
    decreases bs.len() - i,
{
    proof {
        lemma_vec_deep(bs);
    }
    if i >= bs.len() {
        None
    } else if bs[i].selected_for_changes {
        Some(i)
    } else {
        find_selected(bs, i + 1)
    }
}

/// Computes the default target branch.
pub fn default_target(bs: &Vec<VirtualBranch>) -> (r: Option<usize>)
    ensures
        match r {
            Some(k) => spec_default_target(bs.deep_view()) == Some(k as int) && k < bs.len(),
            None => spec_default_target(bs.deep_view()) is None,
        },
{
    match find_selected(bs, 0) {
        Some(k) => Some(k),
        None => if bs.len() > 0 {
            Some(0)
        } else {
            None
        },
    }
}

/// Whether two line vectors hold the same text.
pub fn lines_equal(a: &Vec<String>, b: &Vec<String>) -> (r: bool)
    ensures
        r == (a.deep_view() == b.deep_view()),
    decreases a.len(),
{
    lines_equal_from(a, b, 0)
}

fn lines_equal_from(a: &Vec<String>, b: &Vec<String>, i: usize) -> (r: bool)
    requires
        i <= a.len(),
        i <= b.len(),
        forall|k: int| 0 <= k < i ==> a.deep_view()[k] == b.deep_view()[k],
    ensures
        r == (a.deep_view() == b.deep_view()),
    decreases a.len() - i,
{
    proof {
        lemma_vec_deep(a);
        lemma_vec_deep(b);
    }
    if a.len() != b.len() {
        proof {
            assert(a.deep_view().len() != b.deep_view().len());
        }
        false
    } else if i >= a.len() {
        proof {
            assert(a.deep_view() =~= b.deep_view());
        }
        true
    } else if a[i] == b[i] {
        lines_equal_from(a, b, i + 1)
    } else {
        proof {
            assert(a.deep_view()[i as int] != b.deep_view()[i as int]);
        }
        false
    }
}

/// Whether a claim with the given replacement text stands among `hunks`,
/// scanning from `k`.
pub fn claims_text_from(hunks: &Vec<HunkClaim>, lines: &Vec<String>, k: usize) -> (r: bool)
    requires
        k <= hunks.len(),
    ensures
        r == spec_claims_text(hunks.deep_view(), lines.deep_view(), k as int),
    decreases hunks.len() - k,
{
    proof {
        lemma_vec_deep(hunks);
    }
    if k >= hunks.len() {
        false
    } else if lines_equal(&hunks[k].hunk.lines, lines) {
        true
    } else {
        claims_text_from(hunks, lines, k + 1)
    }
}

/// Whether branch `b` claims a hunk of identity (`path`, `lines`), scanning
/// from file claim `k` on.
pub fn branch_claims_from(b: &VirtualBranch, path: &String, lines: &Vec<String>, k: usize) -> (r:
    bool)
    requires
        k <= b.files.len(),
    ensures
        r == spec_branch_claims(b@, path@, lines.deep_view(), k as int),
    decreases b.files.len() - k,
{
    proof {
        lemma_vec_deep(&b.files);
    }
    if k >= b.files.len() {
        false
    } else if b.files[k].path == *path && claims_text_from(&b.files[k].hunks, lines, 0) {
        true
    } else {
        branch_claims_from(b, path, lines, k + 1)
    }
}

/// Finds the owner of a hunk identity among the branches, scanning from `i`.
pub fn owner_from(bs: &Vec<VirtualBranch>, path: &String, lines: &Vec<String>, i: usize) -> (r:
    Option<usize>)
    requires
        i <= bs.len(),
    ensures
        match r {
            Some(k) => spec_owner(bs.deep_view(), path@, lines.deep_view(), i as int) == Some(
                k as int,
            ) && k < bs.len(),
            None => spec_owner(bs.deep_view(), path@, lines.deep_view(), i as int) is None,
        },
    decreases bs.len() - i,
{
    proof {
        lemma_vec_deep(bs);
    }
    if i >= bs.len() {
        None
    } else if branch_claims_from(&bs[i], path, lines, 0) {
        Some(i)
    } else {
        owner_from(bs, path, lines, i + 1)
    }
}

/// Computes the branch a hunk identity is assigned to.
pub fn assignee(bs: &Vec<VirtualBranch>, path: &String, lines: &Vec<String>) -> (r: Option<usize>)
    ensures
        match r {
            Some(k) => spec_assignee(bs.deep_view(), path@, lines.deep_view()) == Some(k as int)
                && k < bs.len(),
            None => spec_assignee(bs.deep_view(), path@, lines.deep_view()) is None,
        },
{
    match owner_from(bs, path, lines, 0) {
        Some(k) => Some(k),
        None => default_target(bs),
    }
}

} // verus!
