//! One project: the object store, the virtual branches, the working tree, and
//! the integration tree (base plus everything committed). All branch-mutating
//! operations go through `&mut self`, so one project serializes its writes;
//! each either completes fully or leaves the state exactly as it was.

use vstd::prelude::*;

use crate::branch::{
    branches_wf, spec_default_target, BranchV, FileClaim, FileClaimV, HunkClaim, Lock,
    VirtualBranch,
};
use crate::errors::EngineError;
use crate::hunks::{DiffHunk, FileDiff, FileDiffV, HunkV};
use crate::locks::heads_ok;
use crate::reconcile::{clone_hunk, reconcile, spec_reconcile};
use crate::store::{
    apply_diffs, clone_tree, seq_int, spec_apply_diffs, spec_chain, store_parents_ok,
    CommitRecord, CommitStore, CommitV, StoreV,
};
use crate::tree::{cons, spec_find, spec_tree_diff, tree_diff, FileV, Tree, TreeFile};
use crate::util::{lemma_deep_push, lemma_deep_update, lemma_vec_deep};

verus! {

/// The diff context window used throughout the engine.
pub const DEFAULT_CONTEXT: usize = 3;

/// A project's complete virtual-branch state.
pub struct Project {
    pub store: CommitStore,
    pub branches: Vec<VirtualBranch>,
    pub worktree: Tree,
    pub integration: Tree,
    pub context_lines: usize,
}

/// Model of a project.
#[verifier::ext_equal]
pub struct ProjectV {
    pub store: StoreV,
    pub branches: Seq<BranchV>,
    pub worktree: Seq<FileV>,
    pub integration: Seq<FileV>,
    pub context_lines: int,
}

impl View for Project {
    type V = ProjectV;

    open spec fn view(&self) -> ProjectV {
        ProjectV {
            store: self.store@,
            branches: self.branches.deep_view(),
            worktree: self.worktree@,
            integration: self.integration@,
            context_lines: self.context_lines as int,
        }
    }
}

/// The project invariant: the store's parent pointers are well formed and the
/// branch list is consistent with it.
pub open spec fn project_wf(p: ProjectV) -> bool {
    &&& store_parents_ok(p.store.commits)
    &&& branches_wf(p.branches, p.store.commits.len() as int)
}

/// The uncommitted diff a project reconciles against: working tree versus
/// integration tree.
pub open spec fn spec_live_diff(p: ProjectV) -> Seq<FileDiffV> {
    spec_tree_diff(p.integration, p.worktree)
}

/// Branch views with every selected-for-changes flag cleared.
pub open spec fn spec_cleared(bs: Seq<BranchV>) -> Seq<BranchV> {
    Seq::new(bs.len(), |i: int| BranchV { selected_for_changes: false, ..bs[i] })
}

/// Clones the locks of a claim.
fn clone_locks(v: &Vec<Lock>, i: usize) -> (r: Vec<Lock>)
    requires
        i <= v.len(),
    ensures
        r.deep_view() == v.deep_view().subrange(i as int, v.len() as int),
    decreases v.len() - i,
{
    proof {
        lemma_vec_deep(v);
    }
    if i >= v.len() {
        let r: Vec<Lock> = Vec::new();
        proof {
            assert(r.deep_view() =~= v.deep_view().subrange(i as int, v.len() as int));
        }
        r
    } else {
        let rest = clone_locks(v, i + 1);
        let r = cons(Lock { commit_id: v[i].commit_id, branch_id: v[i].branch_id }, rest);
        proof {
            assert(r.deep_view() =~= v.deep_view().subrange(i as int, v.len() as int));
        }
        r
    }
}

/// Clones one hunk claim.
fn clone_claim(c: &HunkClaim) -> (r: HunkClaim)
    ensures
        r@ == c@,
{
    let r = HunkClaim {
        hunk: clone_hunk(&c.hunk),
        locked: c.locked,
        locked_to: clone_locks(&c.locked_to, 0),
    };
    proof {
        assert(c.locked_to.deep_view().subrange(0, c.locked_to.len() as int) =~= c
            .locked_to
            .deep_view());
    }
    r
}

fn clone_claims(v: &Vec<HunkClaim>, i: usize) -> (r: Vec<HunkClaim>)
    requires
        i <= v.len(),
    ensures
        r.deep_view() == v.deep_view().subrange(i as int, v.len() as int),
    decreases v.len() - i,
{
    proof {
        lemma_vec_deep(v);
    }
    if i >= v.len() {
        let r: Vec<HunkClaim> = Vec::new();
        proof {
            assert(r.deep_view() =~= v.deep_view().subrange(i as int, v.len() as int));
        }
        r
    } else {
        let rest = clone_claims(v, i + 1);
        let r = cons(clone_claim(&v[i]), rest);
        proof {
            assert(r.deep_view() =~= v.deep_view().subrange(i as int, v.len() as int));
        }
        r
    }
}

fn clone_file_claims(v: &Vec<FileClaim>, i: usize) -> (r: Vec<FileClaim>)
    requires
        i <= v.len(),
    ensures
        r.deep_view() == v.deep_view().subrange(i as int, v.len() as int),
    decreases v.len() - i,
{
    proof {
        lemma_vec_deep(v);
    }
    if i >= v.len() {
        let r: Vec<FileClaim> = Vec::new();
        proof {
            assert(r.deep_view() =~= v.deep_view().subrange(i as int, v.len() as int));
        }
        r
    } else {
        let rest = clone_file_claims(v, i + 1);
        let fc = FileClaim { path: v[i].path.clone(), hunks: clone_claims(&v[i].hunks, 0) };
        proof {
            assert(v[i as int].hunks.deep_view().subrange(0, v[i as int].hunks.len() as int) =~= v[
                i as int].hunks.deep_view());
        }
        let r = cons(fc, rest);
        proof {
            assert(r.deep_view() =~= v.deep_view().subrange(i as int, v.len() as int));
        }
        r
    }
}

/// Clones one branch, optionally clearing its selected-for-changes flag.
fn clone_branch(b: &VirtualBranch, clear_selected: bool) -> (r: VirtualBranch)
    ensures
        !clear_selected ==> r@ == b@,
        clear_selected ==> r@ == (BranchV { selected_for_changes: false, ..b@ }),
{
    let r = VirtualBranch {
        id: b.id,
        name: b.name.clone(),
        head: b.head,
        selected_for_changes: if clear_selected {
            false
        } else {
            b.selected_for_changes
        },
        files: clone_file_claims(&b.files, 0),
    };
    proof {
        assert(b.files.deep_view().subrange(0, b.files.len() as int) =~= b.files.deep_view());
    }
    r
}

/// Clones the branch list from `i` on, clearing every selected flag when
/// `clear_selected` holds.
fn clone_branches(v: &Vec<VirtualBranch>, clear_selected: bool, i: usize) -> (r: Vec<VirtualBranch>)
    requires
        i <= v.len(),
    ensures
        !clear_selected ==> r.deep_view() == v.deep_view().subrange(i as int, v.len() as int),
        clear_selected ==> r.deep_view() == spec_cleared(v.deep_view()).subrange(
            i as int,
            v.len() as int,
        ),
    decreases v.len() - i,
{
    proof {
        lemma_vec_deep(v);
    }
    if i >= v.len() {
        let r: Vec<VirtualBranch> = Vec::new();
        proof {
            assert(r.deep_view() =~= v.deep_view().subrange(i as int, v.len() as int));
            assert(r.deep_view() =~= spec_cleared(v.deep_view()).subrange(
                i as int,
                v.len() as int,
            ));
        }
        r
    } else {
        let rest = clone_branches(v, clear_selected, i + 1);
        let r = cons(clone_branch(&v[i], clear_selected), rest);
        proof {
            if clear_selected {
                assert(r.deep_view() =~= spec_cleared(v.deep_view()).subrange(
                    i as int,
                    v.len() as int,
                ));
            } else {
                assert(r.deep_view() =~= v.deep_view().subrange(i as int, v.len() as int));
            }
        }
        r
    }
}

impl Project {
    /// Creates a project whose base commit holds the given files; the working
    /// tree starts identical to it, no branch exists yet, and the context
    /// window is the default.
    pub fn new(files: Vec<TreeFile>) -> (p: Project)
        ensures
            project_wf(p@),
            p@.store.commits.len() == 1,
            p@.store.commits[0].tree == files.deep_view(),
            !p@.store.fail_next_write,
            p@.branches.len() == 0,
            p@.worktree == files.deep_view(),
            p@.integration == files.deep_view(),
            p@.context_lines == DEFAULT_CONTEXT as int,
    {
        let base_tree = Tree { files };
        let worktree = clone_tree(&base_tree);
        let integration = clone_tree(&base_tree);
        let base = CommitRecord {
            parent: 0,
            message: String::new(),
            tree: base_tree,
            changes: Vec::new(),
        };
        let mut commits: Vec<CommitRecord> = Vec::new();
        commits.push(base);
        let store = CommitStore { commits, fail_next_write: false };
        let p = Project {
            store,
            branches: Vec::new(),
            worktree,
            integration,
            context_lines: DEFAULT_CONTEXT,
        };
        proof {
            lemma_vec_deep(&p.store.commits);
            lemma_vec_deep(&p.branches);
            assert(p@.branches =~= Seq::<BranchV>::empty());
        }
        p
    }

    /// Arms or clears the object-store failure injection: when armed, the
    /// next commit write fails as an I/O fault would.
    pub fn set_fail_next_write(&mut self, v: bool)
        ensures
            final(self)@ == (ProjectV {
                store: StoreV { fail_next_write: v, ..old(self)@.store },
                ..old(self)@
            }),
    {
        self.store.fail_next_write = v;
    }

    /// Writes (or creates) a file of the working tree, as the user's editor
    /// would. Everything else is untouched.
    pub fn write_file(&mut self, path: String, lines: Vec<String>)
        ensures
            final(self)@ == (ProjectV { worktree: final(self)@.worktree, ..old(self)@ }),
            match spec_find(old(self)@.worktree, path@, 0) {
                Some(k) => final(self)@.worktree == old(self)@.worktree.update(
                    k,
                    FileV { path: path@, lines: lines.deep_view() },
                ),
                None => final(self)@.worktree == old(self)@.worktree.push(
                    FileV { path: path@, lines: lines.deep_view() },
                ),
            },
    {
        let nf = TreeFile { path, lines };
        let ghost nfg = nf;
        match self.worktree.find_from(&nf.path, 0) {
            Some(k) => {
                proof {
                    crate::tree::lemma_find_bounds(self.worktree@, nf.path@, 0);
                }
                let ghost files0 = self.worktree.files@;
                self.worktree.files[k] = nf;
                proof {
                    lemma_vec_deep(&self.worktree.files);
                    assert(self.worktree.files@ == files0.update(k as int, nfg));
                    lemma_deep_update(files0, k as int, nfg);
                }
            },
            None => {
                let ghost files0 = self.worktree.files@;
                self.worktree.files.push(nf);
                proof {
                    lemma_vec_deep(&self.worktree.files);
                    assert(self.worktree.files@ == files0.push(nfg));
                    lemma_deep_push(files0, nfg);
                }
            },
        }
    }

    /// Creates a virtual branch. Its id is its position; it starts on the
    /// base with no claims. Selecting it for changes deselects every other
    /// branch, keeping the at-most-one invariant.
    pub fn create_virtual_branch(&mut self, name: String, selected_for_changes: bool) -> (id:
        usize)
        requires
            project_wf(old(self)@),
        ensures
            project_wf(final(self)@),
            id == old(self)@.branches.len(),
            final(self)@ == (ProjectV { branches: final(self)@.branches, ..old(self)@ }),
            final(self)@.branches == (if selected_for_changes {
                spec_cleared(old(self)@.branches)
            } else {
                old(self)@.branches
            }).push(
                BranchV {
                    id: old(self)@.branches.len() as int,
                    name: name@,
                    head: 0,
                    selected_for_changes: selected_for_changes,
                    files: Seq::empty(),
                },
            ),
    {
        let id = self.branches.len();
        let nb = VirtualBranch {
            id,
            name,
            head: 0,
            selected_for_changes,
            files: Vec::new(),
        };
        let ghost nbg = nb;
        let mut bs = clone_branches(&self.branches, selected_for_changes, 0);
        let ghost bs0 = bs@;
        bs.push(nb);
        proof {
            lemma_vec_deep(&bs);
            assert(bs@ == bs0.push(nbg));
            lemma_deep_push(bs0, nbg);
            assert(nbg@.files =~= Seq::<FileClaimV>::empty());
        }
        self.branches = bs;
        proof {
            let obs = old(self)@.branches;
            let base = if selected_for_changes {
                spec_cleared(obs)
            } else {
                obs
            };
            assert(base.subrange(0, obs.len() as int) =~= base);
            assert(self.branches.deep_view() =~= base.push(nbg@));
            assert(branches_wf(final(self)@.branches, final(self)@.store.commits.len() as int));
        }
        id
    }

    /// Updates a branch's name or its selected-for-changes flag. Selecting a
    /// branch deselects every other; deselecting touches only the branch
    /// itself. Fails exactly when the branch does not exist, changing
    /// nothing.
    pub fn update_virtual_branch(
        &mut self,
        id: usize,
        name: Option<String>,
        selected_for_changes: Option<bool>,
    ) -> (r: Result<(), EngineError>)
        requires
            project_wf(old(self)@),
        ensures
            project_wf(final(self)@),
            id >= old(self)@.branches.len() ==> r == Result::<(), EngineError>::Err(
                EngineError::BranchNotFound,
            ) && final(self)@ == old(self)@,
            id < old(self)@.branches.len() ==> r == Result::<(), EngineError>::Ok(())
                && final(self)@ == (ProjectV { branches: final(self)@.branches, ..old(self)@ })
                && final(self)@.branches == (if selected_for_changes == Some(true) {
                spec_cleared(old(self)@.branches)
            } else {
                old(self)@.branches
            }).update(
                id as int,
                BranchV {
                    name: match name {
                        Some(n) => n@,
                        None => old(self)@.branches[id as int].name,
                    },
                    selected_for_changes: match selected_for_changes {
                        Some(v) => v,
                        None => old(self)@.branches[id as int].selected_for_changes,
                    },
                    ..old(self)@.branches[id as int]
                },
            ),
    {
        if id >= self.branches.len() {
            return Err(EngineError::BranchNotFound);
        }
        let clear = match selected_for_changes {
            Some(v) => v,
            None => false,
        };
        let mut bs = clone_branches(&self.branches, clear, 0);
        let b = &self.branches[id];
        let nb = VirtualBranch {
            id: b.id,
            name: match name {
                Some(n) => n,
                None => b.name.clone(),
            },
            head: b.head,
            selected_for_changes: match selected_for_changes {
                Some(v) => v,
                None => b.selected_for_changes,
            },
            files: clone_file_claims(&b.files, 0),
        };
        let ghost nbg = nb;
        let ghost bs0 = bs@;
        proof {
            lemma_vec_deep(&self.branches);
            assert(b.files.deep_view().subrange(0, b.files.len() as int) =~= b.files.deep_view());
        }
        proof {
            lemma_vec_deep(&bs);
            assert(bs.deep_view().len() == bs@.len());
            assert(bs.len() == self.branches.len());
        }
        bs[id] = nb;
        proof {
            lemma_vec_deep(&bs);
            assert(bs@ == bs0.update(id as int, nbg));
            lemma_deep_update(bs0, id as int, nbg);
        }
        self.branches = bs;
        proof {
            let obs = old(self)@.branches;
            let base = if selected_for_changes == Some(true) {
                spec_cleared(obs)
            } else {
                obs
            };
            assert(base.subrange(0, obs.len() as int) =~= base);
            assert(self.branches.deep_view() =~= base.update(
                id as int,
                BranchV {
                    name: match name {
                        Some(n) => n@,
                        None => obs[id as int].name,
                    },
                    selected_for_changes: match selected_for_changes {
                        Some(v) => v,
                        None => obs[id as int].selected_for_changes,
                    },
                    ..obs[id as int]
                },
            ));
            assert(branches_wf(final(self)@.branches, final(self)@.store.commits.len() as int));
        }
        Ok(())
    }

    /// The commit a push of the branch would publish: its current head. The
    /// remote transport that carries it is a collaborator outside the engine,
    /// which contributes nothing to a push beyond this id. Fails exactly when
    /// the branch does not exist.
    pub fn branch_head(&self, branch_id: usize) -> (r: Result<usize, EngineError>)
        ensures
            branch_id < self.branches.len() ==> r == Result::<usize, EngineError>::Ok(
                self.branches@[branch_id as int].head,
            ),
            branch_id >= self.branches.len() ==> r == Result::<usize, EngineError>::Err(
                EngineError::BranchNotFound,
            ),
    {
        if branch_id < self.branches.len() {
            Ok(self.branches[branch_id].head)
        } else {
            Err(EngineError::BranchNotFound)
        }
    }

    /// Lists the virtual branches with freshly reconciled claims and locks,
    /// persisting the reconciled ownership, as every read does.
    pub fn list_virtual_branches(&mut self) -> (r: Vec<VirtualBranch>)
        requires
            project_wf(old(self)@),
        ensures
            project_wf(final(self)@),
            r.deep_view() == spec_reconcile(
                old(self)@.store.commits,
                old(self)@.branches,
                spec_live_diff(old(self)@),
                old(self)@.context_lines,
            ),
            final(self)@ == (ProjectV { branches: r.deep_view(), ..old(self)@ }),
    {
        let diff = tree_diff(&self.integration, &self.worktree);
        let recd = reconcile(&self.store, &self.branches, &diff, self.context_lines);
        let kept = reconcile(&self.store, &self.branches, &diff, self.context_lines);
        self.branches = kept;
        proof {
            let obs = old(self)@.branches;
            let n = old(self)@.store.commits.len() as int;
            let rec = spec_reconcile(
                old(self)@.store.commits,
                obs,
                spec_live_diff(old(self)@),
                old(self)@.context_lines,
            );
            assert forall|i: int| 0 <= i < rec.len() implies (#[trigger] rec[i]).id == i && 0
                <= rec[i].head < n && rec[i].selected_for_changes == obs[i].selected_for_changes by {
                assert(obs[i].id == i);
            }
            assert(branches_wf(rec, n));
            assert(final(self)@ =~= (ProjectV { branches: rec, ..old(self)@ }));
        }
        recd
    }
}

/// One requested hunk of an explicit commit selection, identified by its file
/// and its current range in the working tree.
pub struct ClaimRequest {
    pub path: String,
    pub start: usize,
    pub lines: usize,
}

/// Model of a claim request.
#[verifier::ext_equal]
pub struct ReqV {
    pub path: Seq<char>,
    pub start: int,
    pub lines: int,
}

impl View for ClaimRequest {
    type V = ReqV;

    open spec fn view(&self) -> ReqV {
        ReqV { path: self.path@, start: self.start as int, lines: self.lines as int }
    }
}

impl DeepView for ClaimRequest {
    type V = ReqV;

    open spec fn deep_view(&self) -> ReqV {
        self.view()
    }
}

/// Whether request `q` names the claim of `h` in file `path`.
pub open spec fn spec_req_names(path: Seq<char>, h: HunkV, q: ReqV) -> bool {
    q.path == path && q.start == h.new_start && q.lines == h.new_lines
}

/// Whether some request from `k` on names the claim of `h`.
pub open spec fn spec_any_req(qs: Seq<ReqV>, path: Seq<char>, h: HunkV, k: int) -> bool
    decreases qs.len() - k,
{
    if k < 0 || k >= qs.len() {
        false
    } else if spec_req_names(path, h, qs[k]) {
        true
    } else {
        spec_any_req(qs, path, h, k + 1)
    }
}

/// Whether the claim of `h` belongs to the commit selection: with no explicit
/// selection every claim does.
pub open spec fn spec_selected(path: Seq<char>, h: HunkV, only: Option<Seq<ReqV>>) -> bool {
    match only {
        None => true,
        Some(qs) => spec_any_req(qs, path, h, 0),
    }
}

/// The hunks of one file claim that belong to the selection, from `k` on.
pub open spec fn spec_selected_hunks(
    path: Seq<char>,
    hs: Seq<crate::branch::ClaimV>,
    only: Option<Seq<ReqV>>,
    k: int,
) -> Seq<HunkV>
    decreases hs.len() - k,
{
    if k < 0 || k >= hs.len() {
        Seq::empty()
    } else {
        let rest = spec_selected_hunks(path, hs, only, k + 1);
        if spec_selected(path, hs[k].hunk, only) {
            seq![hs[k].hunk] + rest
        } else {
            rest
        }
    }
}

/// The hunks of one file claim that stay uncommitted, from `k` on.
pub open spec fn spec_remaining_hunks(
    path: Seq<char>,
    hs: Seq<crate::branch::ClaimV>,
    only: Option<Seq<ReqV>>,
    k: int,
) -> Seq<crate::branch::ClaimV>
    decreases hs.len() - k,
{
    if k < 0 || k >= hs.len() {
        Seq::empty()
    } else {
        let rest = spec_remaining_hunks(path, hs, only, k + 1);
        if spec_selected(path, hs[k].hunk, only) {
            rest
        } else {
            seq![hs[k]] + rest
        }
    }
}

/// The file diffs to commit: the selected hunks of each file claim, skipping
/// files left without a selected hunk.
pub open spec fn spec_selected_files(
    files: Seq<FileClaimV>,
    only: Option<Seq<ReqV>>,
    j: int,
) -> Seq<FileDiffV>
    decreases files.len() - j,
{
    if j < 0 || j >= files.len() {
        Seq::empty()
    } else {
        let rest = spec_selected_files(files, only, j + 1);
        let sh = spec_selected_hunks(files[j].path, files[j].hunks, only, 0);
        if sh.len() > 0 {
            seq![FileDiffV { path: files[j].path, hunks: sh }] + rest
        } else {
            rest
        }
    }
}

/// The file claims that stay after the commit: the unselected hunks of each
/// file, skipping files left empty.
pub open spec fn spec_remaining_files(
    files: Seq<FileClaimV>,
    only: Option<Seq<ReqV>>,
    j: int,
) -> Seq<FileClaimV>
    decreases files.len() - j,
{
    if j < 0 || j >= files.len() {
        Seq::empty()
    } else {
        let rest = spec_remaining_files(files, only, j + 1);
        let rh = spec_remaining_hunks(files[j].path, files[j].hunks, only, 0);
        if rh.len() > 0 {
            seq![FileClaimV { path: files[j].path, hunks: rh }] + rest
        } else {
            rest
        }
    }
}

/// Whether request `q` names a claim the branch holds, scanning `hs` from `k`.
pub open spec fn spec_req_in_claims(path: Seq<char>, hs: Seq<crate::branch::ClaimV>, q: ReqV, k: int) -> bool
    decreases hs.len() - k,
{
    if k < 0 || k >= hs.len() {
        false
    } else if spec_req_names(path, hs[k].hunk, q) {
        true
    } else {
        spec_req_in_claims(path, hs, q, k + 1)
    }
}

/// Whether request `q` names a claim within some file claim, from `j` on.
pub open spec fn spec_req_matched(files: Seq<FileClaimV>, q: ReqV, j: int) -> bool
    decreases files.len() - j,
{
    if j < 0 || j >= files.len() {
        false
    } else if spec_req_in_claims(files[j].path, files[j].hunks, q, 0) {
        true
    } else {
        spec_req_matched(files, q, j + 1)
    }
}

/// Whether every request of the selection names a claim the branch holds.
pub open spec fn spec_all_matched(files: Seq<FileClaimV>, only: Option<Seq<ReqV>>, i: int) -> bool
    decreases (match only {
        Some(qs) => qs.len() - i,
        None => 0,
    }),
{
    match only {
        None => true,
        Some(qs) => if i < 0 || i >= qs.len() {
            true
        } else {
            spec_req_matched(files, qs[i], 0) && spec_all_matched(files, only, i + 1)
        },
    }
}

fn req_names(path: &String, h: &DiffHunk, q: &ClaimRequest) -> (r: bool)
    ensures
        r == spec_req_names(path@, h@, q@),
{
    q.path == *path && q.start == h.new_start && q.lines == h.new_lines
}

fn any_req(qs: &Vec<ClaimRequest>, path: &String, h: &DiffHunk, k: usize) -> (r: bool)
    requires
        k <= qs.len(),
    ensures
        r == spec_any_req(qs.deep_view(), path@, h@, k as int),
    decreases qs.len() - k,
{
    proof {
        lemma_vec_deep(qs);
    }
    if k >= qs.len() {
        false
    } else if req_names(path, h, &qs[k]) {
        true
    } else {
        any_req(qs, path, h, k + 1)
    }
}

fn is_selected(path: &String, h: &DiffHunk, only: &Option<Vec<ClaimRequest>>) -> (r: bool)
    ensures
        r == spec_selected(path@, h@, only.deep_view()),
{
    match only {
        None => true,
        Some(qs) => any_req(qs, path, h, 0),
    }
}

fn selected_hunks_from(
    path: &String,
    hs: &Vec<HunkClaim>,
    only: &Option<Vec<ClaimRequest>>,
    k: usize,
) -> (r: Vec<DiffHunk>)
    requires
        k <= hs.len(),
    ensures
        r.deep_view() == spec_selected_hunks(path@, hs.deep_view(), only.deep_view(), k as int),
    decreases hs.len() - k,
{
    proof {
        lemma_vec_deep(hs);
    }
    if k >= hs.len() {
        let r: Vec<DiffHunk> = Vec::new();
        proof {
            assert(r.deep_view() =~= Seq::<HunkV>::empty());
        }
        r
    } else {
        let rest = selected_hunks_from(path, hs, only, k + 1);
        if is_selected(path, &hs[k].hunk, only) {
            let r = cons(clone_hunk(&hs[k].hunk), rest);
            proof {
                assert(r.deep_view() =~= spec_selected_hunks(
                    path@,
                    hs.deep_view(),
                    only.deep_view(),
                    k as int,
                ));
            }
            r
        } else {
            rest
        }
    }
}

fn remaining_hunks_from(
    path: &String,
    hs: &Vec<HunkClaim>,
    only: &Option<Vec<ClaimRequest>>,
    k: usize,
) -> (r: Vec<HunkClaim>)
    requires
        k <= hs.len(),
    ensures
        r.deep_view() == spec_remaining_hunks(path@, hs.deep_view(), only.deep_view(), k as int),
    decreases hs.len() - k,
{
    proof {
        lemma_vec_deep(hs);
    }
    if k >= hs.len() {
        let r: Vec<HunkClaim> = Vec::new();
        proof {
            assert(r.deep_view() =~= Seq::<crate::branch::ClaimV>::empty());
        }
        r
    } else {
        let rest = remaining_hunks_from(path, hs, only, k + 1);
        if is_selected(path, &hs[k].hunk, only) {
            rest
        } else {
            let r = cons(clone_claim(&hs[k]), rest);
            proof {
                assert(r.deep_view() =~= spec_remaining_hunks(
                    path@,
                    hs.deep_view(),
                    only.deep_view(),
                    k as int,
                ));
            }
            r
        }
    }
}

fn selected_files_from(
    files: &Vec<FileClaim>,
    only: &Option<Vec<ClaimRequest>>,
    j: usize,
) -> (r: Vec<FileDiff>)
    requires
        j <= files.len(),
    ensures
        r.deep_view() == spec_selected_files(files.deep_view(), only.deep_view(), j as int),
    decreases files.len() - j,
{
    proof {
        lemma_vec_deep(files);
    }
    if j >= files.len() {
        let r: Vec<FileDiff> = Vec::new();
        proof {
            assert(r.deep_view() =~= Seq::<FileDiffV>::empty());
        }
        r
    } else {
        let rest = selected_files_from(files, only, j + 1);
        let sh = selected_hunks_from(&files[j].path, &files[j].hunks, only, 0);
        if sh.len() > 0 {
            let fd = FileDiff { path: files[j].path.clone(), hunks: sh };
            let r = cons(fd, rest);
            proof {
                assert(r.deep_view() =~= spec_selected_files(
                    files.deep_view(),
                    only.deep_view(),
                    j as int,
                ));
            }
            r
        } else {
            proof {
                assert(sh.deep_view().len() == 0);
            }
            rest
        }
    }
}

fn remaining_files_from(
    files: &Vec<FileClaim>,
    only: &Option<Vec<ClaimRequest>>,
    j: usize,
) -> (r: Vec<FileClaim>)
    requires
        j <= files.len(),
    ensures
        r.deep_view() == spec_remaining_files(files.deep_view(), only.deep_view(), j as int),
    decreases files.len() - j,
{
    proof {
        lemma_vec_deep(files);
    }
    if j >= files.len() {
        let r: Vec<FileClaim> = Vec::new();
        proof {
            assert(r.deep_view() =~= Seq::<FileClaimV>::empty());
        }
        r
    } else {
        let rest = remaining_files_from(files, only, j + 1);
        let rh = remaining_hunks_from(&files[j].path, &files[j].hunks, only, 0);
        if rh.len() > 0 {
            let fc = FileClaim { path: files[j].path.clone(), hunks: rh };
            let r = cons(fc, rest);
            proof {
                assert(r.deep_view() =~= spec_remaining_files(
                    files.deep_view(),
                    only.deep_view(),
                    j as int,
                ));
            }
            r
        } else {
            proof {
                assert(rh.deep_view().len() == 0);
            }
            rest
        }
    }
}

fn req_in_claims_from(path: &String, hs: &Vec<HunkClaim>, q: &ClaimRequest, k: usize) -> (r: bool)
    requires
        k <= hs.len(),
    ensures
        r == spec_req_in_claims(path@, hs.deep_view(), q@, k as int),
    decreases hs.len() - k,
{
    proof {
        lemma_vec_deep(hs);
    }
    if k >= hs.len() {
        false
    } else if req_names(path, &hs[k].hunk, q) {
        true
    } else {
        req_in_claims_from(path, hs, q, k + 1)
    }
}

fn req_matched_from(files: &Vec<FileClaim>, q: &ClaimRequest, j: usize) -> (r: bool)
    requires
        j <= files.len(),
    ensures
        r == spec_req_matched(files.deep_view(), q@, j as int),
    decreases files.len() - j,
{
    proof {
        lemma_vec_deep(files);
    }
    if j >= files.len() {
        false
    } else if req_in_claims_from(&files[j].path, &files[j].hunks, q, 0) {
        true
    } else {
        req_matched_from(files, q, j + 1)
    }
}

fn all_matched_from(files: &Vec<FileClaim>, only: &Option<Vec<ClaimRequest>>, i: usize) -> (r:
    bool)
    requires
        (only matches Some(qs) ==> i <= qs.len()),
    ensures
        r == spec_all_matched(files.deep_view(), only.deep_view(), i as int),
    decreases (match only {
        Some(qs) => qs.len() - i,
        None => 0,
    }),
{
    match only {
        None => true,
        Some(qs) => {
            proof {
                lemma_vec_deep(qs);
            }
            if i >= qs.len() {
                true
            } else {
                req_matched_from(files, &qs[i], 0) && all_matched_from(files, only, i + 1)
            }
        },
    }
}

/// Clones a list of diff hunks from `i` on.
fn clone_hunks(v: &Vec<DiffHunk>, i: usize) -> (r: Vec<DiffHunk>)
    requires
        i <= v.len(),
    ensures
        r.deep_view() == v.deep_view().subrange(i as int, v.len() as int),
    decreases v.len() - i,
{
    proof {
        lemma_vec_deep(v);
    }
    if i >= v.len() {
        let r: Vec<DiffHunk> = Vec::new();
        proof {
            assert(r.deep_view() =~= v.deep_view().subrange(i as int, v.len() as int));
        }
        r
    } else {
        let rest = clone_hunks(v, i + 1);
        let r = cons(clone_hunk(&v[i]), rest);
        proof {
            assert(r.deep_view() =~= v.deep_view().subrange(i as int, v.len() as int));
        }
        r
    }
}

/// Clones a list of file diffs from `i` on.
fn clone_diffs(v: &Vec<FileDiff>, i: usize) -> (r: Vec<FileDiff>)
    requires
        i <= v.len(),
    ensures
        r.deep_view() == v.deep_view().subrange(i as int, v.len() as int),
    decreases v.len() - i,
{
    proof {
        lemma_vec_deep(v);
    }
    if i >= v.len() {
        let r: Vec<FileDiff> = Vec::new();
        proof {
            assert(r.deep_view() =~= v.deep_view().subrange(i as int, v.len() as int));
        }
        r
    } else {
        let rest = clone_diffs(v, i + 1);
        let fd = FileDiff { path: v[i].path.clone(), hunks: clone_hunks(&v[i].hunks, 0) };
        proof {
            assert(v[i as int].hunks.deep_view().subrange(0, v[i as int].hunks.len() as int) =~= v[
                i as int].hunks.deep_view());
        }
        let r = cons(fd, rest);
        proof {
            assert(r.deep_view() =~= v.deep_view().subrange(i as int, v.len() as int));
        }
        r
    }
}

/// The tree after applying, in order, the changes of the commits named by
/// `ch` from index `j` on.
pub open spec fn spec_apply_chain(s: Seq<CommitV>, t: Seq<FileV>, ch: Seq<int>, j: int) -> Option<
    Seq<FileV>,
>
    decreases ch.len() - j,
{
    if j < 0 || j >= ch.len() {
        Some(t)
    } else if 0 <= ch[j] < s.len() {
        match spec_apply_diffs(t, s[ch[j]].changes, 0) {
            Some(t2) => spec_apply_chain(s, t2, ch, j + 1),
            None => None,
        }
    } else {
        None
    }
}

/// The integration tree rebuilt from scratch: the base tree with every
/// branch's history (from `i` on) replayed oldest commit first.
pub open spec fn spec_rebuild_from(s: Seq<CommitV>, bs: Seq<BranchV>, t: Seq<FileV>, i: int) -> Option<
    Seq<FileV>,
>
    decreases bs.len() - i,
{
    if i < 0 || i >= bs.len() {
        Some(t)
    } else {
        match spec_apply_chain(s, t, spec_chain(s, bs[i].head), 0) {
            Some(t2) => spec_rebuild_from(s, bs, t2, i + 1),
            None => None,
        }
    }
}

/// The integration tree of a store and branch set.
pub open spec fn spec_rebuild(s: Seq<CommitV>, bs: Seq<BranchV>) -> Option<Seq<FileV>> {
    spec_rebuild_from(s, bs, s[0].tree, 0)
}

fn apply_chain(store: &CommitStore, t: &Tree, ch: &Vec<usize>, j: usize) -> (r: Option<Tree>)
    requires
        j <= ch.len(),
        forall|k: int| 0 <= k < ch.len() ==> #[trigger] ch@[k] < store.commits.len(),
    ensures
        match r {
            Some(t2) => spec_apply_chain(store@.commits, t@, seq_int(ch@), j as int) == Some(t2@),
            None => spec_apply_chain(store@.commits, t@, seq_int(ch@), j as int) is None,
        },
    decreases ch.len() - j,
{
    proof {
        lemma_vec_deep(&store.commits);
    }
    if j >= ch.len() {
        Some(clone_tree(t))
    } else {
        let c = ch[j];
        proof {
            assert(seq_int(ch@)[j as int] == c as int);
        }
        match apply_diffs(t, &store.commits[c].changes, 0) {
            Some(t2) => apply_chain(store, &t2, ch, j + 1),
            None => None,
        }
    }
}

fn rebuild_from(store: &CommitStore, bs: &Vec<VirtualBranch>, t: &Tree, i: usize) -> (r: Option<
    Tree,
>)
    requires
        store_parents_ok(store@.commits),
        heads_ok(bs.deep_view(), store@.commits.len() as int),
        i <= bs.len(),
    ensures
        match r {
            Some(t2) => spec_rebuild_from(store@.commits, bs.deep_view(), t@, i as int) == Some(
                t2@,
            ),
            None => spec_rebuild_from(store@.commits, bs.deep_view(), t@, i as int) is None,
        },
    decreases bs.len() - i,
{
    proof {
        lemma_vec_deep(bs);
    }
    if i >= bs.len() {
        Some(clone_tree(t))
    } else {
        proof {
            assert(bs.deep_view()[i as int].head == bs@[i as int].head as int);
        }
        let ch = store.chain_of(bs[i].head);
        match apply_chain(store, t, &ch, 0) {
            Some(t2) => rebuild_from(store, bs, &t2, i + 1),
            None => None,
        }
    }
}

/// Rebuilds the integration tree: base plus every branch's commits.
fn rebuild_integration(store: &CommitStore, bs: &Vec<VirtualBranch>) -> (r: Option<Tree>)
    requires
        store_parents_ok(store@.commits),
        heads_ok(bs.deep_view(), store@.commits.len() as int),
    ensures
        match r {
            Some(t2) => spec_rebuild(store@.commits, bs.deep_view()) == Some(t2@),
            None => spec_rebuild(store@.commits, bs.deep_view()) is None,
        },
{
    proof {
        lemma_vec_deep(&store.commits);
        assert(store@.commits[0].tree == store.commits@[0].tree@);
    }
    rebuild_from(store, bs, &store.commits[0].tree, 0)
}

impl Project {
    /// Materializes a commit from the branch's claims: the explicit selection
    /// when one is given, otherwise every claim the branch holds, locked ones
    /// included — locks are advisory. The selected hunks are applied onto the
    /// branch's head tree, the commit is written, the branch head advances,
    /// and the committed claims leave the uncommitted state. On any failure
    /// — unknown branch, a requested hunk the branch does not own, a hunk
    /// that does not apply, or an object-store fault — nothing changes: the
    /// head is repointed only after every other step has succeeded.
    pub fn create_commit(
        &mut self,
        branch_id: usize,
        message: String,
        only: Option<Vec<ClaimRequest>>,
    ) -> (r: Result<usize, EngineError>)
        requires
            project_wf(old(self)@),
        ensures
            project_wf(final(self)@),
            r is Err ==> final(self)@.branches == old(self)@.branches && final(self)@.store.commits
                == old(self)@.store.commits && final(self)@.integration == old(self)@.integration
                && final(self)@.worktree == old(self)@.worktree,
            branch_id >= old(self)@.branches.len() <==> r == Result::<usize, EngineError>::Err(
                EngineError::BranchNotFound,
            ),
            branch_id < old(self)@.branches.len() ==> ({
                let p = old(self)@;
                let recd = spec_reconcile(p.store.commits, p.branches, spec_live_diff(p),
                    p.context_lines);
                let files = recd[branch_id as int].files;
                let onlyv = only.deep_view();
                let sel = spec_selected_files(files, onlyv, 0);
                let head = p.branches[branch_id as int].head;
                let new_tree = spec_apply_diffs(p.store.commits[head].tree, sel, 0);
                let new_int = spec_apply_diffs(p.integration, sel, 0);
                &&& (!spec_all_matched(files, onlyv, 0) <==> r == Result::<usize,
                    EngineError>::Err(EngineError::Ownership))
                &&& (spec_all_matched(files, onlyv, 0) && (new_tree is None || new_int is None
                    || p.store.fail_next_write) <==> r == Result::<usize, EngineError>::Err(
                    EngineError::Object,
                ))
                &&& (spec_all_matched(files, onlyv, 0) && new_tree is Some && new_int is Some
                    && !p.store.fail_next_write ==> r == Result::<usize, EngineError>::Ok(
                    p.store.commits.len() as usize,
                ) && final(self)@.store.commits == p.store.commits.push(
                    CommitV {
                        parent: head,
                        message: message@,
                        tree: new_tree.unwrap(),
                        changes: sel,
                    },
                ) && final(self)@.branches == recd.update(
                    branch_id as int,
                    BranchV {
                        head: p.store.commits.len() as int,
                        files: spec_remaining_files(files, onlyv, 0),
                        ..recd[branch_id as int]
                    },
                ) && final(self)@.integration == new_int.unwrap() && final(self)@.worktree
                    == p.worktree && !final(self)@.store.fail_next_write)
            }),
    {
        if branch_id >= self.branches.len() {
            return Err(EngineError::BranchNotFound);
        }
        let diff = tree_diff(&self.integration, &self.worktree);
        let recd = reconcile(&self.store, &self.branches, &diff, self.context_lines);
        proof {
            lemma_vec_deep(&recd);
            lemma_vec_deep(&self.branches);
            assert(recd.deep_view().len() == recd@.len());
        }
        let matched = all_matched_from(&recd[branch_id].files, &only, 0);
        if !matched {
            return Err(EngineError::Ownership);
        }
        let sel = selected_files_from(&recd[branch_id].files, &only, 0);
        let head = self.branches[branch_id].head;
        proof {
            assert(0 <= old(self)@.branches[branch_id as int].head < old(
                self,
            )@.store.commits.len());
            lemma_vec_deep(&self.store.commits);
        }
        let new_tree = match apply_diffs(&self.store.commits[head].tree, &sel, 0) {
            Some(t) => t,
            None => {
                return Err(EngineError::Object);
            },
        };
        let new_int = match apply_diffs(&self.integration, &sel, 0) {
            Some(t) => t,
            None => {
                return Err(EngineError::Object);
            },
        };
        let changes = clone_diffs(&sel, 0);
        proof {
            assert(sel.deep_view().subrange(0, sel.len() as int) =~= sel.deep_view());
        }
        let rec = CommitRecord { parent: head, message, tree: new_tree, changes };
        let new_id = match self.store.write_commit(rec) {
            Ok(id) => id,
            Err(e) => {
                return Err(e);
            },
        };
        let remaining = remaining_files_from(&recd[branch_id].files, &only, 0);
        let nb = VirtualBranch {
            id: recd[branch_id].id,
            name: recd[branch_id].name.clone(),
            head: new_id,
            selected_for_changes: recd[branch_id].selected_for_changes,
            files: remaining,
        };
        let ghost nbg = nb;
        let mut bs = recd;
        let ghost bs0 = bs@;
        bs[branch_id] = nb;
        proof {
            lemma_vec_deep(&bs);
            assert(bs@ == bs0.update(branch_id as int, nbg));
            lemma_deep_update(bs0, branch_id as int, nbg);
        }
        self.branches = bs;
        self.integration = new_int;
        proof {
            let p = old(self)@;
            let recdv = spec_reconcile(p.store.commits, p.branches, spec_live_diff(p),
                p.context_lines);
            assert(final(self)@.branches =~= recdv.update(
                branch_id as int,
                BranchV {
                    head: p.store.commits.len() as int,
                    files: spec_remaining_files(recdv[branch_id as int].files, only.deep_view(), 0),
                    ..recdv[branch_id as int]
                },
            ));
            let n2 = final(self)@.store.commits.len() as int;
            let fbs = final(self)@.branches;
            assert forall|i: int| 0 <= i < fbs.len() implies (#[trigger] fbs[i]).id == i && 0
                <= fbs[i].head < n2 by {
                assert(p.branches[i].id == i);
            }
            assert(store_parents_ok(final(self)@.store.commits));
            assert(branches_wf(final(self)@.branches, n2));
        }
        Ok(new_id)
    }

    /// Moves the branch's head back to an ancestor commit. The working tree
    /// keeps its content, so the changes of the discarded commits reappear in
    /// the uncommitted diff, and the reconciliation run at the end routes
    /// them to whichever branch is currently selected for changes. Fails
    /// exactly on an unknown branch or a target that is not an ancestor of
    /// the head, changing nothing.
    pub fn reset_virtual_branch(&mut self, branch_id: usize, target: usize) -> (r: Result<
        (),
        EngineError,
    >)
        requires
            project_wf(old(self)@),
        ensures
            project_wf(final(self)@),
            r is Err ==> final(self)@ == old(self)@,
            branch_id >= old(self)@.branches.len() <==> r == Result::<(), EngineError>::Err(
                EngineError::BranchNotFound,
            ),
            branch_id < old(self)@.branches.len() && !(target < old(self)@.store.commits.len()
                && crate::store::spec_ancestor(
                old(self)@.store.commits,
                old(self)@.branches[branch_id as int].head,
                target as int,
            )) <==> r == Result::<(), EngineError>::Err(EngineError::InvalidTarget),
            branch_id < old(self)@.branches.len() && target < old(self)@.store.commits.len()
                && crate::store::spec_ancestor(
                old(self)@.store.commits,
                old(self)@.branches[branch_id as int].head,
                target as int,
            ) ==> ({
                let p = old(self)@;
                let bs2 = p.branches.update(
                    branch_id as int,
                    BranchV { head: target as int, ..p.branches[branch_id as int] },
                );
                let rebuilt = spec_rebuild(p.store.commits, bs2);
                &&& (rebuilt is None <==> r == Result::<(), EngineError>::Err(EngineError::Object))
                &&& (rebuilt is Some ==> r == Result::<(), EngineError>::Ok(())
                    && final(self)@.integration == rebuilt.unwrap()
                    && final(self)@.branches == spec_reconcile(
                    p.store.commits,
                    bs2,
                    spec_tree_diff(rebuilt.unwrap(), p.worktree),
                    p.context_lines,
                ) && final(self)@.worktree == p.worktree && final(self)@.store == p.store)
            }),
    {
        if branch_id >= self.branches.len() {
            return Err(EngineError::BranchNotFound);
        }
        proof {
            lemma_vec_deep(&self.branches);
            assert(0 <= old(self)@.branches[branch_id as int].head < old(
                self,
            )@.store.commits.len());
        }
        let head = self.branches[branch_id].head;
        if target >= self.store.commits.len() {
            return Err(EngineError::InvalidTarget);
        }
        if !self.store.is_ancestor(head, target) {
            return Err(EngineError::InvalidTarget);
        }
        let mut bs2 = clone_branches(&self.branches, false, 0);
        let b = &self.branches[branch_id];
        let nb = VirtualBranch {
            id: b.id,
            name: b.name.clone(),
            head: target,
            selected_for_changes: b.selected_for_changes,
            files: clone_file_claims(&b.files, 0),
        };
        proof {
            assert(b.files.deep_view().subrange(0, b.files.len() as int) =~= b.files.deep_view());
        }
        let ghost nbg = nb;
        let ghost bs20 = bs2@;
        proof {
            lemma_vec_deep(&bs2);
            assert(bs2.deep_view().len() == bs2@.len());
            assert(bs2.len() == self.branches.len());
        }
        bs2[branch_id] = nb;
        proof {
            lemma_vec_deep(&bs2);
            assert(bs2@ == bs20.update(branch_id as int, nbg));
            lemma_deep_update(bs20, branch_id as int, nbg);
            let obs = old(self)@.branches;
            assert(obs.subrange(0, obs.len() as int) =~= obs);
            assert(bs2.deep_view() =~= obs.update(
                branch_id as int,
                BranchV { head: target as int, ..obs[branch_id as int] },
            ));
        }
        let rebuilt = match rebuild_integration(&self.store, &bs2) {
            Some(t) => t,
            None => {
                return Err(EngineError::Object);
            },
        };
        let diff = tree_diff(&rebuilt, &self.worktree);
        let recd = reconcile(&self.store, &bs2, &diff, self.context_lines);
        self.branches = recd;
        self.integration = rebuilt;
        proof {
            let p = old(self)@;
            let bs2v = p.branches.update(
                branch_id as int,
                BranchV { head: target as int, ..p.branches[branch_id as int] },
            );
            let recv = spec_reconcile(p.store.commits, bs2v, spec_tree_diff(
                final(self)@.integration,
                p.worktree,
            ), p.context_lines);
            let n = p.store.commits.len() as int;
            assert forall|i: int| 0 <= i < recv.len() implies (#[trigger] recv[i]).id == i && 0
                <= recv[i].head < n by {
                assert(p.branches[i].id == i);
                assert(0 <= p.branches[i].head < n);
            }
            assert forall|i: int, j: int|
                0 <= i < j < recv.len() && recv[i].selected_for_changes implies !recv[
                j
            ].selected_for_changes by {
                assert(recv[i].selected_for_changes == p.branches[i].selected_for_changes);
                assert(recv[j].selected_for_changes == p.branches[j].selected_for_changes);
            }
            assert(branches_wf(recv, n));
        }
        Ok(())
    }
}

} // verus!
