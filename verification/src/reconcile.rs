//! The ownership reconciler.
//!
//! On every read the live diff is recomputed and ownership re-derived: a hunk
//! whose identity (path plus replacement text) is already claimed stays with
//! its branch and only has its line range refreshed; an unclaimed hunk goes
//! to the selected branch, or failing that to the lowest-ranked branch;
//! claims whose identity no longer appears in the diff are dropped; and every
//! hunk gets its lock chain attached.

use vstd::prelude::*;

use crate::branch::{
    spec_assignee, assignee, BranchV, ClaimV, FileClaim, FileClaimV, HunkClaim, VirtualBranch,
};
use crate::hunks::{DiffHunk, FileDiff, FileDiffV, HunkV};
use crate::locks::{detect_locks, heads_ok, spec_locks};
use crate::store::{store_parents_ok, CommitStore, CommitV};
use crate::tree::{clone_range, cons};
use crate::util::lemma_vec_deep;

verus! {

/// The claim produced for one diff hunk: the hunk itself with its freshly
/// computed lock chain.
pub open spec fn spec_claim_of(
    s: Seq<CommitV>,
    bs: Seq<BranchV>,
    path: Seq<char>,
    h: HunkV,
    ctx: int,
) -> ClaimV {
    let locks = spec_locks(s, bs, path, h, ctx, 1);
    ClaimV { hunk: h, locked: locks.len() > 0, locked_to: locks }
}

/// The claims branch `bid` receives within one file, scanning the file's
/// hunks from `j` on: exactly the hunks assigned to it, in diff order.
pub open spec fn spec_claims_in_file(
    s: Seq<CommitV>,
    bs: Seq<BranchV>,
    bid: int,
    path: Seq<char>,
    hunks: Seq<HunkV>,
    ctx: int,
    j: int,
) -> Seq<ClaimV>
    decreases hunks.len() - j,
{
    if j < 0 || j >= hunks.len() {
        Seq::empty()
    } else {
        let rest = spec_claims_in_file(s, bs, bid, path, hunks, ctx, j + 1);
        if spec_assignee(bs, path, hunks[j].lines) == Some(bid) {
            seq![spec_claim_of(s, bs, path, hunks[j], ctx)] + rest
        } else {
            rest
        }
    }
}

/// The file claims branch `bid` receives, scanning the diff from `j` on:
/// one entry per diff file that assigns it at least one hunk.
pub open spec fn spec_files_for(
    s: Seq<CommitV>,
    bs: Seq<BranchV>,
    bid: int,
    diff: Seq<FileDiffV>,
    ctx: int,
    j: int,
) -> Seq<FileClaimV>
    decreases diff.len() - j,
{
    if j < 0 || j >= diff.len() {
        Seq::empty()
    } else {
        let rest = spec_files_for(s, bs, bid, diff, ctx, j + 1);
        let cs = spec_claims_in_file(s, bs, bid, diff[j].path, diff[j].hunks, ctx, 0);
        if cs.len() > 0 {
            seq![FileClaimV { path: diff[j].path, hunks: cs }] + rest
        } else {
            rest
        }
    }
}

/// One branch after reconciliation: identity, name, head and selection are
/// untouched; the file claims are rebuilt from the live diff.
pub open spec fn spec_reconcile_branch(
    s: Seq<CommitV>,
    bs: Seq<BranchV>,
    b: BranchV,
    diff: Seq<FileDiffV>,
    ctx: int,
) -> BranchV {
    BranchV { files: spec_files_for(s, bs, b.id, diff, ctx, 0), ..b }
}

/// The branch set after one reconciliation pass against the diff `diff`.
pub open spec fn spec_reconcile(
    s: Seq<CommitV>,
    bs: Seq<BranchV>,
    diff: Seq<FileDiffV>,
    ctx: int,
) -> Seq<BranchV> {
    Seq::new(bs.len(), |i: int| spec_reconcile_branch(s, bs, bs[i], diff, ctx))
}

/// Clones one diff hunk.
pub fn clone_hunk(h: &DiffHunk) -> (r: DiffHunk)
    ensures
        r@ == h@,
{
    let r = DiffHunk {
        old_start: h.old_start,
        old_lines: h.old_lines,
        new_start: h.new_start,
        new_lines: h.new_lines,
        lines: clone_range(&h.lines, 0, h.lines.len()),
    };
    proof {
        assert(h.lines.deep_view().subrange(0, h.lines.len() as int) =~= h.lines.deep_view());
    }
    r
}

fn claims_in_file_from(
    store: &CommitStore,
    bs: &Vec<VirtualBranch>,
    bid: usize,
    path: &String,
    hunks: &Vec<DiffHunk>,
    ctx: usize,
    j: usize,
) -> (r: Vec<HunkClaim>)
    requires
        store_parents_ok(store@.commits),
        heads_ok(bs.deep_view(), store@.commits.len() as int),
        j <= hunks.len(),
    ensures
        r.deep_view() == spec_claims_in_file(
            store@.commits,
            bs.deep_view(),
            bid as int,
            path@,
            hunks.deep_view(),
            ctx as int,
            j as int,
        ),
    decreases hunks.len() - j,
{
    proof {
        lemma_vec_deep(hunks);
    }
    if j >= hunks.len() {
        let r: Vec<HunkClaim> = Vec::new();
        proof {
            assert(r.deep_view() =~= Seq::<ClaimV>::empty());
        }
        r
    } else {
        let rest = claims_in_file_from(store, bs, bid, path, hunks, ctx, j + 1);
        let assigned = match assignee(bs, path, &hunks[j].lines) {
            Some(k) => k == bid,
            None => false,
        };
        if assigned {
            let locks = detect_locks(store, bs, path, &hunks[j], ctx);
            let locked = locks.len() > 0;
            let claim = HunkClaim { hunk: clone_hunk(&hunks[j]), locked, locked_to: locks };
            let r = cons(claim, rest);
            proof {
                assert(r.deep_view() =~= spec_claims_in_file(
                    store@.commits,
                    bs.deep_view(),
                    bid as int,
                    path@,
                    hunks.deep_view(),
                    ctx as int,
                    j as int,
                ));
            }
            r
        } else {
            rest
        }
    }
}

fn files_for_from(
    store: &CommitStore,
    bs: &Vec<VirtualBranch>,
    bid: usize,
    diff: &Vec<FileDiff>,
    ctx: usize,
    j: usize,
) -> (r: Vec<FileClaim>)
    requires
        store_parents_ok(store@.commits),
        heads_ok(bs.deep_view(), store@.commits.len() as int),
        j <= diff.len(),
    ensures
        r.deep_view() == spec_files_for(
            store@.commits,
            bs.deep_view(),
            bid as int,
            diff.deep_view(),
            ctx as int,
            j as int,
        ),
    decreases diff.len() - j,
{
    proof {
        lemma_vec_deep(diff);
    }
    if j >= diff.len() {
        let r: Vec<FileClaim> = Vec::new();
        proof {
            assert(r.deep_view() =~= Seq::<FileClaimV>::empty());
        }
        r
    } else {
        let rest = files_for_from(store, bs, bid, diff, ctx, j + 1);
        let cs = claims_in_file_from(store, bs, bid, &diff[j].path, &diff[j].hunks, ctx, 0);
        if cs.len() > 0 {
            let fc = FileClaim { path: diff[j].path.clone(), hunks: cs };
            let r = cons(fc, rest);
            proof {
                assert(r.deep_view() =~= spec_files_for(
                    store@.commits,
                    bs.deep_view(),
                    bid as int,
                    diff.deep_view(),
                    ctx as int,
                    j as int,
                ));
            }
            r
        } else {
            proof {
                assert(cs.deep_view().len() == 0);
            }
            rest
        }
    }
}

fn reconcile_from(
    store: &CommitStore,
    bs: &Vec<VirtualBranch>,
    diff: &Vec<FileDiff>,
    ctx: usize,
    i: usize,
) -> (r: Vec<VirtualBranch>)
    requires
        store_parents_ok(store@.commits),
        heads_ok(bs.deep_view(), store@.commits.len() as int),
        i <= bs.len(),
    ensures
        r.deep_view() == spec_reconcile(store@.commits, bs.deep_view(), diff.deep_view(),
            ctx as int).skip(i as int),
    decreases bs.len() - i,
{
    proof {
        lemma_vec_deep(bs);
    }
    if i >= bs.len() {
        let r: Vec<VirtualBranch> = Vec::new();
        proof {
            assert(r.deep_view() =~= spec_reconcile(
                store@.commits,
                bs.deep_view(),
                diff.deep_view(),
                ctx as int,
            ).skip(i as int));
        }
        r
    } else {
        let b = &bs[i];
        let files = files_for_from(store, bs, b.id, diff, ctx, 0);
        let nb = VirtualBranch {
            id: b.id,
            name: b.name.clone(),
            head: b.head,
            selected_for_changes: b.selected_for_changes,
            files,
        };
        let rest = reconcile_from(store, bs, diff, ctx, i + 1);
        let r = cons(nb, rest);
        proof {
            assert(r.deep_view() =~= spec_reconcile(
                store@.commits,
                bs.deep_view(),
                diff.deep_view(),
                ctx as int,
            ).skip(i as int));
        }
        r
    }
}

/// One reconciliation pass: rebuilds every branch's claims from the live
/// diff, with stable assignment, default routing of unclaimed hunks, dropped
/// stale claims, and fresh lock chains.
pub fn reconcile(
    store: &CommitStore,
    bs: &Vec<VirtualBranch>,
    diff: &Vec<FileDiff>,
    ctx: usize,
) -> (r: Vec<VirtualBranch>)
    requires
        store_parents_ok(store@.commits),
        heads_ok(bs.deep_view(), store@.commits.len() as int),
    ensures
        r.deep_view() == spec_reconcile(store@.commits, bs.deep_view(), diff.deep_view(),
            ctx as int),
{
    let r = reconcile_from(store, bs, diff, ctx, 0);
    proof {
        assert(spec_reconcile(store@.commits, bs.deep_view(), diff.deep_view(), ctx as int).skip(0)
            =~= spec_reconcile(store@.commits, bs.deep_view(), diff.deep_view(), ctx as int));
    }
    r
}

} // verus!
