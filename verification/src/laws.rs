//! The engine's general laws, proved over the reconciler's and the lock
//! detector's models: stable assignment, default routing of unclaimed hunks,
//! lock absence without commits, and idempotence of reconciliation.

use vstd::prelude::*;

use crate::branch::{
    spec_assignee, spec_claims_text, spec_default_target, spec_files_claim, spec_owner,
    spec_selected, BranchV, ClaimV, FileClaimV,
};
use crate::hunks::{FileDiffV, HunkV};
use crate::locks::{spec_holder, spec_locks};
use crate::reconcile::{
    spec_claim_of, spec_claims_in_file, spec_files_for, spec_reconcile, spec_reconcile_branch,
};
use crate::store::CommitV;

verus! {

/// Branch ids equal their positions.
pub open spec fn ids_ok(bs: Seq<BranchV>) -> bool {
    forall|i: int| 0 <= i < bs.len() ==> #[trigger] bs[i].id == i
}

/// Whether some hunk among `hunks`, from `j` on, has the replacement text
/// `lines`.
pub open spec fn spec_hunks_have(hunks: Seq<HunkV>, lines: Seq<Seq<char>>, j: int) -> bool
    decreases hunks.len() - j,
{
    if j < 0 || j >= hunks.len() {
        false
    } else if hunks[j].lines == lines {
        true
    } else {
        spec_hunks_have(hunks, lines, j + 1)
    }
}

/// Whether the diff, from file `j` on, holds a hunk of identity (`path`,
/// `lines`).
pub open spec fn spec_diff_has(diff: Seq<FileDiffV>, path: Seq<char>, lines: Seq<Seq<char>>, j: int) -> bool
    decreases diff.len() - j,
{
    if j < 0 || j >= diff.len() {
        false
    } else if diff[j].path == path && spec_hunks_have(diff[j].hunks, lines, 0) {
        true
    } else {
        spec_diff_has(diff, path, lines, j + 1)
    }
}

proof fn lemma_claims_text_shift(c: ClaimV, rest: Seq<ClaimV>, lines: Seq<Seq<char>>, k: int)
    requires
        0 <= k,
    ensures
        spec_claims_text(seq![c] + rest, lines, k + 1) == spec_claims_text(rest, lines, k),
    decreases rest.len() - k,
{
    let cs = seq![c] + rest;
    if k < rest.len() {
        assert(cs[k + 1] == rest[k]);
        lemma_claims_text_shift(c, rest, lines, k + 1);
    }
}

proof fn lemma_files_claim_shift(
    fc: FileClaimV,
    rest: Seq<FileClaimV>,
    path: Seq<char>,
    lines: Seq<Seq<char>>,
    k: int,
)
    requires
        0 <= k,
    ensures
        spec_files_claim(seq![fc] + rest, path, lines, k + 1) == spec_files_claim(
            rest,
            path,
            lines,
            k,
        ),
    decreases rest.len() - k,
{
    let fs = seq![fc] + rest;
    if k < rest.len() {
        assert(fs[k + 1] == rest[k]);
        lemma_files_claim_shift(fc, rest, path, lines, k + 1);
    }
}

/// The claims a branch receives in one file hold the identity (`path`,
/// `lines`) exactly when the file's hunks hold it and the identity is
/// assigned to that branch.
proof fn lemma_claims_text_in_file(
    s: Seq<CommitV>,
    bs: Seq<BranchV>,
    bid: int,
    path: Seq<char>,
    hunks: Seq<HunkV>,
    ctx: int,
    lines: Seq<Seq<char>>,
    j: int,
)
    requires
        0 <= j,
    ensures
        spec_claims_text(spec_claims_in_file(s, bs, bid, path, hunks, ctx, j), lines, 0) == (
        spec_hunks_have(hunks, lines, j) && spec_assignee(bs, path, lines) == Some(bid)),
    decreases hunks.len() - j,
{
    if j < hunks.len() {
        lemma_claims_text_in_file(s, bs, bid, path, hunks, ctx, lines, j + 1);
        let rest = spec_claims_in_file(s, bs, bid, path, hunks, ctx, j + 1);
        if spec_assignee(bs, path, hunks[j].lines) == Some(bid) {
            let c0 = spec_claim_of(s, bs, path, hunks[j], ctx);
            let cs = seq![c0] + rest;
            assert(spec_claims_in_file(s, bs, bid, path, hunks, ctx, j) == cs);
            lemma_claims_text_shift(c0, rest, lines, 0);
            assert(cs[0] == c0);
            if hunks[j].lines == lines {
                assert(spec_claims_text(cs, lines, 0));
            }
        } else {
            if hunks[j].lines == lines {
                assert(spec_assignee(bs, path, lines) != Some(bid));
            }
        }
    }
}

/// A branch's reconciled file claims hold the identity (`path`, `lines`)
/// exactly when the diff holds it and it is assigned to that branch.
proof fn lemma_files_claim_files_for(
    s: Seq<CommitV>,
    bs: Seq<BranchV>,
    bid: int,
    diff: Seq<FileDiffV>,
    ctx: int,
    path: Seq<char>,
    lines: Seq<Seq<char>>,
    j: int,
)
    requires
        0 <= j,
    ensures
        spec_files_claim(spec_files_for(s, bs, bid, diff, ctx, j), path, lines, 0) == (
        spec_diff_has(diff, path, lines, j) && spec_assignee(bs, path, lines) == Some(bid)),
    decreases diff.len() - j,
{
    if j < diff.len() {
        lemma_files_claim_files_for(s, bs, bid, diff, ctx, path, lines, j + 1);
        let rest = spec_files_for(s, bs, bid, diff, ctx, j + 1);
        let cs = spec_claims_in_file(s, bs, bid, diff[j].path, diff[j].hunks, ctx, 0);
        lemma_claims_text_in_file(s, bs, bid, diff[j].path, diff[j].hunks, ctx, lines, 0);
        if cs.len() > 0 {
            let fc = FileClaimV { path: diff[j].path, hunks: cs };
            let fs = seq![fc] + rest;
            assert(spec_files_for(s, bs, bid, diff, ctx, j) == fs);
            lemma_files_claim_shift(fc, rest, path, lines, 0);
            assert(fs[0] == fc);
        } else {
            assert(!spec_claims_text(cs, lines, 0));
        }
    }
}

proof fn lemma_owner_scan(
    s: Seq<CommitV>,
    bs: Seq<BranchV>,
    diff: Seq<FileDiffV>,
    ctx: int,
    path: Seq<char>,
    lines: Seq<Seq<char>>,
    i: int,
)
    requires
        ids_ok(bs),
        0 <= i,
    ensures
        ({
            let bs2 = spec_reconcile(s, bs, diff, ctx);
            match spec_assignee(bs, path, lines) {
                Some(t) => spec_owner(bs2, path, lines, i) == (if spec_diff_has(diff, path, lines,
                    0,
                ) && i <= t {
                    Some(t)
                } else {
                    None
                }),
                None => spec_owner(bs2, path, lines, i) is None,
            }
        }),
    decreases bs.len() - i,
{
    let bs2 = spec_reconcile(s, bs, diff, ctx);
    lemma_assignee_in_range(bs, path, lines);
    if i < bs2.len() {
        assert(bs2[i] == spec_reconcile_branch(s, bs, bs[i], diff, ctx));
        assert(bs[i].id == i);
        lemma_files_claim_files_for(s, bs, i, diff, ctx, path, lines, 0);
        lemma_owner_scan(s, bs, diff, ctx, path, lines, i + 1);
    }
}

/// The owner of an identity after reconciliation: the branch the identity
/// was assigned to, provided the identity stands in the diff at all; an
/// identity outside the diff is owned by nobody (its stale claims are
/// dropped).
pub proof fn lemma_owner_reconciled(
    s: Seq<CommitV>,
    bs: Seq<BranchV>,
    diff: Seq<FileDiffV>,
    ctx: int,
    path: Seq<char>,
    lines: Seq<Seq<char>>,
)
    requires
        ids_ok(bs),
    ensures
        spec_owner(spec_reconcile(s, bs, diff, ctx), path, lines, 0) == (if spec_diff_has(
            diff,
            path,
            lines,
            0,
        ) {
            spec_assignee(bs, path, lines)
        } else {
            None
        }),
{
    lemma_owner_scan(s, bs, diff, ctx, path, lines, 0);
    match spec_assignee(bs, path, lines) {
        Some(t) => {
            assert(spec_owner(bs, path, lines, 0) is Some || spec_default_target(bs) is Some);
            lemma_assignee_in_range(bs, path, lines);
        },
        None => {
        },
    }
}

proof fn lemma_owner_in_range(bs: Seq<BranchV>, path: Seq<char>, lines: Seq<Seq<char>>, i: int)
    requires
        0 <= i,
    ensures
        match spec_owner(bs, path, lines, i) {
            Some(t) => i <= t < bs.len(),
            None => true,
        },
    decreases bs.len() - i,
{
    if i < bs.len() && !crate::branch::spec_branch_claims(bs[i], path, lines, 0) {
        lemma_owner_in_range(bs, path, lines, i + 1);
    }
}

proof fn lemma_selected_in_range(bs: Seq<BranchV>, i: int)
    requires
        0 <= i,
    ensures
        match crate::branch::spec_selected(bs, i) {
            Some(t) => i <= t < bs.len(),
            None => true,
        },
    decreases bs.len() - i,
{
    if i < bs.len() && !bs[i].selected_for_changes {
        lemma_selected_in_range(bs, i + 1);
    }
}

proof fn lemma_assignee_in_range(bs: Seq<BranchV>, path: Seq<char>, lines: Seq<Seq<char>>)
    ensures
        match spec_assignee(bs, path, lines) {
            Some(t) => 0 <= t < bs.len(),
            None => true,
        },
{
    lemma_owner_in_range(bs, path, lines, 0);
    lemma_selected_in_range(bs, 0);
}

/// Stability of assignment: a hunk whose identity is already claimed by a
/// branch keeps that branch across a reconciliation, however the rest of the
/// diff changed, as long as the identity itself still stands in the diff.
pub proof fn lemma_stable_assignment(
    s: Seq<CommitV>,
    bs: Seq<BranchV>,
    diff: Seq<FileDiffV>,
    ctx: int,
    path: Seq<char>,
    lines: Seq<Seq<char>>,
    b: int,
)
    requires
        ids_ok(bs),
        spec_owner(bs, path, lines, 0) == Some(b),
        spec_diff_has(diff, path, lines, 0),
    ensures
        spec_owner(spec_reconcile(s, bs, diff, ctx), path, lines, 0) == Some(b),
{
    lemma_owner_reconciled(s, bs, diff, ctx, path, lines);
}

/// Default routing: an identity no branch claims is assigned to the selected
/// branch when one exists, else to the lowest-ranked branch.
pub proof fn lemma_unclaimed_routed(
    s: Seq<CommitV>,
    bs: Seq<BranchV>,
    diff: Seq<FileDiffV>,
    ctx: int,
    path: Seq<char>,
    lines: Seq<Seq<char>>,
)
    requires
        ids_ok(bs),
        spec_owner(bs, path, lines, 0) is None,
        spec_diff_has(diff, path, lines, 0),
    ensures
        spec_owner(spec_reconcile(s, bs, diff, ctx), path, lines, 0) == spec_default_target(bs),
        (match crate::branch::spec_selected(bs, 0) {
            Some(k) => spec_default_target(bs) == Some(k),
            None => bs.len() > 0 ==> spec_default_target(bs) == Some(0int),
        }),
{
    lemma_owner_reconciled(s, bs, diff, ctx, path, lines);
}

proof fn lemma_claims_unlocked(
    s: Seq<CommitV>,
    bs: Seq<BranchV>,
    bid: int,
    path: Seq<char>,
    hunks: Seq<HunkV>,
    ctx: int,
    j: int,
)
    requires
        forall|i: int| 0 <= i < bs.len() ==> #[trigger] bs[i].head == 0,
        0 <= j,
    ensures
        forall|k: int|
            0 <= k < spec_claims_in_file(s, bs, bid, path, hunks, ctx, j).len() ==> !(
            #[trigger] spec_claims_in_file(s, bs, bid, path, hunks, ctx, j)[k]).locked && spec_claims_in_file(
                s,
                bs,
                bid,
                path,
                hunks,
                ctx,
                j,
            )[k].locked_to.len() == 0,
    decreases hunks.len() - j,
{
    if j < hunks.len() {
        lemma_claims_unlocked(s, bs, bid, path, hunks, ctx, j + 1);
        let rest = spec_claims_in_file(s, bs, bid, path, hunks, ctx, j + 1);
        let whole = spec_claims_in_file(s, bs, bid, path, hunks, ctx, j);
        crate::locks::lemma_no_commits_no_locks(s, bs, path, hunks[j], ctx, 1);
        assert forall|k: int| 0 <= k < whole.len() implies !(#[trigger] whole[k]).locked
            && whole[k].locked_to.len() == 0 by {
            if spec_assignee(bs, path, hunks[j].lines) == Some(bid) {
                if k > 0 {
                    assert(whole[k] == rest[k - 1]);
                }
            } else {
                assert(whole[k] == rest[k]);
            }
        }
    }
}

proof fn lemma_files_unlocked(
    s: Seq<CommitV>,
    bs: Seq<BranchV>,
    bid: int,
    diff: Seq<FileDiffV>,
    ctx: int,
    j: int,
)
    requires
        forall|i: int| 0 <= i < bs.len() ==> #[trigger] bs[i].head == 0,
        0 <= j,
    ensures
        forall|k: int, m: int|
            0 <= k < spec_files_for(s, bs, bid, diff, ctx, j).len() && 0 <= m < (
            #[trigger] spec_files_for(s, bs, bid, diff, ctx, j)[k]).hunks.len() ==> !(
            #[trigger] spec_files_for(s, bs, bid, diff, ctx, j)[k].hunks[m]).locked
                && spec_files_for(s, bs, bid, diff, ctx, j)[k].hunks[m].locked_to.len() == 0,
    decreases diff.len() - j,
{
    if j < diff.len() {
        lemma_files_unlocked(s, bs, bid, diff, ctx, j + 1);
        lemma_claims_unlocked(s, bs, bid, diff[j].path, diff[j].hunks, ctx, 0);
        let rest = spec_files_for(s, bs, bid, diff, ctx, j + 1);
        let cs = spec_claims_in_file(s, bs, bid, diff[j].path, diff[j].hunks, ctx, 0);
        let whole = spec_files_for(s, bs, bid, diff, ctx, j);
        assert forall|k: int, m: int|
            0 <= k < whole.len() && 0 <= m < (#[trigger] whole[k]).hunks.len() implies !(
        #[trigger] whole[k].hunks[m]).locked && whole[k].hunks[m].locked_to.len() == 0 by {
            if cs.len() > 0 {
                if k > 0 {
                    assert(whole[k] == rest[k - 1]);
                } else {
                    assert(whole[0].hunks == cs);
                }
            } else {
                assert(whole[k] == rest[k]);
            }
        }
    }
}

/// Lock absence without commits: while no virtual branch has a commit of its
/// own — every head still sits on the base — reconciliation reports every
/// claim of every branch as unlocked.
pub proof fn lemma_no_commits_all_unlocked(
    s: Seq<CommitV>,
    bs: Seq<BranchV>,
    diff: Seq<FileDiffV>,
    ctx: int,
    bs2: Seq<BranchV>,
)
    requires
        forall|i: int| 0 <= i < bs.len() ==> #[trigger] bs[i].head == 0,
        bs2 == spec_reconcile(s, bs, diff, ctx),
    ensures
        forall|i: int, k: int, m: int|
            0 <= i < bs2.len() && 0 <= k < (#[trigger] bs2[i]).files.len() && 0 <= m < (
            #[trigger] bs2[i].files[k]).hunks.len() ==> !(
            #[trigger] bs2[i].files[k].hunks[m]).locked && bs2[i].files[k].hunks[m].locked_to.len()
                == 0,
{
    assert forall|i: int, k: int, m: int|
        0 <= i < bs2.len() && 0 <= k < (#[trigger] bs2[i]).files.len() && 0 <= m < (
    #[trigger] bs2[i].files[k]).hunks.len() implies !(#[trigger] bs2[i].files[k].hunks[m]).locked
        && bs2[i].files[k].hunks[m].locked_to.len() == 0 by {
        assert(bs2[i].files == spec_files_for(s, bs, bs[i].id, diff, ctx, 0));
        lemma_files_unlocked(s, bs, bs[i].id, diff, ctx, 0);
    }
}

proof fn lemma_holder_same_heads(
    s: Seq<CommitV>,
    bs: Seq<BranchV>,
    bs2: Seq<BranchV>,
    c: int,
    i: int,
)
    requires
        bs2.len() == bs.len(),
        forall|k: int| 0 <= k < bs.len() ==> #[trigger] bs2[k].head == bs[k].head,
    ensures
        spec_holder(s, bs2, c, i) == spec_holder(s, bs, c, i),
    decreases bs.len() - i,
{
    if 0 <= i && i < bs.len() {
        assert(bs2[i].head == bs[i].head);
        lemma_holder_same_heads(s, bs, bs2, c, i + 1);
    }
}

proof fn lemma_locks_same_heads(
    s: Seq<CommitV>,
    bs: Seq<BranchV>,
    bs2: Seq<BranchV>,
    path: Seq<char>,
    h: HunkV,
    ctx: int,
    c: int,
)
    requires
        bs2.len() == bs.len(),
        forall|k: int| 0 <= k < bs.len() ==> #[trigger] bs2[k].head == bs[k].head,
    ensures
        spec_locks(s, bs2, path, h, ctx, c) == spec_locks(s, bs, path, h, ctx, c),
    decreases s.len() - c,
{
    if 1 <= c < s.len() {
        lemma_holder_same_heads(s, bs, bs2, c, 0);
        lemma_locks_same_heads(s, bs, bs2, path, h, ctx, c + 1);
    }
}

proof fn lemma_hunks_have_witness(hunks: Seq<HunkV>, lines: Seq<Seq<char>>, j: int, k: int)
    requires
        0 <= j <= k < hunks.len(),
        hunks[k].lines == lines,
    ensures
        spec_hunks_have(hunks, lines, j),
    decreases k - j,
{
    if j < k {
        lemma_hunks_have_witness(hunks, lines, j + 1, k);
    }
}

proof fn lemma_diff_has_witness(diff: Seq<FileDiffV>, j: int, jj: int, k: int)
    requires
        0 <= j <= jj < diff.len(),
        0 <= k < diff[jj].hunks.len(),
    ensures
        spec_diff_has(diff, diff[jj].path, diff[jj].hunks[k].lines, j),
    decreases jj - j,
{
    if j == jj {
        lemma_hunks_have_witness(diff[jj].hunks, diff[jj].hunks[k].lines, 0, k);
    } else {
        lemma_diff_has_witness(diff, j + 1, jj, k);
    }
}

proof fn lemma_assignee_idem(
    s: Seq<CommitV>,
    bs: Seq<BranchV>,
    diff: Seq<FileDiffV>,
    ctx: int,
    path: Seq<char>,
    lines: Seq<Seq<char>>,
)
    requires
        ids_ok(bs),
        spec_diff_has(diff, path, lines, 0),
    ensures
        spec_assignee(spec_reconcile(s, bs, diff, ctx), path, lines) == spec_assignee(
            bs,
            path,
            lines,
        ),
{
    let bs2 = spec_reconcile(s, bs, diff, ctx);
    lemma_owner_reconciled(s, bs, diff, ctx, path, lines);
    match spec_assignee(bs, path, lines) {
        Some(t) => {
            assert(spec_owner(bs2, path, lines, 0) == Some(t));
        },
        None => {
            assert(spec_default_target(bs) is None);
            assert(bs.len() == 0);
            assert(spec_owner(bs2, path, lines, 0) is None);
            assert(spec_default_target(bs2) is None);
        },
    }
}

proof fn lemma_claims_idem(
    s: Seq<CommitV>,
    bs: Seq<BranchV>,
    bs2: Seq<BranchV>,
    diff: Seq<FileDiffV>,
    ctx: int,
    bid: int,
    jj: int,
    j: int,
)
    requires
        ids_ok(bs),
        bs2 == spec_reconcile(s, bs, diff, ctx),
        0 <= jj < diff.len(),
        0 <= j,
    ensures
        spec_claims_in_file(s, bs2, bid, diff[jj].path, diff[jj].hunks, ctx, j)
            == spec_claims_in_file(s, bs, bid, diff[jj].path, diff[jj].hunks, ctx, j),
    decreases diff[jj].hunks.len() - j,
{
    let path = diff[jj].path;
    let hunks = diff[jj].hunks;
    if j < hunks.len() {
        lemma_claims_idem(s, bs, bs2, diff, ctx, bid, jj, j + 1);
        lemma_diff_has_witness(diff, 0, jj, j);
        lemma_assignee_idem(s, bs, diff, ctx, path, hunks[j].lines);
        assert forall|k: int| 0 <= k < bs.len() implies #[trigger] bs2[k].head == bs[k].head by {
            assert(bs2[k] == spec_reconcile_branch(s, bs, bs[k], diff, ctx));
        }
        lemma_locks_same_heads(s, bs, bs2, path, hunks[j], ctx, 1);
        assert(spec_claim_of(s, bs2, path, hunks[j], ctx) == spec_claim_of(s, bs, path, hunks[j],
            ctx));
    }
}

proof fn lemma_files_idem(
    s: Seq<CommitV>,
    bs: Seq<BranchV>,
    bs2: Seq<BranchV>,
    diff: Seq<FileDiffV>,
    ctx: int,
    bid: int,
    j: int,
)
    requires
        ids_ok(bs),
        bs2 == spec_reconcile(s, bs, diff, ctx),
        0 <= j,
    ensures
        spec_files_for(s, bs2, bid, diff, ctx, j) == spec_files_for(s, bs, bid, diff, ctx, j),
    decreases diff.len() - j,
{
    if j < diff.len() {
        lemma_files_idem(s, bs, bs2, diff, ctx, bid, j + 1);
        lemma_claims_idem(s, bs, bs2, diff, ctx, bid, j, 0);
    }
}

/// Idempotence of reconciliation: a second pass over the same diff, with no
/// mutation in between, reproduces the first pass's branches, claims and
/// locks exactly.
pub proof fn lemma_reconcile_idempotent(
    s: Seq<CommitV>,
    bs: Seq<BranchV>,
    diff: Seq<FileDiffV>,
    ctx: int,
)
    requires
        ids_ok(bs),
    ensures
        spec_reconcile(s, spec_reconcile(s, bs, diff, ctx), diff, ctx) == spec_reconcile(
            s,
            bs,
            diff,
            ctx,
        ),
{
    let bs2 = spec_reconcile(s, bs, diff, ctx);
    let bs3 = spec_reconcile(s, bs2, diff, ctx);
    assert forall|i: int| 0 <= i < bs2.len() implies #[trigger] bs3[i] == bs2[i] by {
        assert(bs2[i] == spec_reconcile_branch(s, bs, bs[i], diff, ctx));
        assert(bs3[i] == spec_reconcile_branch(s, bs2, bs2[i], diff, ctx));
        assert(bs[i].id == i);
        assert(bs2[i].id == i);
        lemma_files_idem(s, bs, bs2, diff, ctx, i, 0);
        assert(bs3[i].files == bs2[i].files);
    }
    assert(bs3 =~= bs2);
}

proof fn lemma_prefix_eq(a: Seq<Seq<char>>, b: Seq<Seq<char>>, i: int)
    requires
        0 <= i,
    ensures
        forall|m: int| i <= m < crate::tree::spec_prefix(a, b, i) ==> a[m] == b[m],
    decreases a.len() - i,
{
    if i < a.len() && i < b.len() && a[i] == b[i] {
        lemma_prefix_eq(a, b, i + 1);
    }
}

proof fn lemma_suffix_eq(a: Seq<Seq<char>>, b: Seq<Seq<char>>, cap: int, s: int)
    requires
        0 <= s,
    ensures
        forall|m: int|
            s <= m < crate::tree::spec_suffix(a, b, cap, s) ==> #[trigger] a[a.len() - 1 - m]
                == b[b.len() - 1 - m],
    decreases cap - s,
{
    if s < cap && s < a.len() && s < b.len() && a[a.len() - 1 - s] == b[b.len() - 1 - s] {
        lemma_suffix_eq(a, b, cap, s + 1);
    }
}

proof fn lemma_apply_cons(lines: Seq<Seq<char>>, h: HunkV, rest: Seq<HunkV>, j: int)
    requires
        0 <= j <= rest.len(),
    ensures
        crate::tree::spec_apply_file(lines, seq![h] + rest, j + 1) == (
        match crate::tree::spec_apply_file(lines, rest, j) {
            Some(m) => if crate::tree::hunk_fits(m.len() as int, h) {
                Some(crate::tree::spec_replace(m, h))
            } else {
                None
            },
            None => None,
        }),
    decreases j,
{
    let cs = seq![h] + rest;
    assert(cs.len() == rest.len() + 1);
    if j == 0 {
        assert(cs[0] == h);
        assert(crate::tree::spec_apply_file(lines, rest, 0) == Some(lines));
        if crate::tree::hunk_fits(lines.len() as int, h) {
            assert(crate::tree::spec_apply_file(lines, cs, 1) == crate::tree::spec_apply_file(
                crate::tree::spec_replace(lines, h),
                cs,
                0,
            ));
        } else {
            assert(crate::tree::spec_apply_file(lines, cs, 1) is None);
        }
    } else {
        assert(cs[j] == rest[j - 1]);
        if crate::tree::hunk_fits(lines.len() as int, rest[j - 1]) {
            let lines2 = crate::tree::spec_replace(lines, rest[j - 1]);
            lemma_apply_cons(lines2, h, rest, j - 1);
            assert(crate::tree::spec_apply_file(lines, cs, j + 1) == crate::tree::spec_apply_file(
                lines2,
                cs,
                j,
            ));
            assert(crate::tree::spec_apply_file(lines, rest, j) == crate::tree::spec_apply_file(
                lines2,
                rest,
                j - 1,
            ));
        } else {
            assert(crate::tree::spec_apply_file(lines, cs, j + 1) is None);
            assert(crate::tree::spec_apply_file(lines, rest, j) is None);
        }
    }
}

proof fn lemma_runs_apply(a: Seq<Seq<char>>, b: Seq<Seq<char>>, i: int, cur: Option<int>)
    requires
        a.len() == b.len(),
        0 <= i <= a.len(),
        cur matches Some(s) ==> 0 <= s <= i,
    ensures
        ({
            let st = match cur {
                Some(s) => s,
                None => i,
            };
            crate::tree::spec_apply_file(
                a,
                crate::tree::spec_runs(a, b, i, cur),
                crate::tree::spec_runs(a, b, i, cur).len() as int,
            ) == Some(a.take(st) + b.skip(st))
        }),
    decreases a.len() - i,
{
    let st: int = match cur {
        Some(s) => s,
        None => i,
    };
    let runs = crate::tree::spec_runs(a, b, i, cur);
    if i >= a.len() {
        match cur {
            Some(s) => {
                let h = crate::tree::mk_run(b, s, i);
                assert(runs == seq![h]);
                assert(crate::tree::hunk_fits(a.len() as int, h));
                let rep = crate::tree::spec_replace(a, h);
                assert(rep.len() == b.len() - s + s);
                assert forall|m: int| 0 <= m < rep.len() implies rep[m] == (a.take(s) + b.skip(
                    s,
                ))[m] by {
                    if m < s {
                        assert(rep[m] == a[m]);
                    } else {
                        assert(rep[m] == b[m]);
                    }
                }
                assert(rep =~= a.take(s) + b.skip(s));
                assert(runs[0] == h);
                assert(crate::tree::spec_apply_file(a, runs, 1) == crate::tree::spec_apply_file(
                    rep,
                    runs,
                    0,
                ));
                assert(crate::tree::spec_apply_file(rep, runs, 0) == Some(rep));
            },
            None => {
                assert(a =~= a.take(i) + b.skip(i));
            },
        }
    } else if a[i] == b[i] {
        match cur {
            Some(s) => {
                lemma_runs_apply(a, b, i + 1, None);
                let rest = crate::tree::spec_runs(a, b, i + 1, None);
                let h = crate::tree::mk_run(b, s, i);
                assert(runs == seq![h] + rest);
                lemma_apply_cons(a, h, rest, rest.len() as int);
                let mid = a.take(i + 1) + b.skip(i + 1);
                assert(crate::tree::spec_apply_file(a, rest, rest.len() as int) == Some(mid));
                assert(crate::tree::hunk_fits(mid.len() as int, h));
                let rep = crate::tree::spec_replace(mid, h);
                assert forall|m: int| 0 <= m < rep.len() implies rep[m] == (a.take(s) + b.skip(
                    s,
                ))[m] by {
                    if m < s {
                        assert(rep[m] == mid[m]);
                        assert(mid[m] == a[m]);
                    } else if m < i {
                        assert(rep[m] == b[m]);
                    } else {
                        assert(rep[m] == mid[m]);
                        if m == i {
                            assert(mid[m] == a[i]);
                        } else {
                            assert(mid[m] == b[m]);
                        }
                    }
                }
                assert(rep =~= a.take(s) + b.skip(s));
            },
            None => {
                lemma_runs_apply(a, b, i + 1, None);
                assert(a.take(i) + b.skip(i) =~= a.take(i + 1) + b.skip(i + 1));
            },
        }
    } else {
        let ns: int = match cur {
            Some(s) => s,
            None => i,
        };
        lemma_runs_apply(a, b, i + 1, Some(ns));
    }
}

/// Patch correctness: applying a file's own diff hunks onto its old content
/// rebuilds the new content exactly. This is what entitles the commit builder
/// to materialize a tree from a subset of hunks.
pub proof fn lemma_file_diff_roundtrip(a: Seq<Seq<char>>, b: Seq<Seq<char>>)
    ensures
        crate::tree::spec_apply_file(
            a,
            crate::tree::spec_file_hunks(a, b),
            crate::tree::spec_file_hunks(a, b).len() as int,
        ) == Some(b),
{
    if a.len() == b.len() {
        lemma_runs_apply(a, b, 0, None);
        assert(a.take(0) + b.skip(0) =~= b);
    } else {
        let minlen: int = if a.len() <= b.len() {
            a.len() as int
        } else {
            b.len() as int
        };
        let p = crate::tree::spec_prefix(a, b, 0);
        crate::tree::lemma_prefix_bounds(a, b, 0);
        let s = crate::tree::spec_suffix(a, b, minlen - p, 0);
        crate::tree::lemma_suffix_bounds(a, b, minlen - p, 0);
        lemma_prefix_eq(a, b, 0);
        lemma_suffix_eq(a, b, minlen - p, 0);
        let hunks = crate::tree::spec_file_hunks(a, b);
        let h = hunks[0];
        assert(crate::tree::hunk_fits(a.len() as int, h));
        let rep = crate::tree::spec_replace(a, h);
        assert(rep.len() == b.len());
        assert forall|m: int| 0 <= m < b.len() implies rep[m] == b[m] by {
            if m < p {
                assert(a[m] == b[m]);
                assert(rep[m] == a[m]);
            } else if m < b.len() - s {
                assert(rep[m] == b[m]);
            } else {
                let mm = b.len() - 1 - m;
                assert(0 <= mm < s);
                assert(a[a.len() - 1 - mm] == b[b.len() - 1 - mm]);
                assert(rep[m] == a[a.len() - s + (m - (b.len() - s))]);
                assert(a.len() - s + (m - (b.len() - s)) == a.len() - 1 - mm);
            }
        }
        assert(rep =~= b);
        assert(hunks[0] == h);
        assert(hunks.len() == 1);
        assert(crate::tree::spec_apply_file(a, hunks, 1) == crate::tree::spec_apply_file(
            rep,
            hunks,
            0,
        ));
        assert(crate::tree::spec_apply_file(rep, hunks, 0) == Some(rep));
    }
}

} // verus!
