//! The lock detector.
//!
//! An uncommitted hunk is locked to a commit when its line range, expanded by
//! the diff context window on both sides, overlaps a range that the commit
//! introduced in the same file — context overlap is deliberately treated as a
//! real dependency, erring toward extra locking. Every commit reachable from
//! any virtual branch's head down to the shared base is scanned, and the lock
//! chain is ordered oldest commit first.

use vstd::prelude::*;

use crate::branch::{BranchV, Lock, LockV, VirtualBranch};
use crate::hunks::{ranges_overlap, check_overlap, DiffHunk, FileDiff, FileDiffV, HunkV};
use crate::store::{spec_chain, CommitStore, CommitV, store_parents_ok};
use crate::tree::cons;
use crate::util::lemma_vec_deep;

verus! {

/// Every branch head points at one of `n` commits.
pub open spec fn heads_ok(bs: Seq<BranchV>, n: int) -> bool {
    forall|i: int| 0 <= i < bs.len() ==> 0 <= #[trigger] bs[i].head < n
}

/// Whether the uncommitted hunk `h` depends on the committed hunk `c`: the
/// old range of `h`, expanded by the context window, overlaps the range `c`
/// occupies in the committed file.
pub open spec fn hunk_depends(h: HunkV, c: HunkV, ctx: int) -> bool {
    ranges_overlap(h.old_start, h.old_lines, c.new_start, c.new_lines, ctx)
}

/// Whether `h` depends on one of the committed hunks `hs`, from `j` on.
pub open spec fn spec_touches_hunks(hs: Seq<HunkV>, h: HunkV, ctx: int, j: int) -> bool
    decreases hs.len() - j,
{
    if j < 0 || j >= hs.len() {
        false
    } else if hunk_depends(h, hs[j], ctx) {
        true
    } else {
        spec_touches_hunks(hs, h, ctx, j + 1)
    }
}

/// Whether a commit whose introduced changes are `ds` touches the hunk `h` of
/// file `path`, scanning the changed files from `j` on.
pub open spec fn spec_touches(ds: Seq<FileDiffV>, path: Seq<char>, h: HunkV, ctx: int, j: int) -> bool
    decreases ds.len() - j,
{
    if j < 0 || j >= ds.len() {
        false
    } else if ds[j].path == path && spec_touches_hunks(ds[j].hunks, h, ctx, 0) {
        true
    } else {
        spec_touches(ds, path, h, ctx, j + 1)
    }
}

/// The first branch, from `i` on, whose history down to the base contains
/// commit `c`.
pub open spec fn spec_holder(s: Seq<CommitV>, bs: Seq<BranchV>, c: int, i: int) -> Option<int>
    decreases bs.len() - i,
{
    if i < 0 || i >= bs.len() {
        None
    } else if spec_chain(s, bs[i].head).contains(c) {
        Some(i)
    } else {
        spec_holder(s, bs, c, i + 1)
    }
}

/// The lock chain of hunk `h` in file `path`: every commit id from `c`
/// upward, in ascending (oldest-first) order, that is reachable from some
/// branch head and introduced an overlapping change, paired with the first
/// branch holding it.
pub open spec fn spec_locks(
    s: Seq<CommitV>,
    bs: Seq<BranchV>,
    path: Seq<char>,
    h: HunkV,
    ctx: int,
    c: int,
) -> Seq<LockV>
    decreases s.len() - c,
{
    if c < 1 || c >= s.len() {
        Seq::empty()
    } else {
        let rest = spec_locks(s, bs, path, h, ctx, c + 1);
        match spec_holder(s, bs, c, 0) {
            Some(b) => if spec_touches(s[c].changes, path, h, ctx, 0) {
                seq![LockV { commit_id: c, branch_id: b }] + rest
            } else {
                rest
            },
            None => rest,
        }
    }
}

/// Every lock of the chain names a commit at or above the scan start.
pub proof fn lemma_locks_ge(
    s: Seq<CommitV>,
    bs: Seq<BranchV>,
    path: Seq<char>,
    h: HunkV,
    ctx: int,
    c: int,
)
    ensures
        forall|k: int|
            0 <= k < spec_locks(s, bs, path, h, ctx, c).len() ==> c <= #[trigger] spec_locks(
                s,
                bs,
                path,
                h,
                ctx,
                c,
            )[k].commit_id < s.len(),
    decreases s.len() - c,
{
    if 1 <= c < s.len() {
        lemma_locks_ge(s, bs, path, h, ctx, c + 1);
        let rest = spec_locks(s, bs, path, h, ctx, c + 1);
        let whole = spec_locks(s, bs, path, h, ctx, c);
        assert forall|k: int| 0 <= k < whole.len() implies c <= (#[trigger] whole[k]).commit_id
            < s.len() by {
            match spec_holder(s, bs, c, 0) {
                Some(b) => {
                    if spec_touches(s[c].changes, path, h, ctx, 0) {
                        if k > 0 {
                            assert(whole[k] == rest[k - 1]);
                        }
                    } else {
                        assert(whole[k] == rest[k]);
                    }
                },
                None => {
                    assert(whole[k] == rest[k]);
                },
            }
        }
    }
}

/// The lock chain is ordered oldest commit first: commit ids strictly ascend
/// along it. This is the double-lock ordering rule, within one branch and
/// across branches alike, because commit ids ascend in creation order.
pub proof fn lemma_locks_sorted(
    s: Seq<CommitV>,
    bs: Seq<BranchV>,
    path: Seq<char>,
    h: HunkV,
    ctx: int,
    c: int,
)
    ensures
        forall|k1: int, k2: int|
            0 <= k1 < k2 < spec_locks(s, bs, path, h, ctx, c).len() ==> spec_locks(
                s,
                bs,
                path,
                h,
                ctx,
                c,
            )[k1].commit_id < spec_locks(s, bs, path, h, ctx, c)[k2].commit_id,
    decreases s.len() - c,
{
    if 1 <= c < s.len() {
        lemma_locks_sorted(s, bs, path, h, ctx, c + 1);
        lemma_locks_ge(s, bs, path, h, ctx, c + 1);
        let rest = spec_locks(s, bs, path, h, ctx, c + 1);
        let whole = spec_locks(s, bs, path, h, ctx, c);
        assert forall|k1: int, k2: int| 0 <= k1 < k2 < whole.len() implies (
        #[trigger] whole[k1]).commit_id < (#[trigger] whole[k2]).commit_id by {
            match spec_holder(s, bs, c, 0) {
                Some(b) => {
                    if spec_touches(s[c].changes, path, h, ctx, 0) {
                        assert(whole[k2] == rest[k2 - 1]);
                        if k1 > 0 {
                            assert(whole[k1] == rest[k1 - 1]);
                        } else {
                            assert(whole[0].commit_id == c);
                        }
                    } else {
                        assert(whole[k1] == rest[k1]);
                        assert(whole[k2] == rest[k2]);
                    }
                },
                None => {
                    assert(whole[k1] == rest[k1]);
                    assert(whole[k2] == rest[k2]);
                },
            }
        }
    }
}

/// Membership in the lock chain, exactly: a lock stands in the chain if and
/// only if its commit is in scan range, held by the branch recorded for it,
/// and its changes overlap the hunk within context.
pub proof fn lemma_locks_member(
    s: Seq<CommitV>,
    bs: Seq<BranchV>,
    path: Seq<char>,
    h: HunkV,
    ctx: int,
    c: int,
    l: LockV,
)
    requires
        1 <= c,
    ensures
        spec_locks(s, bs, path, h, ctx, c).contains(l) <==> (c <= l.commit_id < s.len()
            && 1 <= l.commit_id && spec_holder(s, bs, l.commit_id, 0) == Some(l.branch_id)
            && spec_touches(s[l.commit_id].changes, path, h, ctx, 0)),
    decreases s.len() - c,
{
    if c < 1 || c >= s.len() {
        assert(!spec_locks(s, bs, path, h, ctx, c).contains(l));
    } else {
        lemma_locks_member(s, bs, path, h, ctx, c + 1, l);
        let rest = spec_locks(s, bs, path, h, ctx, c + 1);
        let whole = spec_locks(s, bs, path, h, ctx, c);
        let rhs = c <= l.commit_id < s.len() && 1 <= l.commit_id && spec_holder(
            s,
            bs,
            l.commit_id,
            0,
        ) == Some(l.branch_id) && spec_touches(s[l.commit_id].changes, path, h, ctx, 0);
        match spec_holder(s, bs, c, 0) {
            Some(b) => {
                if spec_touches(s[c].changes, path, h, ctx, 0) {
                    let head = LockV { commit_id: c, branch_id: b };
                    assert(whole == seq![head] + rest);
                    if whole.contains(l) {
                        let k = choose|k: int| 0 <= k < whole.len() && whole[k] == l;
                        if k == 0 {
                            assert(l == head);
                            assert(rhs);
                        } else {
                            assert(rest[k - 1] == l);
                            assert(rest.contains(l));
                            assert(rhs);
                        }
                    }
                    if rhs {
                        if l.commit_id == c {
                            assert(l == head);
                            assert(whole[0] == l);
                            assert(whole.contains(l));
                        } else {
                            assert(rest.contains(l));
                            let k = choose|k: int| 0 <= k < rest.len() && rest[k] == l;
                            assert(whole[k + 1] == l);
                            assert(whole.contains(l));
                        }
                    }
                } else {
                    assert(whole == rest);
                    if whole.contains(l) {
                        assert(c + 1 <= l.commit_id);
                        assert(rhs);
                    }
                    if rhs {
                        assert(l.commit_id != c);
                        assert(rest.contains(l));
                    }
                }
            },
            None => {
                assert(whole == rest);
                if whole.contains(l) {
                    assert(c + 1 <= l.commit_id);
                    assert(rhs);
                }
                if rhs {
                    assert(l.commit_id != c);
                    assert(rest.contains(l));
                }
            },
        }
    }
}

/// A project without commits locks nothing: when every branch head sits on
/// the base, the lock chain of every hunk is empty.
pub proof fn lemma_no_commits_no_locks(
    s: Seq<CommitV>,
    bs: Seq<BranchV>,
    path: Seq<char>,
    h: HunkV,
    ctx: int,
    c: int,
)
    requires
        forall|i: int| 0 <= i < bs.len() ==> #[trigger] bs[i].head == 0,
    ensures
        spec_locks(s, bs, path, h, ctx, c) == Seq::<LockV>::empty(),
    decreases s.len() - c,
{
    if 1 <= c < s.len() {
        lemma_holder_none_without_commits(s, bs, c, 0);
        lemma_no_commits_no_locks(s, bs, path, h, ctx, c + 1);
    }
}

proof fn lemma_holder_none_without_commits(s: Seq<CommitV>, bs: Seq<BranchV>, c: int, i: int)
    requires
        forall|j: int| 0 <= j < bs.len() ==> #[trigger] bs[j].head == 0,
        c >= 1,
    ensures
        spec_holder(s, bs, c, i) is None,
    decreases bs.len() - i,
{
    if 0 <= i && i < bs.len() {
        assert(spec_chain(s, bs[i].head).len() == 0);
        lemma_holder_none_without_commits(s, bs, c, i + 1);
    }
}

fn touches_hunks_from(hs: &Vec<DiffHunk>, h: &DiffHunk, ctx: usize, j: usize) -> (r: bool)
    requires
        j <= hs.len(),
    ensures
        r == spec_touches_hunks(hs.deep_view(), h@, ctx as int, j as int),
    decreases hs.len() - j,
{
    proof {
        lemma_vec_deep(hs);
    }
    if j >= hs.len() {
        false
    } else if check_overlap(h.old_start, h.old_lines, hs[j].new_start, hs[j].new_lines, ctx) {
        true
    } else {
        touches_hunks_from(hs, h, ctx, j + 1)
    }
}

fn touches_from(ds: &Vec<FileDiff>, path: &String, h: &DiffHunk, ctx: usize, j: usize) -> (r: bool)
    requires
        j <= ds.len(),
    ensures
        r == spec_touches(ds.deep_view(), path@, h@, ctx as int, j as int),
    decreases ds.len() - j,
{
    proof {
        lemma_vec_deep(ds);
    }
    if j >= ds.len() {
        false
    } else if ds[j].path == *path && touches_hunks_from(&ds[j].hunks, h, ctx, 0) {
        true
    } else {
        touches_from(ds, path, h, ctx, j + 1)
    }
}

fn holder_from(store: &CommitStore, bs: &Vec<VirtualBranch>, c: usize, i: usize) -> (r: Option<
    usize,
>)
    requires
        store_parents_ok(store@.commits),
        heads_ok(bs.deep_view(), store@.commits.len() as int),
        c >= 1,
        i <= bs.len(),
    ensures
        match r {
            Some(b) => spec_holder(store@.commits, bs.deep_view(), c as int, i as int) == Some(
                b as int,
            ) && b < bs.len(),
            None => spec_holder(store@.commits, bs.deep_view(), c as int, i as int) is None,
        },
    decreases bs.len() - i,
{
    proof {
        lemma_vec_deep(bs);
        lemma_vec_deep(&store.commits);
    }
    if i >= bs.len() {
        None
    } else {
        proof {
            assert(bs.deep_view()[i as int].head == bs@[i as int].head as int);
        }
        if store.is_ancestor(bs[i].head, c) {
            Some(i)
        } else {
            holder_from(store, bs, c, i + 1)
        }
    }
}

fn detect_locks_from(
    store: &CommitStore,
    bs: &Vec<VirtualBranch>,
    path: &String,
    h: &DiffHunk,
    ctx: usize,
    c: usize,
) -> (r: Vec<Lock>)
    requires
        store_parents_ok(store@.commits),
        heads_ok(bs.deep_view(), store@.commits.len() as int),
        c >= 1,
    ensures
        r.deep_view() == spec_locks(store@.commits, bs.deep_view(), path@, h@, ctx as int, c as int),
    decreases store.commits.len() - c,
{
    proof {
        lemma_vec_deep(&store.commits);
    }
    if c >= store.commits.len() {
        let r: Vec<Lock> = Vec::new();
        proof {
            assert(r.deep_view() =~= Seq::<LockV>::empty());
        }
        r
    } else {
        let rest = detect_locks_from(store, bs, path, h, ctx, c + 1);
        match holder_from(store, bs, c, 0) {
            Some(b) => {
                if touches_from(&store.commits[c].changes, path, h, ctx, 0) {
                    let r = cons(Lock { commit_id: c, branch_id: b }, rest);
                    proof {
                        assert(r.deep_view() =~= spec_locks(
                            store@.commits,
                            bs.deep_view(),
                            path@,
                            h@,
                            ctx as int,
                            c as int,
                        ));
                    }
                    r
                } else {
                    rest
                }
            },
            None => rest,
        }
    }
}

/// Computes the lock chain of one uncommitted hunk: the commits, oldest
/// first, whose introduced changes the hunk overlaps within the context
/// window, each paired with the branch whose history holds it.
pub fn detect_locks(
    store: &CommitStore,
    bs: &Vec<VirtualBranch>,
    path: &String,
    h: &DiffHunk,
    ctx: usize,
) -> (r: Vec<Lock>)
    requires
        store_parents_ok(store@.commits),
        heads_ok(bs.deep_view(), store@.commits.len() as int),
    ensures
        r.deep_view() == spec_locks(store@.commits, bs.deep_view(), path@, h@, ctx as int, 1),
{
    detect_locks_from(store, bs, path, h, ctx, 1)
}

} // verus!
