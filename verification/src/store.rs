//! The in-memory object store: immutable commits with parent pointers, plus
//! the failure-injection hook that models I/O faults of a real store.
//!
//! Commit ids are indices into the store, so they ascend in creation order.
//! Commit 0 is the shared base of every virtual branch; each branch's history
//! is the parent chain from its head down to the base. The engine never
//! mutates an existing commit; it only appends new ones.

use vstd::prelude::*;

use crate::hunks::{DiffHunk, FileDiff, FileDiffV};
use crate::tree::{
    clone_range, spec_apply_file, spec_find, apply_file, FileV, Tree, TreeFile,
};
use crate::util::{lemma_deep_push, lemma_deep_update, lemma_vec_deep};
use crate::errors::EngineError;

verus! {

/// One commit: parent id, message, the full tree it materializes, and the
/// hunks it introduced relative to its parent.
pub struct CommitRecord {
    pub parent: usize,
    pub message: String,
    pub tree: Tree,
    pub changes: Vec<FileDiff>,
}

/// Model of a commit.
#[verifier::ext_equal]
pub struct CommitV {
    pub parent: int,
    pub message: Seq<char>,
    pub tree: Seq<FileV>,
    pub changes: Seq<FileDiffV>,
}

impl View for CommitRecord {
    type V = CommitV;

    open spec fn view(&self) -> CommitV {
        CommitV {
            parent: self.parent as int,
            message: self.message@,
            tree: self.tree@,
            changes: self.changes.deep_view(),
        }
    }
}

impl DeepView for CommitRecord {
    type V = CommitV;

    open spec fn deep_view(&self) -> CommitV {
        self.view()
    }
}

/// The object store: the commits, and a test hook that makes the next write
/// fail the way a real store fails on I/O errors.
pub struct CommitStore {
    pub commits: Vec<CommitRecord>,
    pub fail_next_write: bool,
}

/// Model of the store.
#[verifier::ext_equal]
pub struct StoreV {
    pub commits: Seq<CommitV>,
    pub fail_next_write: bool,
}

impl View for CommitStore {
    type V = StoreV;

    open spec fn view(&self) -> StoreV {
        StoreV { commits: self.commits.deep_view(), fail_next_write: self.fail_next_write }
    }
}

/// Parent pointers only reach strictly older commits; commit 0 is its own
/// parent and serves as the base.
pub open spec fn store_parents_ok(s: Seq<CommitV>) -> bool {
    s.len() >= 1 && forall|i: int| 1 <= i < s.len() ==> 0 <= #[trigger] s[i].parent < i
}

/// The ids on the path from the base (exclusive) up to `h` (inclusive), in
/// ascending ancestry order.
pub open spec fn spec_chain(s: Seq<CommitV>, h: int) -> Seq<int>
    decreases h,
        when h <= 0 || (store_parents_ok(s) && 0 < h < s.len())
{
    if h <= 0 {
        Seq::empty()
    } else {
        spec_chain(s, s[h].parent).push(h)
    }
}

/// Whether `c` is an ancestor of `h` (or `h` itself); the base commit 0 is an
/// ancestor of everything.
pub open spec fn spec_ancestor(s: Seq<CommitV>, h: int, c: int) -> bool {
    c == 0 || spec_chain(s, h).contains(c)
}

pub open spec fn seq_int(s: Seq<usize>) -> Seq<int> {
    s.map_values(|u: usize| u as int)
}

impl CommitStore {
    /// The commit ids from the base (exclusive) up to `h` (inclusive), oldest
    /// first.
    pub fn chain_of(&self, h: usize) -> (r: Vec<usize>)
        requires
            store_parents_ok(self@.commits),
            h < self.commits.len(),
        ensures
            seq_int(r@) == spec_chain(self@.commits, h as int),
            forall|k: int| 0 <= k < r.len() ==> #[trigger] r@[k] < self.commits.len(),
        decreases h,
    {
        proof {
            lemma_vec_deep(&self.commits);
        }
        if h == 0 {
            let r: Vec<usize> = Vec::new();
            proof {
                assert(seq_int(r@) =~= Seq::<int>::empty());
            }
            r
        } else {
            let p = self.commits[h].parent;
            proof {
                assert(p as int == self@.commits[h as int].parent);
                assert((p as int) < (h as int));
            }
            let mut r = self.chain_of(p);
            let ghost r0 = r@;
            r.push(h);
            proof {
                assert(seq_int(r0.push(h)) =~= seq_int(r0).push(h as int));
            }
            r
        }
    }

    /// Whether `c` is an ancestor of `h` (or `h` itself, or the base).
    #[verifier::loop_isolation(false)]
    pub fn is_ancestor(&self, h: usize, c: usize) -> (r: bool)
        requires
            store_parents_ok(self@.commits),
            h < self.commits.len(),
        ensures
            r == spec_ancestor(self@.commits, h as int, c as int),
    {
        if c == 0 {
            return true;
        }
        let chain = self.chain_of(h);
        let mut i: usize = 0;
        while i < chain.len()
            invariant
                0 <= i <= chain.len(),
                forall|k: int| 0 <= k < i ==> chain@[k] != c,
            decreases chain.len() - i,
        {
            if chain[i] == c {
                proof {
                    assert(seq_int(chain@)[i as int] == c as int);
                    assert(seq_int(chain@).contains(c as int));
                }
                return true;
            }
            i += 1;
        }
        proof {
            if spec_chain(self@.commits, h as int).contains(c as int) {
                let k = choose|k: int|
                    0 <= k < seq_int(chain@).len() && seq_int(chain@)[k] == c as int;
                assert(chain@[k] == c);
            }
        }
        false
    }

    /// Writes a commit object. Relied on to fail exactly when the injected
    /// fault is armed, leaving the commits untouched; on success the record
    /// is appended and its id returned.
    pub fn write_commit(&mut self, rec: CommitRecord) -> (r: Result<usize, EngineError>)
        ensures
            old(self)@.fail_next_write ==> r == Result::<usize, EngineError>::Err(
                EngineError::Object,
            ) && final(self)@.commits == old(self)@.commits && !final(self)@.fail_next_write,
            !old(self)@.fail_next_write ==> r == Result::<usize, EngineError>::Ok(
                old(self).commits.len() as usize,
            ) && final(self)@.commits == old(self)@.commits.push(rec@)
                && !final(self)@.fail_next_write,
    {
        if self.fail_next_write {
            self.fail_next_write = false;
            Err(EngineError::Object)
        } else {
            let id = self.commits.len();
            let ghost c0 = self.commits@;
            let ghost recg = rec;
            self.commits.push(rec);
            proof {
                lemma_vec_deep(&self.commits);
                assert(self.commits@ == c0.push(recg));
                lemma_deep_push(c0, recg);
            }
            Ok(id)
        }
    }
}

/// The tree after applying one file's hunks: the file is rewritten in place,
/// or appended when the path is new; `None` when a hunk does not fit.
pub open spec fn spec_apply_one(t: Seq<FileV>, fd: FileDiffV) -> Option<Seq<FileV>> {
    match spec_find(t, fd.path, 0) {
        Some(k) => match spec_apply_file(t[k].lines, fd.hunks, fd.hunks.len() as int) {
            Some(nl) => Some(t.update(k, FileV { path: fd.path, lines: nl })),
            None => None,
        },
        None => match spec_apply_file(Seq::empty(), fd.hunks, fd.hunks.len() as int) {
            Some(nl) => Some(t.push(FileV { path: fd.path, lines: nl })),
            None => None,
        },
    }
}

/// The tree after applying the file diffs from index `j` on, in order.
pub open spec fn spec_apply_diffs(t: Seq<FileV>, ds: Seq<FileDiffV>, j: int) -> Option<Seq<FileV>>
    decreases ds.len() - j,
{
    if j < 0 || j >= ds.len() {
        Some(t)
    } else {
        match spec_apply_one(t, ds[j]) {
            Some(t2) => spec_apply_diffs(t2, ds, j + 1),
            None => None,
        }
    }
}

/// Clones one tree file.
pub fn clone_file(f: &TreeFile) -> (r: TreeFile)
    ensures
        r@ == f@,
{
    let r = TreeFile { path: f.path.clone(), lines: clone_range(&f.lines, 0, f.lines.len()) };
    proof {
        assert(f.lines.deep_view().subrange(0, f.lines.len() as int) =~= f.lines.deep_view());
    }
    r
}

/// Clones the files of a tree from index `i` on.
fn clone_files(t: &Vec<TreeFile>, i: usize) -> (r: Vec<TreeFile>)
    requires
        i <= t.len(),
    ensures
        r.deep_view() == t.deep_view().subrange(i as int, t.len() as int),
    decreases t.len() - i,
{
    proof {
        lemma_vec_deep(t);
    }
    if i >= t.len() {
        let r: Vec<TreeFile> = Vec::new();
        proof {
            assert(r.deep_view() =~= t.deep_view().subrange(i as int, t.len() as int));
        }
        r
    } else {
        let rest = clone_files(t, i + 1);
        let r = crate::tree::cons(clone_file(&t[i]), rest);
        proof {
            assert(r.deep_view() =~= t.deep_view().subrange(i as int, t.len() as int));
        }
        r
    }
}

/// Clones a whole tree.
pub fn clone_tree(t: &Tree) -> (r: Tree)
    ensures
        r@ == t@,
{
    let files = clone_files(&t.files, 0);
    proof {
        assert(t.files.deep_view().subrange(0, t.files.len() as int) =~= t.files.deep_view());
    }
    Tree { files }
}

/// Applies one file diff to a tree.
fn apply_one(t: &Tree, fd: &FileDiff) -> (r: Option<Tree>)
    ensures
        match r {
            Some(t2) => spec_apply_one(t@, fd@) == Some(t2@),
            None => spec_apply_one(t@, fd@) is None,
        },
{
    proof {
        lemma_vec_deep(&t.files);
        lemma_vec_deep(&fd.hunks);
    }
    match t.find_from(&fd.path, 0) {
        Some(k) => {
            proof {
                crate::tree::lemma_find_bounds(t@, fd.path@, 0);
                assert(t@[k as int].lines == t.files@[k as int].lines.deep_view());
            }
            match apply_file(&t.files[k].lines, &fd.hunks, fd.hunks.len()) {
                Some(nl) => {
                    let nf = TreeFile { path: fd.path.clone(), lines: nl };
                    let ghost nfg = nf;
                    let mut nt = clone_tree(t);
                    let ghost files0 = nt.files@;
                    nt.files[k] = nf;
                    proof {
                        lemma_vec_deep(&nt.files);
                        assert(nt.files@ == files0.update(k as int, nfg));
                        lemma_deep_update(files0, k as int, nfg);
                        assert(nt@ =~= spec_apply_one(t@, fd@).unwrap());
                    }
                    Some(nt)
                },
                None => None,
            }
        },
        None => {
            let empty_lines: Vec<String> = Vec::new();
            proof {
                assert(empty_lines.deep_view() =~= Seq::<Seq<char>>::empty());
            }
            match apply_file(&empty_lines, &fd.hunks, fd.hunks.len()) {
                Some(nl) => {
                    let nf = TreeFile { path: fd.path.clone(), lines: nl };
                    let ghost nfg = nf;
                    let mut nt = clone_tree(t);
                    let ghost files0 = nt.files@;
                    nt.files.push(nf);
                    proof {
                        lemma_vec_deep(&nt.files);
                        assert(nt.files@ == files0.push(nfg));
                        lemma_deep_push(files0, nfg);
                        assert(nt@ =~= spec_apply_one(t@, fd@).unwrap());
                    }
                    Some(nt)
                },
                None => None,
            }
        },
    }
}

/// Applies the file diffs from index `j` on to a tree.
pub fn apply_diffs(t: &Tree, ds: &Vec<FileDiff>, j: usize) -> (r: Option<Tree>)
    requires
        j <= ds.len(),
    ensures
        match r {
            Some(t2) => spec_apply_diffs(t@, ds.deep_view(), j as int) == Some(t2@),
            None => spec_apply_diffs(t@, ds.deep_view(), j as int) is None,
        },
    decreases ds.len() - j,
{
    proof {
        lemma_vec_deep(ds);
    }
    if j >= ds.len() {
        Some(clone_tree(t))
    } else {
        match apply_one(t, &ds[j]) {
            Some(t2) => apply_diffs(&t2, ds, j + 1),
            None => None,
        }
    }
}

} // verus!
