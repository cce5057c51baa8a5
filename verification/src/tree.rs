//! Trees (file path to line content), the built-in line diff, and hunk
//! application.
//!
//! The diff of two files is a list of hunks in ascending line order. For files
//! of equal length it is the list of maximal runs of changed lines; for files
//! of different length it is a single hunk covering everything between the
//! common prefix and the common suffix. Applying a file's hunks, last to
//! first, onto the old content rebuilds the new content.

use vstd::prelude::*;

use crate::hunks::{DiffHunk, FileDiff, FileDiffV, HunkV};
use crate::util::{deep, lemma_deep_insert0, lemma_deep_push, lemma_deep_update, lemma_vec_deep};

verus! {

/// One file of a tree: a path and its lines.
#[derive(PartialEq, Eq, Debug)]
pub struct TreeFile {
    pub path: String,
    pub lines: Vec<String>,
}

/// Model of a tree file.
#[verifier::ext_equal]
pub struct FileV {
    pub path: Seq<char>,
    pub lines: Seq<Seq<char>>,
}

impl View for TreeFile {
    type V = FileV;

    open spec fn view(&self) -> FileV {
        FileV { path: self.path@, lines: self.lines.deep_view() }
    }
}

impl DeepView for TreeFile {
    type V = FileV;

    open spec fn deep_view(&self) -> FileV {
        self.view()
    }
}

/// A tree-like state: an ordered list of files with distinct paths.
#[derive(PartialEq, Eq, Debug)]
pub struct Tree {
    pub files: Vec<TreeFile>,
}

impl View for Tree {
    type V = Seq<FileV>;

    open spec fn view(&self) -> Seq<FileV> {
        self.files.deep_view()
    }
}

/// Index of the file with the given path, scanning from `i`.
pub open spec fn spec_find(t: Seq<FileV>, path: Seq<char>, i: int) -> Option<int>
    decreases t.len() - i,
{
    if i < 0 || i >= t.len() {
        None
    } else if t[i].path == path {
        Some(i)
    } else {
        spec_find(t, path, i + 1)
    }
}

pub proof fn lemma_find_bounds(t: Seq<FileV>, path: Seq<char>, i: int)
    requires
        0 <= i,
    ensures
        match spec_find(t, path, i) {
            Some(k) => i <= k < t.len() && t[k].path == path,
            None => forall|k: int| i <= k < t.len() ==> t[k].path != path,
        },
    decreases t.len() - i,
{
    if i < t.len() && t[i].path != path {
        lemma_find_bounds(t, path, i + 1);
    }
}

impl Tree {
    /// Looks a path up in the tree, scanning from index `i`.
    pub fn find_from(&self, path: &String, i: usize) -> (r: Option<usize>)
        requires
            i <= self.files.len(),
        ensures
            match r {
                Some(k) => spec_find(self@, path@, i as int) == Some(k as int) && k
                    < self.files.len(),
                None => spec_find(self@, path@, i as int) is None,
            },
        decreases self.files.len() - i,
    {
        proof {
            lemma_vec_deep(&self.files);
        }
        if i >= self.files.len() {
            None
        } else if self.files[i].path == *path {
            Some(i)
        } else {
            self.find_from(path, i + 1)
        }
    }
}

/// Clones the lines `s..e` of a file.
pub fn clone_range(b: &Vec<String>, s: usize, e: usize) -> (r: Vec<String>)
    requires
        s <= e <= b.len(),
    ensures
        r.deep_view() == b.deep_view().subrange(s as int, e as int),
    decreases e - s,
{
    if s >= e {
        let r: Vec<String> = Vec::new();
        proof {
            assert(r.deep_view() =~= b.deep_view().subrange(s as int, e as int));
        }
        r
    } else {
        let mut rest = clone_range(b, s + 1, e);
        let ghost rest0 = rest@;
        rest.insert(0, b[s].clone());
        proof {
            lemma_vec_deep(&rest);
            lemma_vec_deep(b);
            assert(rest@ == rest0.insert(0, b@[s as int]));
            lemma_deep_insert0(rest0, b@[s as int]);
            assert(deep(rest0) == b.deep_view().subrange(s + 1, e as int));
            assert(rest.deep_view() =~= b.deep_view().subrange(s as int, e as int));
        }
        rest
    }
}

/// Appends clones of the lines `i..` of `src` to `dst`.
pub fn append_range(dst: Vec<String>, src: &Vec<String>, i: usize) -> (r: Vec<String>)
    requires
        i <= src.len(),
    ensures
        r.deep_view() == dst.deep_view() + src.deep_view().subrange(i as int, src.len() as int),
    decreases src.len() - i,
{
    if i >= src.len() {
        proof {
            assert(dst.deep_view() =~= dst.deep_view() + src.deep_view().subrange(
                i as int,
                src.len() as int,
            ));
        }
        dst
    } else {
        let ghost dv = dst.deep_view();
        let mut d = dst;
        d.push(src[i].clone());
        proof {
            lemma_vec_deep(&d);
            assert(d.deep_view() =~= dv.push(src.deep_view()[i as int]));
        }
        let r = append_range(d, src, i + 1);
        proof {
            assert(r.deep_view() =~= dst.deep_view() + src.deep_view().subrange(
                i as int,
                src.len() as int,
            ));
        }
        r
    }
}

/// Whether the old range of `h` lies within a file of `n` lines.
pub open spec fn hunk_fits(n: int, h: HunkV) -> bool {
    1 <= h.old_start && h.old_start - 1 + h.old_lines <= n && h.lines.len() == h.new_lines
}

/// The file content after replacing the old range of `h` with its lines.
pub open spec fn spec_replace(lines: Seq<Seq<char>>, h: HunkV) -> Seq<Seq<char>> {
    lines.subrange(0, h.old_start - 1) + h.lines + lines.subrange(
        h.old_start - 1 + h.old_lines,
        lines.len() as int,
    )
}

/// Replaces the old range of one hunk with its replacement lines.
pub fn replace_one(lines: &Vec<String>, h: &DiffHunk) -> (r: Vec<String>)
    requires
        hunk_fits(lines.len() as int, h@),
    ensures
        r.deep_view() == spec_replace(lines.deep_view(), h@),
{
    let prefix = clone_range(lines, 0, h.old_start - 1);
    let with_new = append_range(prefix, &h.lines, 0);
    let r = append_range(with_new, lines, h.old_start - 1 + h.old_lines);
    proof {
        assert(h.lines.deep_view().subrange(0, h.lines.len() as int) =~= h.lines.deep_view());
        assert(r.deep_view() =~= spec_replace(lines.deep_view(), h@));
    }
    r
}

/// The file content after applying the first `j` hunks, last to first, onto
/// `lines`; `None` when some hunk does not fit the content it is applied to.
pub open spec fn spec_apply_file(lines: Seq<Seq<char>>, hunks: Seq<HunkV>, j: int) -> Option<
    Seq<Seq<char>>,
>
    decreases j,
{
    if j <= 0 {
        Some(lines)
    } else if 0 < j <= hunks.len() && hunk_fits(lines.len() as int, hunks[j - 1]) {
        spec_apply_file(spec_replace(lines, hunks[j - 1]), hunks, j - 1)
    } else {
        None
    }
}

/// Applies the first `j` hunks of `hunks` onto `lines`, last to first.
pub fn apply_file(lines: &Vec<String>, hunks: &Vec<DiffHunk>, j: usize) -> (r: Option<Vec<String>>)
    requires
        j <= hunks.len(),
    ensures
        match r {
            Some(nl) => spec_apply_file(lines.deep_view(), hunks.deep_view(), j as int) == Some(
                nl.deep_view(),
            ),
            None => spec_apply_file(lines.deep_view(), hunks.deep_view(), j as int) is None,
        },
    decreases j,
{
    proof {
        lemma_vec_deep(hunks);
    }
    if j == 0 {
        Some(clone_range(lines, 0, lines.len()))
    } else {
        let h = &hunks[j - 1];
        let fits: bool = 1 <= h.old_start && h.old_start - 1 <= lines.len() && h.old_lines
            <= lines.len() - (h.old_start - 1) && h.lines.len() == h.new_lines;
        if fits {
            let replaced = replace_one(lines, h);
            apply_file(&replaced, hunks, j - 1)
        } else {
            None
        }
    }
}

/// Prepends one element to a vector.
pub fn cons<T: DeepView>(x: T, rest: Vec<T>) -> (r: Vec<T>)
    ensures
        r.deep_view() == seq![x.deep_view()] + rest.deep_view(),
{
    let ghost xg = x;
    let ghost r0 = rest@;
    let mut r = rest;
    r.insert(0, x);
    proof {
        lemma_vec_deep(&r);
        assert(r@ == r0.insert(0, xg));
        lemma_deep_insert0(r0, xg);
        assert(deep(r0.insert(0, xg)) =~= seq![xg.deep_view()] + deep(r0));
    }
    r
}

/// Length of the common prefix of `a` and `b`, counting from `i`.
pub open spec fn spec_prefix(a: Seq<Seq<char>>, b: Seq<Seq<char>>, i: int) -> int
    decreases a.len() - i,
{
    if 0 <= i && i < a.len() && i < b.len() && a[i] == b[i] {
        spec_prefix(a, b, i + 1)
    } else {
        i
    }
}

pub proof fn lemma_prefix_bounds(a: Seq<Seq<char>>, b: Seq<Seq<char>>, i: int)
    requires
        0 <= i <= a.len(),
        i <= b.len(),
    ensures
        i <= spec_prefix(a, b, i) <= a.len(),
        spec_prefix(a, b, i) <= b.len(),
    decreases a.len() - i,
{
    if i < a.len() && i < b.len() && a[i] == b[i] {
        lemma_prefix_bounds(a, b, i + 1);
    }
}

/// Length of the common suffix of `a` and `b`, counting from `s`, never more
/// than `cap`.
pub open spec fn spec_suffix(a: Seq<Seq<char>>, b: Seq<Seq<char>>, cap: int, s: int) -> int
    decreases cap - s,
{
    if 0 <= s && s < cap && s < a.len() && s < b.len() && a[a.len() - 1 - s] == b[b.len() - 1 - s] {
        spec_suffix(a, b, cap, s + 1)
    } else {
        s
    }
}

pub proof fn lemma_suffix_bounds(a: Seq<Seq<char>>, b: Seq<Seq<char>>, cap: int, s: int)
    requires
        0 <= s <= cap,
    ensures
        s <= spec_suffix(a, b, cap, s) <= cap,
    decreases cap - s,
{
    if s < cap && s < a.len() && s < b.len() && a[a.len() - 1 - s] == b[b.len() - 1 - s] {
        lemma_suffix_bounds(a, b, cap, s + 1);
    }
}

/// The hunk for a run of changed lines `s..e`: equal old and new range, the
/// new lines as replacement text.
pub open spec fn mk_run(b: Seq<Seq<char>>, s: int, e: int) -> HunkV {
    HunkV {
        old_start: s + 1,
        old_lines: e - s,
        new_start: s + 1,
        new_lines: e - s,
        lines: b.subrange(s, e),
    }
}

pub open spec fn opt_int(o: Option<usize>) -> Option<int> {
    match o {
        Some(u) => Some(u as int),
        None => None,
    }
}

/// Hunks of two equal-length files: maximal runs of positions whose lines
/// differ. `cur` carries the start of the currently open run.
pub open spec fn spec_runs(a: Seq<Seq<char>>, b: Seq<Seq<char>>, i: int, cur: Option<int>) -> Seq<
    HunkV,
>
    decreases a.len() - i,
{
    if i < 0 || i >= a.len() {
        match cur {
            Some(s) => seq![mk_run(b, s, i)],
            None => Seq::empty(),
        }
    } else if a[i] == b[i] {
        match cur {
            Some(s) => seq![mk_run(b, s, i)] + spec_runs(a, b, i + 1, None),
            None => spec_runs(a, b, i + 1, None),
        }
    } else {
        spec_runs(
            a,
            b,
            i + 1,
            match cur {
                Some(s) => Some(s),
                None => Some(i),
            },
        )
    }
}

/// Builds the hunk for the run of changed lines `s..e` of `b`.
fn mk_run_hunk(b: &Vec<String>, s: usize, e: usize) -> (r: DiffHunk)
    requires
        s < e <= b.len(),
    ensures
        r@ == mk_run(b.deep_view(), s as int, e as int),
{
    DiffHunk {
        old_start: s + 1,
        old_lines: e - s,
        new_start: s + 1,
        new_lines: e - s,
        lines: clone_range(b, s, e),
    }
}

/// Collects the changed runs of two equal-length files, from position `i` on.
fn runs_from(a: &Vec<String>, b: &Vec<String>, i: usize, cur: Option<usize>) -> (r: Vec<DiffHunk>)
    requires
        a.len() == b.len(),
        i <= a.len(),
        cur is Some ==> cur.unwrap() < i,
    ensures
        r.deep_view() == spec_runs(a.deep_view(), b.deep_view(), i as int, opt_int(cur)),
    decreases a.len() - i,
{
    proof {
        lemma_vec_deep(a);
        lemma_vec_deep(b);
    }
    if i >= a.len() {
        match cur {
            Some(s) => {
                let r = cons(mk_run_hunk(b, s, i), Vec::new());
                proof {
                    assert(r.deep_view() =~= spec_runs(
                        a.deep_view(),
                        b.deep_view(),
                        i as int,
                        opt_int(cur),
                    ));
                }
                r
            },
            None => {
                let r: Vec<DiffHunk> = Vec::new();
                proof {
                    assert(r.deep_view() =~= Seq::<HunkV>::empty());
                }
                r
            },
        }
    } else if a[i] == b[i] {
        match cur {
            Some(s) => {
                let rest = runs_from(a, b, i + 1, None);
                let r = cons(mk_run_hunk(b, s, i), rest);
                proof {
                    assert(r.deep_view() =~= spec_runs(
                        a.deep_view(),
                        b.deep_view(),
                        i as int,
                        opt_int(cur),
                    ));
                }
                r
            },
            None => runs_from(a, b, i + 1, None),
        }
    } else {
        let ns: usize = match cur {
            Some(s) => s,
            None => i,
        };
        runs_from(a, b, i + 1, Some(ns))
    }
}

/// Hunks of one file's change: changed runs when the line count is unchanged,
/// otherwise one hunk covering everything between the common prefix and the
/// common suffix.
pub open spec fn spec_file_hunks(a: Seq<Seq<char>>, b: Seq<Seq<char>>) -> Seq<HunkV> {
    if a.len() == b.len() {
        spec_runs(a, b, 0, None)
    } else {
        let minlen: int = if a.len() <= b.len() {
            a.len() as int
        } else {
            b.len() as int
        };
        let p = spec_prefix(a, b, 0);
        let s = spec_suffix(a, b, minlen - p, 0);
        seq![
            HunkV {
                old_start: p + 1,
                old_lines: a.len() - s - p,
                new_start: p + 1,
                new_lines: b.len() - s - p,
                lines: b.subrange(p, b.len() - s),
            },
        ]
    }
}

/// Computes the hunks of one file's change from `a` to `b`.
pub fn file_hunks(a: &Vec<String>, b: &Vec<String>) -> (r: Vec<DiffHunk>)
    ensures
        r.deep_view() == spec_file_hunks(a.deep_view(), b.deep_view()),
{
    if a.len() == b.len() {
        runs_from(a, b, 0, None)
    } else {
        let minlen: usize = if a.len() <= b.len() {
            a.len()
        } else {
            b.len()
        };
        proof {
            lemma_prefix_bounds(a.deep_view(), b.deep_view(), 0);
        }
        let p = prefix_from(a, b, 0);
        proof {
            lemma_suffix_bounds(a.deep_view(), b.deep_view(), minlen - p, 0);
        }
        let s = suffix_from(a, b, minlen - p, 0);
        let h = DiffHunk {
            old_start: p + 1,
            old_lines: a.len() - s - p,
            new_start: p + 1,
            new_lines: b.len() - s - p,
            lines: clone_range(b, p, b.len() - s),
        };
        let r = cons(h, Vec::new());
        proof {
            assert(r.deep_view() =~= spec_file_hunks(a.deep_view(), b.deep_view()));
        }
        r
    }
}

/// Length of the common prefix, computed from `i`.
fn prefix_from(a: &Vec<String>, b: &Vec<String>, i: usize) -> (r: usize)
    requires
        i <= a.len(),
        i <= b.len(),
    ensures
        r as int == spec_prefix(a.deep_view(), b.deep_view(), i as int),
        i <= r <= a.len(),
        r <= b.len(),
    decreases a.len() - i,
{
    proof {
        lemma_vec_deep(a);
        lemma_vec_deep(b);
    }
    if i < a.len() && i < b.len() && a[i] == b[i] {
        prefix_from(a, b, i + 1)
    } else {
        i
    }
}

/// Length of the common suffix, computed from `s`, capped at `cap`.
fn suffix_from(a: &Vec<String>, b: &Vec<String>, cap: usize, s: usize) -> (r: usize)
    requires
        s <= cap,
        cap <= a.len(),
        cap <= b.len(),
    ensures
        r as int == spec_suffix(a.deep_view(), b.deep_view(), cap as int, s as int),
        s <= r <= cap,
    decreases cap - s,
{
    proof {
        lemma_vec_deep(a);
        lemma_vec_deep(b);
    }
    if s < cap && a[a.len() - 1 - s] == b[b.len() - 1 - s] {
        suffix_from(a, b, cap, s + 1)
    } else {
        s
    }
}

/// File diffs for the files present in `new`, from index `j` on: one entry
/// per file whose content differs from its counterpart in `old` (a file
/// missing from `old` counts as empty).
pub open spec fn spec_diff_new(old: Seq<FileV>, new: Seq<FileV>, j: int) -> Seq<FileDiffV>
    decreases new.len() - j,
{
    if j < 0 || j >= new.len() {
        Seq::empty()
    } else {
        let oldlines = match spec_find(old, new[j].path, 0) {
            Some(k) => old[k].lines,
            None => Seq::empty(),
        };
        let hs = spec_file_hunks(oldlines, new[j].lines);
        let rest = spec_diff_new(old, new, j + 1);
        if hs.len() > 0 {
            seq![FileDiffV { path: new[j].path, hunks: hs }] + rest
        } else {
            rest
        }
    }
}

/// File diffs for the files of `old` that are absent from `new`: their lines
/// are all deleted.
pub open spec fn spec_diff_deleted(old: Seq<FileV>, new: Seq<FileV>, j: int) -> Seq<FileDiffV>
    decreases old.len() - j,
{
    if j < 0 || j >= old.len() {
        Seq::empty()
    } else {
        let rest = spec_diff_deleted(old, new, j + 1);
        if spec_find(new, old[j].path, 0) is None {
            let hs = spec_file_hunks(old[j].lines, Seq::empty());
            if hs.len() > 0 {
                seq![FileDiffV { path: old[j].path, hunks: hs }] + rest
            } else {
                rest
            }
        } else {
            rest
        }
    }
}

/// The diff of two trees: changed and created files first, in the order of
/// `new`, then deleted files in the order of `old`.
pub open spec fn spec_tree_diff(old: Seq<FileV>, new: Seq<FileV>) -> Seq<FileDiffV> {
    spec_diff_new(old, new, 0) + spec_diff_deleted(old, new, 0)
}

fn diff_new_from(old: &Tree, new: &Tree, j: usize) -> (r: Vec<FileDiff>)
    requires
        j <= new.files.len(),
    ensures
        r.deep_view() == spec_diff_new(old@, new@, j as int),
    decreases new.files.len() - j,
{
    proof {
        lemma_vec_deep(&new.files);
        lemma_vec_deep(&old.files);
    }
    if j >= new.files.len() {
        let r: Vec<FileDiff> = Vec::new();
        proof {
            assert(r.deep_view() =~= Seq::<FileDiffV>::empty());
        }
        r
    } else {
        let nf = &new.files[j];
        let empty_lines: Vec<String> = Vec::new();
        proof {
            assert(empty_lines.deep_view() =~= Seq::<Seq<char>>::empty());
        }
        let hs = match old.find_from(&nf.path, 0) {
            Some(k) => {
                proof {
                    lemma_find_bounds(old@, nf.path@, 0);
                    assert(old@[k as int].lines == old.files@[k as int].lines.deep_view());
                }
                file_hunks(&old.files[k].lines, &nf.lines)
            },
            None => file_hunks(&empty_lines, &nf.lines),
        };
        let rest = diff_new_from(old, new, j + 1);
        if hs.len() > 0 {
            let fd = FileDiff { path: nf.path.clone(), hunks: hs };
            let r = cons(fd, rest);
            proof {
                assert(r.deep_view() =~= spec_diff_new(old@, new@, j as int));
            }
            r
        } else {
            proof {
                assert(spec_file_hunks(
                    match spec_find(old@, new@[j as int].path, 0) {
                        Some(k) => old@[k].lines,
                        None => Seq::empty(),
                    },
                    new@[j as int].lines,
                ).len() == 0);
            }
            rest
        }
    }
}

fn diff_deleted_from(old: &Tree, new: &Tree, j: usize) -> (r: Vec<FileDiff>)
    requires
        j <= old.files.len(),
    ensures
        r.deep_view() == spec_diff_deleted(old@, new@, j as int),
    decreases old.files.len() - j,
{
    proof {
        lemma_vec_deep(&old.files);
    }
    if j >= old.files.len() {
        let r: Vec<FileDiff> = Vec::new();
        proof {
            assert(r.deep_view() =~= Seq::<FileDiffV>::empty());
        }
        r
    } else {
        let of = &old.files[j];
        let rest = diff_deleted_from(old, new, j + 1);
        match new.find_from(&of.path, 0) {
            Some(_) => rest,
            None => {
                let empty_lines: Vec<String> = Vec::new();
                proof {
                    assert(empty_lines.deep_view() =~= Seq::<Seq<char>>::empty());
                }
                let hs = file_hunks(&of.lines, &empty_lines);
                if hs.len() > 0 {
                    let fd = FileDiff { path: of.path.clone(), hunks: hs };
                    let r = cons(fd, rest);
                    proof {
                        assert(r.deep_view() =~= spec_diff_deleted(old@, new@, j as int));
                    }
                    r
                } else {
                    rest
                }
            },
        }
    }
}

/// Computes the full diff between two trees.
pub fn tree_diff(old: &Tree, new: &Tree) -> (r: Vec<FileDiff>)
    ensures
        r.deep_view() == spec_tree_diff(old@, new@),
{
    let changed = diff_new_from(old, new, 0);
    let deleted = diff_deleted_from(old, new, 0);
    let r2 = append_diffs(changed, deleted);
    proof {
        assert(r2.deep_view() =~= spec_tree_diff(old@, new@));
    }
    r2
}

/// Moves all elements of `src` to the end of `dst`.
fn append_diffs(dst: Vec<FileDiff>, src: Vec<FileDiff>) -> (r: Vec<FileDiff>)
    ensures
        r.deep_view() == dst.deep_view() + src.deep_view(),
    decreases src.len(),
{
    proof {
        lemma_vec_deep(&src);
        lemma_vec_deep(&dst);
    }
    let mut src2 = src;
    if src2.len() == 0 {
        proof {
            assert(dst.deep_view() =~= dst.deep_view() + src.deep_view());
        }
        dst
    } else {
        let ghost s0 = src2@;
        let x = src2.remove(0);
        let ghost xg = x;
        let ghost d0 = dst@;
        let mut d = dst;
        d.push(x);
        proof {
            lemma_vec_deep(&d);
            lemma_vec_deep(&src2);
            assert(d@ == d0.push(xg));
            lemma_deep_push(d0, xg);
        }
        let r = append_diffs(d, src2);
        proof {
            assert(deep(s0) =~= seq![xg.deep_view()] + deep(src2@));
            assert(r.deep_view() =~= deep(d0) + deep(s0));
        }
        r
    }
}

} // verus!
