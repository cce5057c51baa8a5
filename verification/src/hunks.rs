//! Diff hunks and the range-overlap test that drives lock detection.
//!
//! A hunk is a contiguous changed region of one file: a line range in the old
//! file, a line range in the new file (both 1-based), and the replacement
//! lines. The identity of a hunk is its replacement text, not its position:
//! positions shift with unrelated edits, content does not.

use vstd::prelude::*;

verus! {

/// Mathematical model of a hunk: integer ranges plus the replacement lines as
/// sequences of characters.
#[verifier::ext_equal]
pub struct HunkV {
    pub old_start: int,
    pub old_lines: int,
    pub new_start: int,
    pub new_lines: int,
    pub lines: Seq<Seq<char>>,
}

/// One contiguous changed region of a file.
///
/// `old_start`/`old_lines` locate the replaced lines in the old file,
/// `new_start`/`new_lines` the replacement in the new file; both starts are
/// 1-based. A pure insertion has `old_lines == 0` and marks the insertion
/// point; a pure deletion has `new_lines == 0`.
#[derive(PartialEq, Eq, Debug)]
pub struct DiffHunk {
    pub old_start: usize,
    pub old_lines: usize,
    pub new_start: usize,
    pub new_lines: usize,
    pub lines: Vec<String>,
}

impl View for DiffHunk {
    type V = HunkV;

    open spec fn view(&self) -> HunkV {
        HunkV {
            old_start: self.old_start as int,
            old_lines: self.old_lines as int,
            new_start: self.new_start as int,
            new_lines: self.new_lines as int,
            lines: self.lines.deep_view(),
        }
    }
}

/// All hunks of one file, in ascending line order.
#[derive(PartialEq, Eq, Debug)]
pub struct FileDiff {
    pub path: String,
    pub hunks: Vec<DiffHunk>,
}

/// Model of a file's diff.
#[verifier::ext_equal]
pub struct FileDiffV {
    pub path: Seq<char>,
    pub hunks: Seq<HunkV>,
}

impl View for FileDiff {
    type V = FileDiffV;

    open spec fn view(&self) -> FileDiffV {
        FileDiffV { path: self.path@, hunks: self.hunks.deep_view() }
    }
}

impl DeepView for DiffHunk {
    type V = HunkV;

    open spec fn deep_view(&self) -> HunkV {
        self.view()
    }
}

impl DeepView for FileDiff {
    type V = FileDiffV;

    open spec fn deep_view(&self) -> FileDiffV {
        self.view()
    }
}

/// Last line of the inclusive range `[start, ...]` of `lines` lines; an empty
/// range is treated as the single point `start`.
pub open spec fn range_hi(start: int, lines: int) -> int {
    if lines == 0 {
        start
    } else {
        start + lines - 1
    }
}

/// Whether the range `a`, expanded by `ctx` lines on both sides, overlaps the
/// range `b`. This is the dependency test of the lock detector: an edit that
/// falls within the diff context window of committed lines depends on that
/// commit.
pub open spec fn ranges_overlap(
    a_start: int,
    a_lines: int,
    b_start: int,
    b_lines: int,
    ctx: int,
) -> bool {
    a_start - ctx <= range_hi(b_start, b_lines) && b_start <= range_hi(a_start, a_lines) + ctx
}

/// Runtime overlap test, equal to [`ranges_overlap`]. Line arithmetic is done
/// in a type wide enough that no sum can overflow.
pub fn check_overlap(
    a_start: usize,
    a_lines: usize,
    b_start: usize,
    b_lines: usize,
    ctx: usize,
) -> (r: bool)
    ensures
        r == ranges_overlap(a_start as int, a_lines as int, b_start as int, b_lines as int,
            ctx as int),
{
    let a_s = a_start as u128;
    let a_l = a_lines as u128;
    let b_s = b_start as u128;
    let b_l = b_lines as u128;
    let c = ctx as u128;
    let a_hi: u128 = if a_l == 0 { a_s } else { a_s + a_l - 1 };
    let b_hi: u128 = if b_l == 0 { b_s } else { b_s + b_l - 1 };
    let left_ok: bool = if a_s > c { a_s - c <= b_hi } else { true };
    let right_ok: bool = b_s <= a_hi + c;
    left_ok && right_ok
}

/// An edit strictly more than `ctx` lines away from a committed range does not
/// overlap it; an edit within `ctx` lines does. This is the context-boundary
/// rule: with a context window of 3, an edit 5 lines away stays independent
/// and an edit 2 lines away is locked.
pub proof fn lemma_context_boundary(edit_line: int, c_start: int, c_lines: int, ctx: int)
    requires
        c_lines >= 1,
        ctx >= 0,
    ensures
        edit_line + ctx < c_start || c_start + c_lines - 1 + ctx < edit_line
            ==> !ranges_overlap(edit_line, 1, c_start, c_lines, ctx),
        c_start - ctx <= edit_line && edit_line <= c_start + c_lines - 1 + ctx
            ==> ranges_overlap(edit_line, 1, c_start, c_lines, ctx),
{
}

} // verus!
