//! Action-state derivation: which bulk and contextual actions are
//! currently enabled, recomputed from the latest selection and the diff
//! hunks it touches — a pure function, never debounced and never stored.

use vstd::prelude::*;
use crate::merged_view::RowRange;

verus! {

/// How much of a diff hunk the staging area already holds — whether an
/// unstaged counterpart hunk exists, is pending, overlaps, or is gone.
#[derive(Clone, Copy, Debug, PartialEq, Eq, Structural)]
pub enum HunkSecondaryStatus {
    /// An unstaged counterpart hunk exists: nothing of this hunk is staged.
    HasSecondaryHunk,
    /// The unstaged counterpart is about to appear.
    SecondaryHunkAdditionPending,
    /// Part of the hunk is staged and part is not.
    OverlapsWithSecondaryHunk,
    /// No unstaged counterpart: the hunk is fully staged.
    NoSecondaryHunk,
    /// The unstaged counterpart is about to be removed.
    SecondaryHunkRemovalPending,
}

impl HunkSecondaryStatus {
    /// The hunk still has unstaged content.
    pub open spec fn counts_unstaged(self) -> bool {
        self == HunkSecondaryStatus::HasSecondaryHunk || self
            == HunkSecondaryStatus::SecondaryHunkAdditionPending || self
            == HunkSecondaryStatus::OverlapsWithSecondaryHunk
    }

    /// The hunk has staged content.
    pub open spec fn counts_staged(self) -> bool {
        self == HunkSecondaryStatus::OverlapsWithSecondaryHunk || self
            == HunkSecondaryStatus::NoSecondaryHunk || self
            == HunkSecondaryStatus::SecondaryHunkRemovalPending
    }
}

/// One diff hunk: its row range and its staging state.
#[derive(Clone, Copy, Debug, PartialEq, Eq, Structural)]
pub struct Hunk {
    pub range: RowRange,
    pub secondary_status: HunkSecondaryStatus,
}

/// Two row ranges intersect. A caret — an empty range — intersects the
/// hunk it sits inside.
pub open spec fn spec_ranges_overlap(a: RowRange, b: RowRange) -> bool {
    a.start <= b.end && b.start <= a.end
}

/// The hunk intersects the active range set.
pub open spec fn hunk_in_ranges(h: Hunk, ranges: Seq<RowRange>) -> bool {
    exists|i: int| 0 <= i < ranges.len() && spec_ranges_overlap(h.range, #[trigger] ranges[i])
}

/// Some hunk touched by the active ranges still has unstaged content.
pub open spec fn spec_has_unstaged(hunks: Seq<Hunk>, ranges: Seq<RowRange>) -> bool {
    exists|i: int|
        0 <= i < hunks.len() && (#[trigger] hunks[i]).secondary_status.counts_unstaged()
            && hunk_in_ranges(hunks[i], ranges)
}

/// Some hunk touched by the active ranges has staged content.
pub open spec fn spec_has_staged(hunks: Seq<Hunk>, ranges: Seq<RowRange>) -> bool {
    exists|i: int|
        0 <= i < hunks.len() && (#[trigger] hunks[i]).secondary_status.counts_staged()
            && hunk_in_ranges(hunks[i], ranges)
}

/// Which actions the toolbar may offer right now.
#[derive(Clone, Copy, Debug, PartialEq, Eq, Structural)]
pub struct ButtonStates {
    pub stage: bool,
    pub unstage: bool,
    pub prev_next: bool,
    pub selection: bool,
    pub stage_all: bool,
    pub unstage_all: bool,
}

/// True when the two row ranges intersect.
pub fn ranges_overlap(a: &RowRange, b: &RowRange) -> (r: bool)
    ensures
        r == spec_ranges_overlap(*a, *b),
{
    a.start <= b.end && b.start <= a.end
}

/// True when the hunk intersects any of the ranges.
fn hunk_touches(h: &Hunk, ranges: &Vec<RowRange>) -> (r: bool)
    ensures
        r == hunk_in_ranges(*h, ranges@),
{
    let mut i: usize = 0;
    while i < ranges.len()
        invariant
            i <= ranges@.len(),
            forall|j: int| 0 <= j < i ==> !spec_ranges_overlap(h.range, #[trigger] ranges@[j]),
        decreases ranges@.len() - i,
    {
        if ranges_overlap(&h.range, &ranges[i]) {
            return true;
        }
        i = i + 1;
    }
    false
}

/// True when the hunk has unstaged content.
fn is_unstaged(status: HunkSecondaryStatus) -> (r: bool)
    ensures
        r == status.counts_unstaged(),
{
    match status {
        HunkSecondaryStatus::HasSecondaryHunk => true,
        HunkSecondaryStatus::SecondaryHunkAdditionPending => true,
        HunkSecondaryStatus::OverlapsWithSecondaryHunk => true,
        HunkSecondaryStatus::NoSecondaryHunk => false,
        HunkSecondaryStatus::SecondaryHunkRemovalPending => false,
    }
}

/// True when the hunk has staged content.
fn is_staged(status: HunkSecondaryStatus) -> (r: bool)
    ensures
        r == status.counts_staged(),
{
    match status {
        HunkSecondaryStatus::HasSecondaryHunk => false,
        HunkSecondaryStatus::SecondaryHunkAdditionPending => false,
        HunkSecondaryStatus::OverlapsWithSecondaryHunk => true,
        HunkSecondaryStatus::NoSecondaryHunk => true,
        HunkSecondaryStatus::SecondaryHunkRemovalPending => true,
    }
}

/// Derives which actions are enabled from the current selection.
///
/// The active range set is the explicit selection when it holds a real
/// (non-empty) range; otherwise it falls back to the excerpt under the
/// cursor, or to nothing. `stage` is enabled iff the active ranges touch
/// unstaged content; `unstage` iff they touch staged content — the two are
/// independent, so an explicit range selection can offer a single toggle.
/// Previous/next-hunk needs a second hunk anywhere in the view. Bulk
/// staging capability is the repository's, passed through unchanged.
pub fn button_states(
    all_hunks: &Vec<Hunk>,
    selection_ranges: &Vec<RowRange>,
    cursor_excerpt: Option<RowRange>,
    can_stage_all: bool,
    can_unstage_all: bool,
) -> (b: ButtonStates)
    ensures
        b.selection == (exists|i: int|
            0 <= i < selection_ranges@.len() && (#[trigger] selection_ranges@[i]).start
                != selection_ranges@[i].end),
        b.selection ==> b.stage == spec_has_unstaged(all_hunks@, selection_ranges@)
            && b.unstage == spec_has_staged(all_hunks@, selection_ranges@),
        !b.selection ==> match cursor_excerpt {
            Some(r) => b.stage == spec_has_unstaged(all_hunks@, seq![r]) && b.unstage
                == spec_has_staged(all_hunks@, seq![r]),
            None => !b.stage && !b.unstage,
        },
        b.prev_next == (all_hunks@.len() >= 2),
        b.stage_all == can_stage_all,
        b.unstage_all == can_unstage_all,
{
    let mut selection = false;
    let mut i: usize = 0;
    while i < selection_ranges.len()
        invariant
            i <= selection_ranges@.len(),
            selection == (exists|j: int|
                0 <= j < i && (#[trigger] selection_ranges@[j]).start != selection_ranges@[j].end),
        decreases selection_ranges@.len() - i,
    {
        if selection_ranges[i].start != selection_ranges[i].end {
            selection = true;
        }
        i = i + 1;
    }
    let mut active: Vec<RowRange> = Vec::new();
    if selection {
        let mut i: usize = 0;
        while i < selection_ranges.len()
            invariant
                i <= selection_ranges@.len(),
                active@ == selection_ranges@.take(i as int),
            decreases selection_ranges@.len() - i,
        {
            active.push(selection_ranges[i]);
            i = i + 1;
        }
        proof {
            assert(selection_ranges@.take(selection_ranges@.len() as int) =~= selection_ranges@);
        }
    } else {
        match cursor_excerpt {
            Some(r) => {
                active.push(r);
                proof {
                    assert(active@ =~= seq![r]);
                }
            },
            None => {},
        }
    }
    let mut has_staged_hunks = false;
    let mut has_unstaged_hunks = false;
    let mut i: usize = 0;
    while i < all_hunks.len()
        invariant
            i <= all_hunks@.len(),
            has_unstaged_hunks == (exists|j: int|
                0 <= j < i && (#[trigger] all_hunks@[j]).secondary_status.counts_unstaged()
                    && hunk_in_ranges(all_hunks@[j], active@)),
            has_staged_hunks == (exists|j: int|
                0 <= j < i && (#[trigger] all_hunks@[j]).secondary_status.counts_staged()
                    && hunk_in_ranges(all_hunks@[j], active@)),
        decreases all_hunks@.len() - i,
    {
        let h = &all_hunks[i];
        if hunk_touches(h, &active) {
            if is_unstaged(h.secondary_status) {
                has_unstaged_hunks = true;
            }
            if is_staged(h.secondary_status) {
                has_staged_hunks = true;
            }
        }
        i = i + 1;
    }
    proof {
        if active@.len() == 0 {
            assert forall|j: int| 0 <= j < all_hunks@.len() implies !hunk_in_ranges(
                #[trigger] all_hunks@[j],
                active@,
            ) by {}
        }
    }
    ButtonStates {
        stage: has_unstaged_hunks,
        unstage: has_staged_hunks,
        prev_next: all_hunks.len() >= 2,
        selection,
        stage_all: can_stage_all,
        unstage_all: can_unstage_all,
    }
}

} // verus!
