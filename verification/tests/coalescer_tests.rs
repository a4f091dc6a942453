use project_diff::coalescer::Coalescer;
use project_diff::actions::{
    ButtonStates, Hunk, HunkSecondaryStatus, button_states, ranges_overlap,
};
use project_diff::merged_view::RowRange;

#[test]
fn burst_of_signals_coalesces_to_one_refresh() {
    let mut c = Coalescer::new();
    // the synthetic construction signal forces the initial refresh
    assert!(c.try_begin());
    // many change signals fire while that refresh is in flight
    for _ in 0..5 {
        c.signal();
    }
    c.end_pass();
    // they collapse to exactly one further pass
    assert!(c.try_begin());
    c.end_pass();
    assert!(!c.try_begin());
}

#[test]
fn no_signal_means_no_pass() {
    let mut c = Coalescer::new();
    assert!(c.try_begin());
    c.end_pass();
    assert!(!c.try_begin());
    c.signal();
    assert!(c.try_begin());
    c.end_pass();
}

fn hunk(start: u32, end: u32, secondary_status: HunkSecondaryStatus) -> Hunk {
    Hunk { range: RowRange { start, end }, secondary_status }
}

fn range(start: u32, end: u32) -> RowRange {
    RowRange { start, end }
}

#[test]
fn overlap_is_inclusive_on_both_ends() {
    assert!(ranges_overlap(&range(0, 5), &range(5, 9)));
    assert!(ranges_overlap(&range(5, 9), &range(0, 5)));
    assert!(!ranges_overlap(&range(0, 4), &range(5, 9)));
    // a caret inside a hunk touches it
    assert!(ranges_overlap(&range(3, 3), &range(0, 5)));
}

#[test]
fn selection_over_staged_hunk_enables_unstage_only() {
    // a document with two hunks: one fully staged, one fully unstaged
    let hunks = vec![
        hunk(0, 2, HunkSecondaryStatus::NoSecondaryHunk),
        hunk(10, 12, HunkSecondaryStatus::HasSecondaryHunk),
    ];
    // a range covering only the staged hunk
    let b: ButtonStates = button_states(&hunks, &vec![range(0, 3)], None, false, false);
    assert!(b.selection);
    assert!(!b.stage);
    assert!(b.unstage);
    // a range covering both hunks
    let b = button_states(&hunks, &vec![range(0, 11)], None, false, false);
    assert!(b.selection);
    assert!(b.stage);
    assert!(b.unstage);
    // two hunks exist, so previous/next are available
    assert!(b.prev_next);
}

#[test]
fn caret_falls_back_to_the_cursor_excerpt() {
    let hunks = vec![
        hunk(0, 2, HunkSecondaryStatus::OverlapsWithSecondaryHunk),
        hunk(40, 41, HunkSecondaryStatus::NoSecondaryHunk),
    ];
    // an empty selection is no selection
    let carets = vec![range(1, 1)];
    let b = button_states(&hunks, &carets, Some(range(0, 10)), true, false);
    assert!(!b.selection);
    // the cursor excerpt covers only the straddling hunk
    assert!(b.stage);
    assert!(b.unstage);
    assert!(b.stage_all);
    assert!(!b.unstage_all);
    // no cursor excerpt: nothing is enabled
    let b = button_states(&hunks, &carets, None, false, true);
    assert!(!b.stage);
    assert!(!b.unstage);
    assert!(b.unstage_all);
}

#[test]
fn a_single_hunk_disables_prev_next() {
    let hunks = vec![hunk(0, 2, HunkSecondaryStatus::HasSecondaryHunk)];
    let b = button_states(&hunks, &Vec::new(), None, false, false);
    assert!(!b.prev_next);
    assert!(!b.selection);
}

#[test]
fn pending_staging_states_classify_correctly() {
    let everything = vec![range(0, 100)];
    let b = button_states(
        &vec![hunk(0, 1, HunkSecondaryStatus::SecondaryHunkAdditionPending)],
        &everything,
        None,
        false,
        false,
    );
    assert!(b.stage && !b.unstage);
    let b = button_states(
        &vec![hunk(0, 1, HunkSecondaryStatus::SecondaryHunkRemovalPending)],
        &everything,
        None,
        false,
        false,
    );
    assert!(!b.stage && b.unstage);
}
