use project_diff::engine::{
    CONTEXT_MARGIN, DiffBuffer, FocusRegion, ProjectDiff, focus_after,
};
use project_diff::merged_view::RowRange;
use project_diff::path_key::{ChangeEntry, FileStatus, Namespace, PathKey, classify};

fn key(namespace: Namespace, path: &str) -> PathKey {
    PathKey { namespace, path: path.as_bytes().to_vec() }
}

fn entry(path: &str, status: FileStatus) -> ChangeEntry {
    ChangeEntry { path: path.as_bytes().to_vec(), status, conflicted: false, openable: true }
}

fn load(namespace: Namespace, path: &str, document_id: u64, hunks: Vec<RowRange>) -> DiffBuffer {
    DiffBuffer {
        path_key: key(namespace, path),
        document_id,
        hunks,
        file_status: FileStatus::Modified,
    }
}

fn hunk(start: u32, end: u32) -> RowRange {
    RowRange { start, end }
}

#[test]
fn classify_follows_the_namespace_policy() {
    assert_eq!(classify(FileStatus::Modified, true), Namespace::Conflicted);
    assert_eq!(classify(FileStatus::Created, true), Namespace::Conflicted);
    assert_eq!(classify(FileStatus::Created, false), Namespace::New);
    assert_eq!(classify(FileStatus::Modified, false), Namespace::Ordinary);
    assert_eq!(classify(FileStatus::Deleted, false), Namespace::Ordinary);
}

#[test]
fn keys_order_by_namespace_then_path() {
    let conflicted = key(Namespace::Conflicted, "zzz");
    let ordinary_a = key(Namespace::Ordinary, "aaa");
    let ordinary_b = key(Namespace::Ordinary, "aab");
    let new = key(Namespace::New, "aaa");
    assert!(conflicted.lt_key(&ordinary_a));
    assert!(ordinary_a.lt_key(&ordinary_b));
    assert!(!ordinary_b.lt_key(&ordinary_a));
    assert!(ordinary_b.lt_key(&new));
    assert!(!ordinary_a.lt_key(&ordinary_a));
    // prefixes sort first within a namespace
    let short = key(Namespace::Ordinary, "foo");
    let long = key(Namespace::Ordinary, "foo.txt");
    assert!(short.lt_key(&long));
    assert!(!long.lt_key(&short));
}

#[test]
fn completion_order_does_not_affect_visible_order() {
    // loads issued for namespace order New, Ordinary, Conflicted but
    // completed in that (reverse of sorted) order
    let mut diff = ProjectDiff::new();
    diff.register_buffer(&load(Namespace::New, "n.txt", 1, vec![hunk(0, 0)]));
    diff.register_buffer(&load(Namespace::Ordinary, "t.txt", 2, vec![hunk(0, 0)]));
    diff.register_buffer(&load(Namespace::Conflicted, "c.txt", 3, vec![hunk(0, 0)]));
    let paths = diff.excerpt_paths();
    assert_eq!(paths, vec![b"c.txt".to_vec(), b"t.txt".to_vec(), b"n.txt".to_vec()]);

    // the same loads completed in the opposite order give the same view
    let mut diff2 = ProjectDiff::new();
    diff2.register_buffer(&load(Namespace::Conflicted, "c.txt", 3, vec![hunk(0, 0)]));
    diff2.register_buffer(&load(Namespace::Ordinary, "t.txt", 2, vec![hunk(0, 0)]));
    diff2.register_buffer(&load(Namespace::New, "n.txt", 1, vec![hunk(0, 0)]));
    assert_eq!(diff2.excerpt_paths(), paths);
}

#[test]
fn applying_the_same_snapshot_twice_changes_nothing() {
    let entries = vec![entry("a.txt", FileStatus::Modified), entry("b.txt", FileStatus::Modified)];
    let loads = vec![
        load(Namespace::Ordinary, "a.txt", 1, vec![hunk(3, 5)]),
        load(Namespace::Ordinary, "b.txt", 2, vec![hunk(10, 12)]),
    ];
    let mut diff = ProjectDiff::new();
    diff.handle_status_updates(Some(&entries), &loads);
    let first_paths = diff.excerpt_paths();
    let first_len = diff.view.len();
    diff.handle_status_updates(Some(&entries), &loads);
    assert_eq!(diff.excerpt_paths(), first_paths);
    assert_eq!(diff.view.len(), first_len);
    assert_eq!(first_len, 2);
}

#[test]
fn pruning_keeps_exactly_the_reported_paths() {
    let mut diff = ProjectDiff::new();
    for p in ["a", "b", "c"] {
        diff.register_buffer(&load(Namespace::Ordinary, p, 1, vec![hunk(0, 0)]));
    }
    assert_eq!(diff.view.len(), 3);
    // the new status reports only "b"
    let entries = vec![entry("b", FileStatus::Modified)];
    let requests = diff.begin_refresh(Some(&entries));
    assert_eq!(requests.len(), 1);
    assert_eq!(diff.excerpt_paths(), vec![b"b".to_vec()]);
}

#[test]
fn irrelevant_entries_are_not_loaded() {
    let mut diff = ProjectDiff::new();
    let unchanged = ChangeEntry {
        path: b"same".to_vec(),
        status: FileStatus::Unchanged,
        conflicted: false,
        openable: true,
    };
    let unmappable = ChangeEntry {
        path: b"gone".to_vec(),
        status: FileStatus::Modified,
        conflicted: false,
        openable: false,
    };
    let good = entry("real", FileStatus::Modified);
    let requests = diff.begin_refresh(Some(&vec![unchanged, unmappable, good]));
    assert_eq!(requests.len(), 1);
    assert_eq!(requests[0].path_key.path, b"real".to_vec());
    assert_eq!(requests[0].path_key.namespace, Namespace::Ordinary);
}

#[test]
fn no_active_repository_clears_the_view() {
    let mut diff = ProjectDiff::new();
    diff.register_buffer(&load(Namespace::Ordinary, "a", 1, vec![hunk(0, 0)]));
    assert_eq!(diff.view.len(), 1);
    let requests = diff.begin_refresh(None);
    assert!(requests.is_empty());
    assert_eq!(diff.view.len(), 0);
}

#[test]
fn reinsertion_updates_in_place() {
    let mut diff = ProjectDiff::new();
    let o1 = diff.register_buffer(&load(Namespace::Ordinary, "a", 1, vec![hunk(5, 7)]));
    assert!(o1.newly_added);
    let o2 = diff.register_buffer(&load(Namespace::Ordinary, "a", 1, vec![hunk(20, 21)]));
    assert!(!o2.newly_added);
    assert_eq!(diff.view.len(), 1);
    let excerpt = diff.view.get(0);
    assert_eq!(excerpt.ranges.len(), 1);
    assert_eq!(excerpt.ranges[0], hunk(20 - CONTEXT_MARGIN, 21 + CONTEXT_MARGIN));
}

#[test]
fn ranges_are_expanded_with_saturation() {
    let mut diff = ProjectDiff::new();
    diff.register_buffer(&load(
        Namespace::Ordinary,
        "a",
        1,
        vec![hunk(0, 1), hunk(10, 12), hunk(u32::MAX - 1, u32::MAX)],
    ));
    let excerpt = diff.view.get(0);
    assert_eq!(excerpt.ranges[0], hunk(0, 1 + CONTEXT_MARGIN));
    assert_eq!(excerpt.ranges[1], hunk(10 - CONTEXT_MARGIN, 12 + CONTEXT_MARGIN));
    assert_eq!(excerpt.ranges[2], hunk(u32::MAX - 1 - CONTEXT_MARGIN, u32::MAX));
}

#[test]
fn deleted_files_start_collapsed_and_keep_their_fold_state() {
    let mut diff = ProjectDiff::new();
    let mut deleted = load(Namespace::Ordinary, "gone", 1, vec![hunk(0, 0)]);
    deleted.file_status = FileStatus::Deleted;
    diff.register_buffer(&deleted);
    assert!(diff.view.get(0).folded);
    // a later registration of the same key keeps the fold state
    diff.register_buffer(&load(Namespace::Ordinary, "gone", 1, vec![hunk(0, 0)]));
    assert!(diff.view.get(0).folded);
    // a modified file starts expanded
    diff.register_buffer(&load(Namespace::Ordinary, "kept", 2, vec![hunk(0, 0)]));
    let pos = diff.view.location_for(&key(Namespace::Ordinary, "kept")).unwrap();
    assert!(!diff.view.get(pos).folded);
}

#[test]
fn navigation_is_single_shot() {
    let mut diff = ProjectDiff::new();
    // request navigation to a path not yet loaded
    let nav = diff.move_to_path(key(Namespace::Ordinary, "wanted"));
    assert!(nav.is_none());
    assert!(diff.pending_scroll.is_some());
    // a refresh that never includes that path clears the target silently
    let entries = vec![entry("other", FileStatus::Modified)];
    let loads = vec![load(Namespace::Ordinary, "other", 1, vec![hunk(0, 0)])];
    let nav = diff.handle_status_updates(Some(&entries), &loads);
    assert!(nav.is_none());
    assert!(diff.pending_scroll.is_none());
    // no future unrelated load triggers it either
    let outcome = diff.register_buffer(&load(Namespace::Ordinary, "wanted", 2, vec![hunk(0, 0)]));
    assert!(outcome.navigate_to.is_none());
}

#[test]
fn pending_navigation_fires_when_its_load_completes() {
    let mut diff = ProjectDiff::new();
    diff.move_to_path(key(Namespace::Ordinary, "b"));
    let entries = vec![entry("a", FileStatus::Modified), entry("b", FileStatus::Modified)];
    let loads = vec![
        load(Namespace::Ordinary, "a", 1, vec![hunk(0, 0)]),
        load(Namespace::Ordinary, "b", 2, vec![hunk(0, 0)]),
    ];
    let nav = diff.handle_status_updates(Some(&entries), &loads);
    assert_eq!(nav, Some(1));
    assert!(diff.pending_scroll.is_none());
}

#[test]
fn move_to_entry_navigates_to_the_classified_key() {
    let mut diff = ProjectDiff::new();
    diff.register_buffer(&load(Namespace::Conflicted, "war", 1, vec![hunk(0, 0)]));
    diff.register_buffer(&load(Namespace::Ordinary, "calm", 2, vec![hunk(0, 0)]));
    let conflicted = ChangeEntry {
        path: b"war".to_vec(),
        status: FileStatus::Modified,
        conflicted: true,
        openable: true,
    };
    assert_eq!(diff.move_to_entry(&conflicted), Some(0));
    assert_eq!(diff.move_to_entry(&entry("calm", FileStatus::Modified)), Some(1));
    assert_eq!(diff.move_to_entry(&entry("missing", FileStatus::Modified)), None);
}

#[test]
fn active_path_reports_the_cursor_excerpt() {
    let mut diff = ProjectDiff::new();
    diff.register_buffer(&load(Namespace::Ordinary, "a", 1, vec![hunk(0, 0)]));
    diff.register_buffer(&load(Namespace::Ordinary, "b", 2, vec![hunk(0, 0)]));
    assert_eq!(diff.active_path(0), Some(b"a".to_vec()));
    assert_eq!(diff.active_path(1), Some(b"b".to_vec()));
    assert_eq!(diff.active_path(2), None);
}

#[test]
fn focus_policy_never_steals_focus() {
    assert_eq!(focus_after(false, FocusRegion::Container), FocusRegion::Editor);
    assert_eq!(focus_after(true, FocusRegion::Editor), FocusRegion::Container);
    assert_eq!(focus_after(false, FocusRegion::Elsewhere), FocusRegion::Elsewhere);
    assert_eq!(focus_after(true, FocusRegion::Elsewhere), FocusRegion::Elsewhere);
    assert_eq!(focus_after(false, FocusRegion::Editor), FocusRegion::Editor);
    assert_eq!(focus_after(true, FocusRegion::Container), FocusRegion::Container);
}

#[test]
fn modify_then_restore_empties_the_view() {
    // a repository reports foo.txt modified: worktree differs from index
    let mut diff = ProjectDiff::new();
    diff.focus = FocusRegion::Container;
    let entries = vec![entry("foo.txt", FileStatus::Modified)];
    let requests = diff.begin_refresh(Some(&entries));
    assert_eq!(requests.len(), 1);
    assert_eq!(requests[0].path_key.namespace, Namespace::Ordinary);
    assert_eq!(requests[0].path_key.path, b"foo.txt".to_vec());
    // the diff comes back with one hunk (one removed and one added line)
    let outcome = diff.register_buffer(&load(Namespace::Ordinary, "foo.txt", 7, vec![hunk(0, 0)]));
    // one tracked-namespace excerpt, cursor defaulting to the start
    assert!(outcome.newly_added);
    assert!(outcome.select_start);
    assert_eq!(diff.excerpt_paths(), vec![b"foo.txt".to_vec()]);
    assert_eq!(diff.focus_handle(), FocusRegion::Editor);
    let nav = diff.finish_refresh();
    assert!(nav.is_none());
    // the file is restored: the status source reports no changes
    let nav = diff.handle_status_updates(Some(&Vec::new()), &Vec::new());
    assert!(nav.is_none());
    assert_eq!(diff.view.len(), 0);
    // focus falls back to the container frame
    assert_eq!(diff.focus_handle(), FocusRegion::Container);
}

#[test]
fn last_completed_load_wins_for_one_key() {
    let entries = vec![entry("a", FileStatus::Modified)];
    let loads = vec![
        load(Namespace::Ordinary, "a", 1, vec![hunk(5, 6)]),
        load(Namespace::Ordinary, "a", 1, vec![hunk(30, 31)]),
    ];
    let mut diff = ProjectDiff::new();
    diff.handle_status_updates(Some(&entries), &loads);
    assert_eq!(diff.view.len(), 1);
    assert_eq!(
        diff.view.get(0).ranges[0],
        hunk(30 - CONTEXT_MARGIN, 31 + CONTEXT_MARGIN),
    );
}
