use diskly::app::state::bin::BinEntry;
use diskly::app::state::{ActiveSet, AlertKind, Component, ConfirmKind, Overlay, State};
use diskly::config::StateConfig;
use diskly::fs::entry::FsEntry;
use diskly::fs::path::FsPath;
use diskly::fs::scanner::{scan_tree, ScanRecord};
use diskly::fs::tree::{populated_tree, FsTree};
use std::path::{Component as PathComponent, Path};
use tempfile::{tempdir, Builder};
use Component::{Bin, Pie, Tree};

fn p(s: &str) -> FsPath {
    fs_path(Path::new(s))
}

fn fs_path(path: &Path) -> FsPath {
    let mut absolute = false;
    let mut parts = Vec::new();
    for c in path.components() {
        match c {
            PathComponent::RootDir => absolute = true,
            other => parts.push(other.as_os_str().to_string_lossy().into_owned()),
        }
    }
    FsPath::new(absolute, parts)
}

fn config() -> StateConfig {
    StateConfig {
        active: vec!["tree".to_string(), "pie".to_string(), "bin".to_string()],
    }
}

fn state(path: FsPath) -> State {
    State::new(config(), path)
}

fn set(components: &[Component]) -> ActiveSet {
    let mut s = ActiveSet::new();
    for c in components {
        s.insert(*c);
    }
    s
}

#[test]
fn update_tree() {
    let mut state = state(p("/home"));
    let tree = populated_tree();

    state.update_tree(&tree);

    assert_eq!(state.tree.entries_len(), 2);
    assert_eq!(state.tree.table_state().selected(), Some(0));
}

fn focus_case(active: &[Component], component: Component, expected: Option<Component>) {
    let mut state = state(FsPath::new(false, Vec::new()));
    state.focus = None;
    state.active = set(active);

    state.set_focus(component);

    assert_eq!(state.focus, expected);
}

#[test]
fn set_focus_on_shown_tree() {
    focus_case(&[Tree], Tree, Some(Tree));
}

#[test]
fn set_focus_on_hidden_tree() {
    focus_case(&[], Tree, None);
}

#[test]
fn set_focus_on_pie() {
    focus_case(&[Pie], Pie, None);
}

fn focus_next_case(
    focus: Option<Component>,
    active: &[Component],
    allow_none: bool,
    expected: Option<Component>,
) {
    let mut state = state(FsPath::new(false, Vec::new()));
    state.focus = focus;
    state.active = set(active);

    state.focus_next(allow_none);

    assert_eq!(state.focus, expected);
}

#[test]
fn focus_next_tree_to_bin() {
    focus_next_case(Some(Tree), &[Bin, Pie], false, Some(Bin));
}

#[test]
fn focus_next_bin_to_tree() {
    focus_next_case(Some(Bin), &[Tree], false, Some(Tree));
}

#[test]
fn focus_next_drops_focus() {
    focus_next_case(Some(Tree), &[Pie], true, None);
}

#[test]
fn focus_next_keeps_focus() {
    focus_next_case(Some(Tree), &[], false, Some(Tree));
}

fn toggle_case(
    focus: Option<Component>,
    active: &[Component],
    component: Component,
    expected_focus: Option<Component>,
    expected_active: &[Component],
) {
    let mut state = state(FsPath::new(false, Vec::new()));
    state.focus = focus;
    state.active = set(active);

    state.toggle(component);

    assert_eq!(state.focus, expected_focus);
    assert_eq!(state.active, set(expected_active));
}

#[test]
fn toggle_shows_tree_and_focuses_it() {
    toggle_case(None, &[], Tree, Some(Tree), &[Tree]);
}

#[test]
fn toggle_shows_tree_keeping_bin_focus() {
    toggle_case(Some(Bin), &[Bin], Tree, Some(Bin), &[Bin, Tree]);
}

#[test]
fn toggle_shows_pie_without_focus() {
    toggle_case(None, &[], Pie, None, &[Pie]);
}

#[test]
fn toggle_hides_unfocused_bin() {
    toggle_case(Some(Tree), &[Tree, Bin], Bin, Some(Tree), &[Tree]);
}

#[test]
fn toggle_hides_focused_tree() {
    toggle_case(Some(Tree), &[Tree, Bin], Tree, Some(Bin), &[Bin]);
}

#[test]
fn toggle_hides_last_panel() {
    toggle_case(Some(Tree), &[Tree], Tree, None, &[]);
}

#[test]
fn toggle_twice_gives_back_panels() {
    let mut state = state(FsPath::new(false, Vec::new()));
    let before = state.active;
    state.toggle(Pie);
    state.toggle(Pie);
    assert_eq!(state.active, before);
}

fn trash_case(select: Option<usize>, expected: Option<FsPath>) {
    let mut state = state(p("/home/user"));
    let tree = populated_tree();
    state.update_tree(&tree);
    state.tree.select_row(select);

    state.trash_selected(&tree);

    match expected {
        Some(path) => assert_eq!(state.bin.rows()[0].path, path),
        None => assert!(state.bin.rows().is_empty()),
    }
}

#[test]
fn trash_selected_nothing_selected() {
    trash_case(None, None);
}

#[test]
fn trash_selected_parent_row() {
    trash_case(Some(0), None);
}

#[test]
fn trash_selected_entry() {
    trash_case(Some(1), Some(p("/home/user/cat.png")));
}

#[test]
fn trash_selected_skips_duplicate() {
    let mut state = state(p("/home/user"));
    let tree = populated_tree();
    state.update_tree(&tree);
    state.tree.select_row(Some(1));
    state.trash_selected(&tree);

    state.trash_selected(&tree);

    assert_eq!(state.bin.rows().len(), 1);
}

#[test]
fn trash_selected_counts_files_of_a_directory() {
    let mut state = state(p("/home"));
    let mut tree = populated_tree();
    tree.compute_dir_sizes();
    state.update_tree(&tree);
    state.tree.select_row(Some(1));
    state.trash_selected(&tree);
    assert_eq!(state.bin.rows()[0].path, p("/home/user"));
    assert_eq!(state.bin.rows()[0].file_count, 2);
    assert!(state.bin.rows()[0].is_dir);
}

fn restore_case(select: Option<usize>, expected: usize) {
    let mut state = state(p("/home/user"));
    let tree = populated_tree();
    state.update_tree(&tree);
    state.tree.select_row(Some(1));
    state.trash_selected(&tree);
    state.tree.select_row(select);

    state.restore_selected_tree();

    assert_eq!(state.bin.rows().len(), expected);
}

#[test]
fn restore_selected_tree_nothing_selected() {
    restore_case(None, 1);
}

#[test]
fn restore_selected_tree_parent_row() {
    restore_case(Some(0), 1);
}

#[test]
fn restore_selected_tree_trashed_entry() {
    restore_case(Some(1), 0);
}

#[test]
fn confirm_clear_empty_bin() {
    let mut state = state(p("/"));
    state.bin.push_entries(vec![]);

    state.confirm_clear();

    assert_eq!(state.overlay, Overlay::Alert(AlertKind::ClearEmptyBin));
}

#[test]
fn confirm_clear_full_bin() {
    let mut state = state(p("/"));
    state.bin.push_entries(vec![BinEntry::default()]);

    state.confirm_clear();

    assert_eq!(state.overlay, Overlay::Confirm(ConfirmKind::Clear));
}

#[test]
fn clear_bin_success() {
    // Given
    let dir = tempdir().unwrap();
    let file = Builder::new().prefix("file.txt").rand_bytes(0).tempfile_in(dir.path()).unwrap();
    let file_path = file.path().to_path_buf();

    let mut state = state(fs_path(dir.path()));
    let mut tree = FsTree::new();
    {
        let root_id = tree.ensure_dir(&fs_path(dir.path()));
        tree.mark_scanned(root_id);
        tree.add_entry(
            FsEntry::file("file.txt".into(), None, None, None),
            &fs_path(dir.path()),
        );
    }
    state.update_tree(&tree);
    state.tree.select_row(Some(1));
    state.trash_selected(&tree);

    // When: the deletion is carried out, then the clear finished
    let deleted = vec![file.close().is_ok()];
    state.clear_bin(&deleted, &mut tree);

    // Then
    assert!(!file_path.exists());
    assert_eq!(state.tree.entries_len(), 0);
    assert_eq!(state.overlay, Overlay::Hidden);
}

#[test]
fn clear_bin_incomplete() {
    let mut state = state(p("/home/user"));
    let mut tree = populated_tree();
    state.update_tree(&tree);
    state.tree.select_row(Some(1)); // cat.png
    state.trash_selected(&tree);

    // "/home/user/cat.png" does not exist, so its deletion fails
    let deleted = vec![Path::new("/home/user/cat.png").exists()];
    state.clear_bin(&deleted, &mut tree);

    assert_eq!(state.overlay, Overlay::Alert(AlertKind::IncompleteClear));
}

fn navigate_case(start: &str, idx: usize, expected: &str) {
    let mut state = state(p(start));
    let tree = populated_tree();
    state.update_tree(&tree);

    state.navigate_into(idx, &tree);

    assert_eq!(state.tree.path, p(expected));
}

#[test]
fn navigate_into_parent() {
    navigate_case("/home/guest/empty", 0, "/home/guest");
}

#[test]
fn navigate_into_file_stays() {
    navigate_case("/home/guest", 1, "/home/guest");
}

#[test]
fn navigate_into_directory() {
    navigate_case("/home/guest", 2, "/home/guest/empty");
}

#[test]
fn navigate_into_past_rows_stays() {
    navigate_case("/home/guest", 99, "/home/guest");
}

#[test]
fn navigate_to_scanned_path() {
    let mut state = state(p("/home"));
    let tree = populated_tree();

    let scan = state.navigate_to(p("/home/guest"), &tree);

    assert!(scan.is_none());
    assert_eq!(state.tree.path, p("/home/guest"));
    assert_eq!(state.tree.entries_len(), 2);
}

#[test]
fn navigate_to_unscanned_path_triggers_scan() {
    // Given
    let dir = tempdir().unwrap();
    let _file = Builder::new().prefix("file.txt").rand_bytes(0).tempfile_in(dir.path()).unwrap();
    let tree = FsTree::new();
    let mut state = State::new(config(), FsPath::new(false, Vec::new()));

    // When
    let scan = state.navigate_to(fs_path(dir.path()), &tree).expect("scan should complete");
    let records: Vec<ScanRecord> = jwalk::WalkDir::new(dir.path())
        .into_iter()
        .filter_map(Result::ok)
        .skip(1)
        .map(|entry| ScanRecord {
            parent: fs_path(entry.parent_path()),
            entry: FsEntry::file(entry.file_name.to_string_lossy().into_owned(), Some(0), None, None),
        })
        .collect();
    let scanned = scan_tree(&scan, &records).unwrap();
    state.update_tree(&scanned);

    // Then
    assert_eq!(state.tree.path, fs_path(dir.path()));
    assert_eq!(state.tree.entries_len(), 1);
}

#[test]
fn new_state_reads_known_panel_names() {
    let state = State::new(
        StateConfig { active: vec!["bin".to_string(), "nonsense".to_string()] },
        p("/"),
    );
    assert_eq!(state.active, set(&[Bin]));
    assert_eq!(state.focus, Some(Tree));
    assert!(state.running);
}

#[test]
fn sync_config_round_trips_panels() {
    let mut state = state(p("/"));
    state.active = set(&[Bin, Tree]);
    state.sync_config();
    assert_eq!(state.config.active, vec!["tree".to_string(), "bin".to_string()]);
    let again = State::new(state.config.clone(), p("/"));
    assert_eq!(again.active, state.active);
}

#[test]
fn component_names() {
    assert_eq!(Tree.name(), "tree");
    assert_eq!(Component::from_name(&"pie".to_string()), Some(Pie));
    assert_eq!(Component::from_name(&"Pie".to_string()), None);
    assert!(Bin.is_interactive());
    assert!(!Pie.is_interactive());
}

#[test]
fn overlay_toggle() {
    let mut overlay = Overlay::Hidden;
    overlay.toggle(Overlay::Help);
    assert_eq!(overlay, Overlay::Help);
    overlay.toggle(Overlay::Help);
    assert_eq!(overlay, Overlay::Hidden);
    overlay.toggle(Overlay::Confirm(ConfirmKind::Clear));
    overlay.toggle(Overlay::Help);
    assert_eq!(overlay, Overlay::Help);
}

#[test]
fn trash_then_restore_gives_back_bin() {
    let mut state = state(p("/home/guest"));
    let tree = populated_tree();
    state.update_tree(&tree);
    state.bin.push_entry(BinEntry { path: p("/x"), size: 1, file_count: 1, ..Default::default() });
    state.tree.select_row(Some(1));
    state.trash_selected(&tree);
    assert_eq!(state.bin.rows().len(), 2);
    state.restore_selected_tree();
    assert_eq!(state.bin.rows().len(), 1);
    assert_eq!(state.bin.total_size(), 1);
}
