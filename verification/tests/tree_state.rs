use diskly::app::state::tree::{TreeRow, TreeState};
use diskly::fs::entry::FsEntry;
use diskly::fs::path::FsPath;

fn state() -> TreeState {
    TreeState::new(FsPath::new(false, Vec::new()))
}

fn fs_entry(size: Option<u64>) -> FsEntry {
    FsEntry::file("file".into(), size, None, None)
}

#[test]
fn entries_len() {
    let mut state = state();
    state.set_rows(vec![fs_entry(None); 3]);

    let entries_len = state.entries_len();

    assert_eq!(entries_len, 3);
}

#[test]
fn selected_entry() {
    let mut state = state();
    state.set_rows(vec![fs_entry(Some(1)), fs_entry(Some(2))]);
    state.select_row(Some(1));

    let entry = state.selected_entry();

    assert_eq!(entry.map(|e| e.size()), Some(Some(2)));
}

#[test]
fn selected_entry_without_selected() {
    let state = state();
    let entry = state.selected_entry();
    assert!(entry.is_none());
}

#[test]
fn set_rows() {
    let mut state = state();
    let entries = vec![fs_entry(Some(1)), fs_entry(None), fs_entry(Some(2))];

    state.set_rows(entries);

    assert_eq!(state.total_size(), 3);
    assert_eq!(state.rows().first(), Some(&TreeRow::Parent));
    assert_eq!(
        state.entries().iter().map(|e| e.size()).collect::<Vec<_>>(),
        vec![Some(2), Some(1), None]
    );
}

#[test]
fn tree_select_row() {
    let mut state = state();
    state.set_rows(vec![fs_entry(None); 2]);

    assert!(state.select_row(Some(1)));
    assert_eq!(state.table_state().selected(), Some(1));

    assert!(state.select_row(None));
    assert_eq!(state.table_state().selected(), None);
}

#[test]
fn tree_select_row_out_of_bounds() {
    let mut state = state();
    state.set_rows(vec![fs_entry(None)]);

    assert!(!state.select_row(Some(5)));
    assert_eq!(state.table_state().selected(), None);
}

#[test]
fn tree_select_row_empty() {
    let mut state = state();

    assert!(state.select_row(Some(0)));
    assert_eq!(state.table_state().selected(), Some(0));

    assert!(!state.select_row(Some(1)));
    assert_eq!(state.table_state().selected(), Some(0));

    assert!(state.select_row(None));
    assert_eq!(state.table_state().selected(), None);
}

#[test]
fn tree_select_previous_row() {
    let mut state = state();
    state.set_rows(vec![fs_entry(None); 3]);
    state.select_row(Some(2));

    state.select_previous_row();

    assert_eq!(state.table_state.selected(), Some(1));
}

#[test]
fn tree_select_previous_row_none() {
    let mut state = state();
    state.set_rows(vec![fs_entry(None); 3]);
    state.select_row(None);

    state.select_previous_row();

    assert_eq!(state.table_state.selected(), Some(0));
}

#[test]
fn tree_select_next_row() {
    let mut state = state();
    state.set_rows(vec![fs_entry(None); 3]);
    state.select_row(Some(1));

    state.select_next_row();

    assert_eq!(state.table_state.selected(), Some(2));
}

#[test]
fn tree_select_next_row_none() {
    let mut state = state();
    state.set_rows(vec![fs_entry(None); 3]);
    state.select_row(None);

    state.select_next_row();

    assert_eq!(state.table_state.selected(), Some(1));
}

#[test]
fn set_rows_orders_largest_first_and_totals_known_sizes() {
    let mut state = state();
    state.set_rows(vec![
        fs_entry(Some(5)),
        fs_entry(None),
        fs_entry(Some(50)),
        fs_entry(Some(0)),
        fs_entry(Some(5)),
    ]);
    let sizes: Vec<_> = state.entries().iter().map(|e| e.size()).collect();
    assert_eq!(sizes, vec![Some(50), Some(5), Some(5), Some(0), None]);
    assert_eq!(state.total_size(), 60);
    assert_eq!(state.rows().len(), 6);
}

#[test]
fn set_rows_keeps_the_selection() {
    let mut state = state();
    state.set_rows(vec![fs_entry(None); 3]);
    state.select_row(Some(2));
    state.set_rows(vec![fs_entry(Some(1))]);
    assert_eq!(state.table_state().selected(), Some(2));
    assert!(state.selected_entry().is_none());
}

#[test]
fn select_next_row_refused_past_end() {
    let mut state = state();
    state.set_rows(vec![fs_entry(None); 1]);
    state.select_row(Some(1));
    assert!(!state.select_next_row());
    assert_eq!(state.table_state().selected(), Some(1));
}

#[test]
fn parent_row_selects_no_entry() {
    let mut state = state();
    state.set_rows(vec![fs_entry(Some(3))]);
    state.select_row(Some(0));
    assert!(state.selected_entry().is_none());
}
