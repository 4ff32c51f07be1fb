use diskly::app::state::bin::{BinEntry, BinState};
use diskly::fs::path::FsPath;
use std::io::Write;
use std::path::{Component, Path, PathBuf};
use tempfile::{tempdir, Builder};

fn fs_path(path: &Path) -> FsPath {
    let mut absolute = false;
    let mut parts = Vec::new();
    for c in path.components() {
        match c {
            Component::RootDir => absolute = true,
            other => parts.push(other.as_os_str().to_string_lossy().into_owned()),
        }
    }
    FsPath::new(absolute, parts)
}

fn state() -> BinState {
    BinState::new()
}

#[test]
fn push_entry() {
    let mut state = state();
    let entry = BinEntry {
        size: 100,
        file_count: 10,
        ..Default::default()
    };

    state.push_entry(entry);

    assert_eq!(state.total_size(), 100);
    assert_eq!(state.total_files(), 10);
    assert_eq!(state.rows().len(), 1);
    assert_eq!(state.table_state().selected(), Some(0));
}

#[test]
fn remove_entry() {
    let mut state = state();
    let entry = BinEntry {
        size: 100,
        file_count: 10,
        ..Default::default()
    };
    state.push_entry(entry);

    state.remove_entry(0);

    assert_eq!(state.total_size(), 0);
    assert_eq!(state.total_files(), 0);
    assert_eq!(state.rows().len(), 0);
    assert_eq!(state.table_state().selected(), Some(0));
}

#[test]
fn restore_by_path() {
    let mut state = state();
    let path = fs_path(Path::new("file.txt"));
    state.push_entry(BinEntry {
        path: path.clone(),
        size: 100,
        file_count: 1,
        ..Default::default()
    });

    state.restore_by_path(&path);

    assert_eq!(state.rows().len(), 0);
    assert_eq!(state.total_size(), 0);
    assert_eq!(state.total_files(), 0);
}

#[test]
fn restore_by_path_not_found() {
    let mut state = state();
    state.push_entry(BinEntry {
        path: fs_path(Path::new("file.txt")),
        size: 100,
        file_count: 1,
        ..Default::default()
    });

    state.restore_by_path(&fs_path(Path::new("other.txt")));

    assert_eq!(state.rows().len(), 1);
    assert_eq!(state.total_size(), 100);
    assert_eq!(state.total_files(), 1);
}

#[test]
fn restore_selected() {
    let mut state = state();
    state.push_entry(BinEntry {
        size: 100,
        file_count: 1,
        ..Default::default()
    });
    state.push_entry(BinEntry {
        size: 200,
        is_dir: true,
        file_count: 2,
        ..Default::default()
    });

    state.restore_selected();

    assert_eq!(state.rows().len(), 1);
    assert_eq!(state.total_size(), 100);
    assert_eq!(state.total_files(), 1);
}

#[test]
fn clear() {
    // Given
    let mut state = state();

    let dir = tempdir().unwrap();

    let mut file = Builder::new().prefix("test_file.txt").rand_bytes(0).tempfile_in(dir.path()).unwrap();
    file.write_all(b"hello world").unwrap();
    let file_path = file.path().to_path_buf();

    let sub_dir = Builder::new().prefix("test_dir").rand_bytes(0).tempdir_in(dir.path()).unwrap();
    let dir_path = sub_dir.path().to_path_buf();

    let entry_file = BinEntry {
        path: fs_path(&file_path),
        size: 100,
        is_dir: false,
        file_count: 1,
    };
    let entry_dir = BinEntry {
        path: fs_path(&dir_path),
        size: 200,
        is_dir: true,
        file_count: 0,
    };

    state.push_entry(entry_file);
    state.push_entry(entry_dir);

    // When: both deletions are carried out, then the bin is cleared
    let deleted = vec![file.close().is_ok(), sub_dir.close().is_ok()];
    let cleared = state.clear(&deleted);

    // Then
    assert!(!file_path.exists());
    assert!(!dir_path.exists());

    assert_eq!(cleared.len(), 2);

    assert_eq!(state.rows().len(), 0);
    assert_eq!(state.total_size(), 0);
    assert_eq!(state.total_files(), 0);
}

#[test]
fn clear_non_existent_file() {
    let mut state = state();
    let file_path = PathBuf::from("non_existent_file_12345.tmp");
    state.push_entry(BinEntry {
        path: fs_path(&file_path),
        size: 100,
        is_dir: false,
        file_count: 1,
    });

    // a path that does not exist cannot be deleted
    let deleted = vec![file_path.exists()];
    let cleared = state.clear(&deleted);

    assert_eq!(cleared.len(), 0);
    assert_eq!(state.rows().len(), 1);
    assert_eq!(state.total_size(), 100);
    assert_eq!(state.total_files(), 1);
}

#[test]
fn bin_select_row() {
    let mut state = state();
    state.push_entry(BinEntry {
        size: 100,
        file_count: 1,
        ..Default::default()
    });
    state.push_entry(BinEntry {
        size: 200,
        file_count: 1,
        ..Default::default()
    });

    assert!(state.select_row(Some(0)));
    assert_eq!(state.table_state().selected(), Some(0));

    assert!(state.select_row(None));
    assert_eq!(state.table_state().selected(), None);
}

#[test]
fn bin_select_row_out_of_bounds() {
    let mut state = state();
    state.push_entry(BinEntry {
        size: 100,
        file_count: 1,
        ..Default::default()
    });

    assert!(!state.select_row(Some(5)));
    assert_eq!(state.table_state().selected(), Some(0));
}

#[test]
fn bin_select_row_empty() {
    let mut state = state();
    assert!(state.select_row(None));
    assert!(!state.select_row(Some(0)));
}

#[test]
fn bin_select_previous_row() {
    let mut state = state();
    state.push_entries(vec![BinEntry::default(); 3]);
    state.select_row(Some(2));

    state.select_previous_row();

    assert_eq!(state.table_state.selected(), Some(1));
}

#[test]
fn bin_select_previous_row_none() {
    let mut state = state();
    state.push_entries(vec![BinEntry::default(); 3]);
    state.select_row(None);

    state.select_previous_row();

    assert_eq!(state.table_state.selected(), Some(0));
}

#[test]
fn bin_select_next_row() {
    let mut state = state();
    state.push_entries(vec![BinEntry::default(); 3]);
    state.select_row(Some(1));

    state.select_next_row();

    assert_eq!(state.table_state.selected(), Some(2));
}

#[test]
fn bin_select_next_row_none() {
    let mut state = state();
    state.push_entries(vec![BinEntry::default(); 3]);
    state.select_row(None);

    state.select_next_row();

    assert_eq!(state.table_state.selected(), Some(1));
}

#[test]
fn push_then_remove_restores_totals() {
    let mut state = state();
    state.push_entry(BinEntry { size: 7, file_count: 2, ..Default::default() });
    state.push_entry(BinEntry { size: 30, file_count: 5, ..Default::default() });
    state.remove_entry(1);
    assert_eq!(state.total_size(), 7);
    assert_eq!(state.total_files(), 2);
    assert_eq!(state.rows().len(), 1);
}

#[test]
fn clear_keeps_rows_that_stayed_in_order() {
    let mut state = state();
    for (i, size) in [1u64, 2, 4, 8].iter().enumerate() {
        state.push_entry(BinEntry {
            path: fs_path(Path::new(&format!("f{i}"))),
            size: *size,
            file_count: 1,
            ..Default::default()
        });
    }
    let cleared = state.clear(&vec![true, false, true, false]);
    assert_eq!(cleared.iter().map(|e| e.size).collect::<Vec<_>>(), vec![1, 4]);
    assert_eq!(state.rows().iter().map(|e| e.size).collect::<Vec<_>>(), vec![2, 8]);
    assert_eq!(state.total_size(), 10);
    assert_eq!(state.total_files(), 2);
    assert_eq!(state.table_state().selected(), Some(0));
}

#[test]
fn contains_path_checks_every_row() {
    let mut state = state();
    state.push_entry(BinEntry { path: fs_path(Path::new("/a/b")), ..Default::default() });
    assert!(state.contains_path(&fs_path(Path::new("/a/b"))));
    assert!(!state.contains_path(&fs_path(Path::new("a/b"))));
}

#[test]
fn restore_selected_without_selection_keeps_rows() {
    let mut state = state();
    state.push_entry(BinEntry { size: 3, ..Default::default() });
    state.select_row(None);
    state.restore_selected();
    assert_eq!(state.rows().len(), 1);
}
