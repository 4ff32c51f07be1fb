use diskly::app::state::bin::{BinEntry, BinState};
use diskly::app::tui::{
    bin_counter_text, bin_files_text, bin_size_text, decimal_text, format_tree_date, min_size, pie_slices, shorten_path,
    shorten_path_with, tree_counter_text, tree_row, tree_size_text, PIE_SLICES,
};
use diskly::fs::tree::populated_tree;
use diskly::app::state::State;
use diskly::config::StateConfig;
use diskly::fs::entry::{FileTime, FsEntry};
use diskly::fs::path::FsPath;

fn p(s: &str) -> FsPath {
    let absolute = s.starts_with('/');
    let parts = s.split('/').filter(|x| !x.is_empty()).map(|x| x.to_string()).collect();
    FsPath::new(absolute, parts)
}

fn fs_entry(size: Option<u64>) -> FsEntry {
    FsEntry::file("file".into(), size, None, None)
}

fn percentage(part: u64, total: u64) -> f64 {
    if total == 0 {
        0.0
    } else {
        part as f64 / total as f64 * 100.0
    }
}

#[test]
fn pie_slices_overflow() {
    // Given
    const OVERFLOW: usize = 3;
    const ENTRY_SIZE: u64 = 10;

    let entries: Vec<FsEntry> = (0..PIE_SLICES + OVERFLOW)
        .map(|_| fs_entry(Some(ENTRY_SIZE)))
        .collect();
    let total_size = entries.len() as u64 * ENTRY_SIZE;

    // When
    let slices = pie_slices(&entries.iter().collect());

    // Then
    assert_eq!(slices.len(), PIE_SLICES + 1);

    let other = slices.last().unwrap();
    let expected_other_size = OVERFLOW as u64 * ENTRY_SIZE;
    assert_eq!(
        percentage(other.size, total_size),
        percentage(expected_other_size, total_size)
    );
    assert_eq!(other.label, "Other");
}

#[test]
fn pie_slices_without_other() {
    let entries: Vec<FsEntry> = (0..3).map(|i| fs_entry(Some(i))).collect();
    let slices = pie_slices(&entries.iter().collect());
    assert_eq!(slices.len(), 3);
    assert_eq!(slices[2].size, 2);
    assert_eq!(slices[0].label, "file");
}

#[test]
fn pie_slices_other_of_zero_bytes_is_left_out() {
    let entries: Vec<FsEntry> = (0..9).map(|i| fs_entry(if i < 7 { Some(1) } else { None })).collect();
    let slices = pie_slices(&entries.iter().collect());
    assert_eq!(slices.len(), PIE_SLICES);
}

fn shorten_case(input: &str, is_dir: bool, expected: &str) {
    assert_eq!(shorten_path(&p(input), is_dir), expected);
}

#[test]
fn shorten_path_keeps_four_components() {
    shorten_case("/a/b/c/d", false, "/a/b/c/d");
}

#[test]
fn shorten_path_marks_directories() {
    shorten_case("/a/b/c/d", true, "/a/b/c/d/");
}

#[test]
fn shorten_path_cuts_five_components() {
    shorten_case("/a/b/c/d/e", false, "/a/b/.../d/e");
}

#[test]
fn shorten_path_cuts_directories() {
    shorten_case("/a/b/c/d/e", true, "/a/b/.../d/e/");
}

#[test]
fn shorten_path_root() {
    shorten_case("/", false, "/");
    shorten_case("/", true, "/");
}

#[test]
fn shorten_path_relative() {
    shorten_case("a/b/c/d/e/f", false, "a/b/.../e/f");
}

fn win(prefix: &str, absolute: bool, names: &[&str]) -> FsPath {
    FsPath::with_prefix(prefix.to_string(), absolute, names.iter().map(|x| x.to_string()).collect())
}

#[test]
fn shorten_path_windows_keeps_four_components() {
    let path = win("C:", true, &["a", "b", "c", "d"]);
    assert_eq!(shorten_path_with(&path, false, '\\'), r"C:\a\b\c\d");
    assert_eq!(shorten_path_with(&path, true, '\\'), r"C:\a\b\c\d\");
}

#[test]
fn shorten_path_windows_cuts_five_components() {
    let path = win("C:", true, &["a", "b", "c", "d", "e"]);
    assert_eq!(shorten_path_with(&path, false, '\\'), r"C:\a\b\...\d\e");
    assert_eq!(shorten_path_with(&path, true, '\\'), r"C:\a\b\...\d\e\");
}

#[test]
fn shorten_path_windows_drive_root() {
    let path = win("C:", true, &[]);
    assert_eq!(shorten_path_with(&path, false, '\\'), r"C:\");
    assert_eq!(shorten_path_with(&path, true, '\\'), r"C:\");
}

#[test]
fn shorten_path_windows_drive_relative() {
    let path = win("C:", false, &["a", "b", "c", "d", "e"]);
    assert_eq!(shorten_path_with(&path, false, '\\'), r"C:a\b\...\d\e");
}

#[test]
fn shorten_path_again_is_unchanged() {
    // the shortened text names the path a/b/.../e/f; shortening that again
    // gives the same text
    let first = shorten_path_with(&p("/a/b/c/d/e/f"), true, '/');
    assert_eq!(first, "/a/b/.../e/f/");
    assert_eq!(shorten_path_with(&p(&first), true, '/'), first);
}

#[test]
fn drive_prefix_parent() {
    let path = win("C:", true, &["a"]);
    let up = path.parent().unwrap();
    assert!(up.same_as(&win("C:", true, &[])));
    assert!(up.parent().is_none());
    assert!(!up.same_as(&p("/")));
}

#[test]
fn min_size_per_panels() {
    assert_eq!(min_size(true, true, true), (115, 20));
    assert_eq!(min_size(true, false, false), (70, 10));
    assert_eq!(min_size(false, true, false), (20, 10));
    assert_eq!(min_size(false, false, true), (45, 10));
    assert_eq!(min_size(false, false, false), (0, 10));
}

fn secs_of(y: i64, m: i64, d: i64, hh: i64, mm: i64, ss: i64) -> i64 {
    // days from the civil date, for the test's own expectations
    let y2 = if m <= 2 { y - 1 } else { y };
    let era = if y2 >= 0 { y2 } else { y2 - 399 } / 400;
    let yoe = y2 - era * 400;
    let mp = (m + 9) % 12;
    let doy = (153 * mp + 2) / 5 + d - 1;
    let doe = yoe * 365 + yoe / 4 - yoe / 100 + doy;
    let days = era * 146097 + doe - 719468;
    days * 86400 + hh * 3600 + mm * 60 + ss
}

#[test]
fn format_tree_date_correctly() {
    let cases = [
        (secs_of(2026, 6, 1, 12, 0, 0), "26-06-01"),
        (secs_of(2000, 1, 1, 0, 0, 0), "00-01-01"),
        (secs_of(1999, 12, 31, 23, 59, 59), "99-12-31"),
    ];
    for (secs, expected) in cases {
        assert_eq!(format_tree_date(FileTime { secs, nanos: 0 }), expected);
    }
}

#[test]
fn format_tree_date_before_year_zero() {
    assert_eq!(format_tree_date(FileTime { secs: secs_of(-5, 3, 9, 0, 0, 0), nanos: 0 }), "-5-03-09");
}

#[test]
fn tree_row_texts() {
    let mut state = State::new(StateConfig { active: vec![] }, p("/home"));
    let dir = FsEntry::dir("docs".into(), true, None, Some(FileTime { secs: secs_of(2024, 2, 29, 1, 2, 3), nanos: 5 }));
    let row = tree_row(&dir, &state);
    assert_eq!(row.name, "docs/");
    assert_eq!(row.size, "\u{2500}");
    assert_eq!(row.modified, "24-02-29");
    assert_eq!(row.created, "\u{2500}");
    assert!(!row.in_bin);

    let file = FsEntry::file("a.txt".into(), Some(1500), None, None);
    state.bin.push_entry(diskly::app::state::bin::BinEntry { path: p("/home/a.txt"), ..Default::default() });
    let row = tree_row(&file, &state);
    assert_eq!(row.name, "a.txt");
    assert_eq!(row.size, "1.50 kB");
    assert!(row.in_bin);
}

#[test]
fn decimal_text_writes_digits() {
    assert_eq!(decimal_text(0), "0");
    assert_eq!(decimal_text(7), "7");
    assert_eq!(decimal_text(1203), "1203");
    assert_eq!(decimal_text(u64::MAX), u64::MAX.to_string());
}

#[test]
fn bin_titles() {
    let mut bin = BinState::new();
    assert_eq!(bin_files_text(&bin), "0 files");
    assert_eq!(bin_counter_text(&bin), "0/0");
    assert_eq!(bin_size_text(&bin), "0 B");
    bin.push_entry(BinEntry { size: 1023, file_count: 1, ..Default::default() });
    assert_eq!(bin_files_text(&bin), "1 file");
    assert_eq!(bin_counter_text(&bin), "1/1");
    assert_eq!(bin_size_text(&bin), "1.02 kB");
    bin.push_entry(BinEntry { size: 1000, file_count: 11, ..Default::default() });
    bin.table_state.select(Some(1));
    assert_eq!(bin_files_text(&bin), "12 files");
    assert_eq!(bin_counter_text(&bin), "2/2");
}

#[test]
fn tree_titles() {
    let mut state = State::new(StateConfig { active: vec![] }, p("/home"));
    state.update_tree(&populated_tree());
    state.tree.table_state.select(Some(1));
    assert_eq!(tree_counter_text(&state.tree, None), "1/2");
    assert_eq!(tree_counter_text(&state.tree, Some(42)), "0/42");
    assert_eq!(tree_size_text(&state.tree, Some(1000)), "1 kB");
    state.tree.table_state.select(None);
    assert_eq!(tree_counter_text(&state.tree, None), "0/2");
}
