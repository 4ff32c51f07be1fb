use diskly::fs::entry::FsEntry;
use diskly::fs::path::FsPath;
use diskly::fs::scanner::{scan_tree, ScanRecord};
use std::io::Write;
use std::path::{Component, Path};
use tempfile::{tempdir, Builder, NamedTempFile, TempDir};

fn fs_path(path: &Path) -> FsPath {
    let mut absolute = false;
    let mut parts = Vec::new();
    for c in path.components() {
        match c {
            Component::RootDir => absolute = true,
            other => parts.push(other.as_os_str().to_string_lossy().into_owned()),
        }
    }
    FsPath::new(absolute, parts)
}

/// Every entry below `root`, parents before children, as the scanner
/// reads them.
fn records_of(root: &Path) -> Vec<ScanRecord> {
    jwalk::WalkDir::new(root)
        .sort(true)
        .into_iter()
        .filter_map(Result::ok)
        .skip(1)
        .map(|entry| {
            let size = entry.metadata().ok().map(|m| m.len());
            let name = entry.file_name.to_string_lossy().into_owned();
            let fs_entry = if entry.file_type().is_dir() {
                FsEntry::dir(name, true, None, None)
            } else {
                FsEntry::file(name, size, None, None)
            };
            ScanRecord { parent: fs_path(entry.parent_path()), entry: fs_entry }
        })
        .collect()
}

fn named_file(dir: &Path, name: &str, len: usize) -> NamedTempFile {
    let mut file = Builder::new().prefix(name).rand_bytes(0).tempfile_in(dir).unwrap();
    file.write_all(&vec![0u8; len]).unwrap();
    file
}

/// Dir structure:
///
/// notes.txt (100 bytes)
/// docs/password.txt (50 bytes)
/// docs/dot.txt (2 bytes)
fn populated_dir() -> (TempDir, Vec<NamedTempFile>, TempDir) {
    let dir = tempdir().unwrap();
    let notes = named_file(dir.path(), "notes.txt", 100);
    let docs = Builder::new().prefix("docs").rand_bytes(0).tempdir_in(dir.path()).unwrap();
    let password = named_file(docs.path(), "password.txt", 50);
    let dot = named_file(docs.path(), "dot.txt", 2);
    (dir, vec![notes, password, dot], docs)
}

#[test]
fn scan() {
    // Given
    let (dir, _files, _docs) = populated_dir();
    let records = records_of(dir.path());

    // When
    let tree = scan_tree(&fs_path(dir.path()), &records).expect("scan should complete");

    // Then
    let root = fs_path(dir.path());
    let files_count = tree.count_files(&root);
    let total_size = tree
        .entry_at(&root)
        .expect("root entry not found after scan")
        .size()
        .expect("root entry size not computed after scan");

    assert_eq!(files_count, 3);
    assert_eq!(total_size, 100 + 50 + 2);
}

#[test]
fn scan_marks_only_the_root_scanned_on_the_way() {
    let root = FsPath::new(true, vec!["data".to_string(), "set".to_string()]);
    let records = vec![ScanRecord {
        parent: root.duplicate(),
        entry: FsEntry::file("a".into(), Some(5), None, None),
    }];
    let tree = scan_tree(&root, &records).unwrap();
    assert!(tree.is_scanned(&root));
    assert!(!tree.is_scanned(&FsPath::new(true, vec!["data".to_string()])));
    assert_eq!(tree.entry_at(&root).unwrap().size(), Some(5));
}

#[test]
fn scan_refuses_sizes_past_u64() {
    let root = FsPath::new(true, vec!["big".to_string()]);
    let records = vec![
        ScanRecord {
            parent: root.duplicate(),
            entry: FsEntry::file("a".into(), Some(u64::MAX), None, None),
        },
        ScanRecord {
            parent: root.duplicate(),
            entry: FsEntry::file("b".into(), Some(1), None, None),
        },
    ];
    assert!(scan_tree(&root, &records).is_none());
}

#[test]
fn scan_skips_records_under_unknown_parents() {
    let root = FsPath::new(true, vec!["r".to_string()]);
    let records = vec![ScanRecord {
        parent: FsPath::new(true, vec!["elsewhere".to_string()]),
        entry: FsEntry::file("a".into(), Some(5), None, None),
    }];
    let tree = scan_tree(&root, &records).unwrap();
    assert_eq!(tree.entries_at(&root).len(), 0);
    assert_eq!(tree.entry_at(&root).unwrap().size(), Some(0));
}
