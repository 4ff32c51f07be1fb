use diskly::fs::entry::FsEntry;
use diskly::fs::path::FsPath;
use diskly::fs::tree::{populated_tree, FsTree};
use std::path::{Component, Path};

fn p(s: &str) -> FsPath {
    let mut absolute = false;
    let mut parts = Vec::new();
    for c in Path::new(s).components() {
        match c {
            Component::RootDir => absolute = true,
            other => parts.push(other.as_os_str().to_string_lossy().into_owned()),
        }
    }
    FsPath::new(absolute, parts)
}

#[test]
fn is_scanned() {
    let tree = populated_tree();

    let home_scanned = tree.is_scanned(&p("/home"));
    let user_scanned = tree.is_scanned(&p("/home/user"));
    let guest_scanned = tree.is_scanned(&p("/home/guest"));
    let missing_scanned = tree.is_scanned(&p("/missing"));

    assert!(!home_scanned);
    assert!(user_scanned);
    assert!(guest_scanned);
    assert!(!missing_scanned);
}

#[test]
fn entry_at() {
    let tree = populated_tree();

    let home_entry = tree.entry_at(&p("/home"));
    let user_entry = tree.entry_at(&p("/home/user"));
    let cat_entry = tree.entry_at(&p("/home/user/cat.png"));
    let missing_entry = tree.entry_at(&p("/missing"));

    assert!(home_entry.is_some());
    assert!(user_entry.is_some());
    assert!(cat_entry.is_some());
    assert!(missing_entry.is_none());
}

#[test]
fn entries_at() {
    let tree = populated_tree();

    let home_entries = tree.entries_at(&p("/home"));
    let user_entries = tree.entries_at(&p("/home/user"));
    let guest_entries = tree.entries_at(&p("/home/guest"));
    let missing_entries = tree.entries_at(&p("/missing"));

    assert_eq!(home_entries.len(), 2);
    assert_eq!(user_entries.len(), 2);
    assert_eq!(guest_entries.len(), 2);
    assert!(missing_entries.is_empty());
}

#[test]
fn count_files() {
    let tree = populated_tree();

    let home_files = tree.count_files(&p("/home"));
    let user_files = tree.count_files(&p("/home/user"));
    let guest_files = tree.count_files(&p("/home/guest"));
    let missing_files = tree.count_files(&p("/missing"));

    assert_eq!(home_files, 3);
    assert_eq!(user_files, 2);
    assert_eq!(guest_files, 1);
    assert_eq!(missing_files, 0);
}

#[test]
fn add_entry() {
    let mut tree = populated_tree();
    let old_nodes = tree.node_count();

    tree.add_entry(FsEntry::dir("admin".into(), true, None, None), &p("/home"));
    tree.add_entry(
        FsEntry::file("password.txt".into(), Some(128), None, None),
        &p("/home/admin"),
    );
    tree.add_entry(
        FsEntry::file("something".into(), Some(0), None, None),
        &p("/missing"),
    );
    let new_nodes = tree.node_count();

    assert_eq!(new_nodes - 2, old_nodes);
    assert!(tree.find(&p("/home/admin")).is_some());
    assert!(tree.find(&p("/home/admin/password.txt")).is_some());
    assert!(tree.find(&p("/missing/something")).is_none());
}

#[test]
fn ensure_dir() {
    let mut tree = populated_tree();

    tree.ensure_dir(&p("/home/admin/.config/diskly"));

    assert!(tree.find(&p("home/admin/.config")).is_some());
    assert!(tree.find(&p("home/admin/.config/diskly")).is_some());
}

#[test]
fn compute_dir_sizes() {
    // Given
    let mut tree = populated_tree();

    // When
    tree.compute_dir_sizes();

    // Then
    let user_size = tree.entry_at(&p("/home/user")).unwrap().size();
    let guest_size = tree.entry_at(&p("/home/guest")).unwrap().size();
    let empty_size = tree.entry_at(&p("/home/guest/empty")).unwrap().size();
    let home_size = tree.entry_at(&p("/home")).unwrap().size();

    assert_eq!(user_size, Some(1024 * 1024 + 1024));
    assert_eq!(guest_size, Some(1024 * 1024));
    assert_eq!(empty_size, Some(0));
    assert_eq!(home_size, Some(user_size.unwrap() + guest_size.unwrap()));
}

#[test]
fn compute_dir_sizes_twice_changes_nothing() {
    let mut tree = populated_tree();
    tree.compute_dir_sizes();
    let paths = ["/", "/home", "/home/user", "/home/guest", "/home/guest/empty"];
    let once: Vec<Option<u64>> = paths.iter().map(|x| tree.entry_at(&p(x)).unwrap().size()).collect();
    tree.compute_dir_sizes();
    let twice: Vec<Option<u64>> = paths.iter().map(|x| tree.entry_at(&p(x)).unwrap().size()).collect();
    assert_eq!(once, twice);
    assert_eq!(twice[1], Some(2 * 1024 * 1024 + 1024));
}

#[test]
fn remove_entries() {
    let mut tree = populated_tree();

    tree.remove_entries(&vec![p("/home/user"), p("/home/guest")]);

    assert!(tree.find(&p("/home/user")).is_none());
    assert!(tree.find(&p("/home/user/cat.png")).is_none());
    assert!(tree.find(&p("/home/user/notes.txt")).is_none());
    assert!(tree.find(&p("/home/guest")).is_none());
    assert!(tree.find(&p("/home/guest/dog.png")).is_none());
    assert!(tree.find(&p("/home/guest/empty")).is_none());
}

#[test]
fn new_tree_has_unscanned_root() {
    let tree = FsTree::new();
    let root = tree.entry_at(&FsPath::root()).unwrap();
    assert_eq!(root.name(), "ROOT");
    assert!(root.is_dir());
    assert!(!root.scanned());
    assert_eq!(tree.node_count(), 1);
    assert!(!tree.is_scanned(&FsPath::root()));
}

#[test]
fn added_entry_is_found_by_name() {
    let mut tree = populated_tree();
    tree.add_entry(
        FsEntry::file("new.bin".into(), Some(7), None, None),
        &p("/home/guest/empty"),
    );
    let found = tree.entry_at(&p("/home/guest/empty/new.bin")).unwrap();
    assert_eq!(found.size(), Some(7));
    assert_eq!(tree.count_files(&p("/home/guest")), 2);
}

#[test]
fn marking_scanned_makes_path_scanned() {
    let mut tree = populated_tree();
    assert!(!tree.is_scanned(&p("/home")));
    let id = tree.find(&p("/home")).unwrap();
    tree.mark_scanned(id);
    assert!(tree.is_scanned(&p("/home")));
}

#[test]
fn ensure_dir_returns_existing_node() {
    let mut tree = populated_tree();
    let before = tree.node_count();
    let id = tree.ensure_dir(&p("/home/user"));
    assert_eq!(Some(id), tree.find(&p("/home/user")));
    assert_eq!(tree.node_count(), before);
}

#[test]
fn ensure_dir_adds_unscanned_dirs() {
    let mut tree = FsTree::new();
    tree.ensure_dir(&p("/a/b"));
    let a = tree.entry_at(&p("/a")).unwrap();
    assert!(a.is_dir());
    assert!(!a.scanned());
    assert_eq!(a.size(), None);
    assert_eq!(tree.node_count(), 3);
}

#[test]
fn count_files_of_a_file_is_one() {
    let tree = populated_tree();
    assert_eq!(tree.count_files(&p("/home/user/cat.png")), 1);
    assert_eq!(tree.count_files(&p("/home/guest/empty")), 0);
}

#[test]
fn count_files_checked_agrees() {
    let tree = populated_tree();
    assert_eq!(tree.count_files_checked(&p("/home")), Some(3));
    assert!(tree.dir_sizes_fit());
}

#[test]
fn remove_entries_passes_over_missing_paths() {
    let mut tree = populated_tree();
    let before = tree.node_count();
    tree.remove_entries(&vec![p("/nowhere"), p("/home/user/cat.png")]);
    assert_eq!(tree.node_count(), before - 1);
    assert!(tree.find(&p("/home/user/notes.txt")).is_some());
}

#[test]
fn path_join_and_parent() {
    let home = p("/home");
    let user = home.join(&"user".to_string());
    assert_eq!(user, p("/home/user"));
    assert_eq!(user.parent(), Some(home));
    assert_eq!(FsPath::root().parent(), None);
    assert!(p("/a").same_as(&p("/a")));
    assert!(!p("/a").same_as(&p("a")));
}
