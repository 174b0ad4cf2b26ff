use godata::endpoint::LocalEndpoint;
use godata::errors::ErrorKind;
use godata::tree::{FolderItem, VirtualTree};

fn tree() -> VirtualTree {
    VirtualTree::new(LocalEndpoint::new(String::from("/proj")))
}

fn item(segs: &[&str], is_dir: bool) -> FolderItem {
    let mut rel: Vec<String> = Vec::new();
    for s in segs {
        rel.push(String::from(*s));
    }
    FolderItem { rel, is_dir }
}

#[test]
fn exists_lifecycle() {
    let mut t = tree();
    assert!(!t.path_exists("a/b.txt"));
    assert!(t.path_exists(""));
    let added = t.add_file("a/b.txt", "/ext/b.txt", false).unwrap();
    assert_eq!(added, (None, false));
    assert!(t.path_exists("a/b.txt"));
    assert!(t.path_exists("a"));
    let removed = t.remove_file("a/b.txt").unwrap();
    assert_eq!(removed, None);
    assert!(!t.path_exists("a/b.txt"));
}

#[test]
fn external_link_round_trip() {
    let mut t = tree();
    t.add_file("d/f.bin", "/elsewhere/f.bin", false).unwrap();
    let info = t.get_file("d/f.bin").unwrap();
    assert_eq!(info.physical_path, "/elsewhere/f.bin");
    assert!(!info.is_internal);
}

#[test]
fn internal_link_round_trip() {
    let mut t = tree();
    let physical = t.generate_path("d/f.bin").unwrap();
    assert_eq!(physical, "/proj/d/f.bin");
    t.add_file("d/f.bin", &physical, false).unwrap();
    let info = t.get_file("d/f.bin").unwrap();
    assert_eq!(info.physical_path, "/proj/d/f.bin");
    assert!(info.is_internal);
}

#[test]
fn overwrite_reports_internal_previous() {
    let mut t = tree();
    let physical = t.generate_path("p").unwrap();
    t.add_file("p", &physical, false).unwrap();
    let out = t.add_file("p", "/new/src2", true).unwrap();
    assert_eq!(out.0, Some(String::from("/proj/p")));
    assert!(out.1);
    let info = t.get_file("p").unwrap();
    assert_eq!(info.physical_path, "/new/src2");
}

#[test]
fn overwrite_reports_external_previous() {
    let mut t = tree();
    t.add_file("p", "/ext/src1", false).unwrap();
    let out = t.add_file("p", "/ext/src2", true).unwrap();
    assert_eq!(out.0, Some(String::from("/ext/src1")));
    assert!(!out.1);
}

#[test]
fn add_file_collisions() {
    let mut t = tree();
    t.add_file("a/b.txt", "/ext/b.txt", false).unwrap();
    let again = t.add_file("a/b.txt", "/ext/other", false);
    assert_eq!(again.unwrap_err().kind(), ErrorKind::AlreadyExists);
    // a folder cannot be overwritten even with force
    let onto_folder = t.add_file("a", "/ext/a", true);
    assert_eq!(onto_folder.unwrap_err().kind(), ErrorKind::AlreadyExists);
    // a file cannot serve as an ancestor folder
    let under_file = t.add_file("a/b.txt/c", "/ext/c", false);
    assert_eq!(under_file.unwrap_err().kind(), ErrorKind::AlreadyExists);
    assert!(!t.path_exists("a/b.txt/c"));
}

#[test]
fn listing_keeps_insertion_order() {
    let mut t = tree();
    t.add_file("c.txt", "/e/c", false).unwrap();
    t.add_file("a.txt", "/e/a", false).unwrap();
    t.add_file("b.txt", "/e/b", false).unwrap();
    let names: Vec<String> = t.list(None).unwrap().into_iter().map(|c| c.name).collect();
    assert_eq!(names, vec!["c.txt", "a.txt", "b.txt"]);
    let again: Vec<String> = t.list(None).unwrap().into_iter().map(|c| c.name).collect();
    assert_eq!(names, again);
}

#[test]
fn listing_a_folder_and_its_errors() {
    let mut t = tree();
    t.add_file("dir/x.txt", "/e/x", false).unwrap();
    t.add_file("dir/y.txt", "/e/y", false).unwrap();
    let children = t.list(Some("dir")).unwrap();
    assert_eq!(children.len(), 2);
    assert_eq!(children[0].name, "x.txt");
    assert!(!children[0].is_folder);
    assert_eq!(children[1].name, "y.txt");
    let root = t.list(None).unwrap();
    assert_eq!(root.len(), 1);
    assert_eq!(root[0].name, "dir");
    assert!(root[0].is_folder);
    assert_eq!(t.list(Some("missing")).unwrap_err().kind(), ErrorKind::NotFound);
    assert_eq!(t.list(Some("dir/x.txt")).unwrap_err().kind(), ErrorKind::NotFound);
}

#[test]
fn recursive_folder_link() {
    let mut t = tree();
    let items = vec![
        item(&["a.txt"], false),
        item(&["sub"], true),
        item(&["sub", "b.txt"], false),
    ];
    t.add_folder("p", "/ext/d", true, &items, true).unwrap();
    assert!(t.path_exists("p"));
    assert!(t.path_exists("p/a.txt"));
    assert!(t.path_exists("p/sub"));
    assert!(t.path_exists("p/sub/b.txt"));
    let a = t.get_file("p/a.txt").unwrap();
    assert_eq!(a.physical_path, "/ext/d/a.txt");
    assert!(!a.is_internal);
    let b = t.get_file("p/sub/b.txt").unwrap();
    assert_eq!(b.physical_path, "/ext/d/sub/b.txt");
    assert!(!b.is_internal);
    // p/sub is a folder, not a file
    assert_eq!(t.get_file("p/sub").unwrap_err().kind(), ErrorKind::NotFound);
    let sub = t.list(Some("p/sub")).unwrap();
    assert_eq!(sub.len(), 1);
    assert_eq!(sub[0].name, "b.txt");
}

#[test]
fn folder_link_without_recursion() {
    let mut t = tree();
    let ignored = vec![item(&["a.txt"], false)];
    t.add_folder("p", "/ext/d", false, &ignored, true).unwrap();
    assert!(t.path_exists("p"));
    assert!(!t.path_exists("p/a.txt"));
    assert_eq!(t.list(Some("p")).unwrap().len(), 0);
}

#[test]
fn folder_link_errors() {
    let mut t = tree();
    let none: Vec<FolderItem> = Vec::new();
    let absent = t.add_folder("p", "/ext/d", false, &none, false);
    assert_eq!(absent.unwrap_err().kind(), ErrorKind::NotFound);
    t.add_file("p", "/ext/p", false).unwrap();
    let occupied = t.add_folder("p", "/ext/d", false, &none, true);
    assert_eq!(occupied.unwrap_err().kind(), ErrorKind::AlreadyExists);
    assert!(!t.path_exists("q"));
    let orphan = vec![item(&["sub", "b.txt"], false)];
    let bad = t.add_folder("q", "/ext/d", true, &orphan, true);
    assert_eq!(bad.unwrap_err().kind(), ErrorKind::InternalError);
    assert!(!t.path_exists("q"));
}

#[test]
fn moving_an_internal_file() {
    let mut t = tree();
    let physical = t.generate_path("p1").unwrap();
    t.add_file("p1", &physical, false).unwrap();
    let out = t.move_("p1", "d/p2", false).unwrap();
    assert_eq!(
        out.physical_move,
        Some((String::from("/proj/p1"), String::from("/proj/d/p2")))
    );
    assert_eq!(out.replaced_physical, None);
    let info = t.get_file("d/p2").unwrap();
    assert_eq!(info.physical_path, "/proj/d/p2");
    assert!(info.is_internal);
    assert!(!t.path_exists("p1"));
}

#[test]
fn moving_an_external_file() {
    let mut t = tree();
    t.add_file("p1", "/ext/data", false).unwrap();
    let out = t.move_("p1", "p2", false).unwrap();
    assert_eq!(out.physical_move, None);
    let info = t.get_file("p2").unwrap();
    assert_eq!(info.physical_path, "/ext/data");
}

#[test]
fn moving_onto_an_occupied_path() {
    let mut t = tree();
    t.add_file("p1", "/ext/one", false).unwrap();
    t.add_file("p2", "/ext/two", false).unwrap();
    let refused = t.move_("p1", "p2", false);
    assert_eq!(refused.unwrap_err().kind(), ErrorKind::AlreadyExists);
    assert_eq!(t.get_file("p1").unwrap().physical_path, "/ext/one");
    assert_eq!(t.get_file("p2").unwrap().physical_path, "/ext/two");
    let replaced = t.move_("p1", "p2", true).unwrap();
    assert_eq!(replaced.replaced_physical, Some(String::from("/ext/two")));
    assert!(!replaced.replaced_was_internal);
    assert_eq!(t.get_file("p2").unwrap().physical_path, "/ext/one");
    assert!(!t.path_exists("p1"));
}

#[test]
fn moving_missing_sources() {
    let mut t = tree();
    let missing = t.move_("nope", "p2", false);
    assert_eq!(missing.unwrap_err().kind(), ErrorKind::NotFound);
    t.add_file("dir/f", "/ext/f", false).unwrap();
    let folder = t.move_("dir", "other", false);
    assert_eq!(folder.unwrap_err().kind(), ErrorKind::NotFound);
}
