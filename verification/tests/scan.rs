use type_sorter::scan::Entry;
use type_sorter::time::Timestamp;
use type_sorter::tree::{Directory, File};

fn at(secs: i64) -> Timestamp {
    Timestamp { secs, nanos: 0 }
}

fn file(name: &str) -> Entry {
    Entry::File { name: name.to_string(), created_at: at(10), modified_at: at(20) }
}

fn dir(name: &str) -> Entry {
    Entry::Dir { name: name.to_string() }
}

fn flat() -> Directory {
    let mut d = Directory::new(".");
    d.should_scan_subdirectories = false;
    d
}

#[test]
fn new_directory_is_empty_and_recurses() {
    let d = Directory::new("some/where");
    assert_eq!(d.path, "some/where");
    assert!(d.files.is_empty());
    assert_eq!(d.directories, None);
    assert!(d.should_scan_subdirectories);
}

#[test]
fn file_reads_its_type_from_its_name() {
    let f = File::new("notes.txt", at(1), at(2));
    assert_eq!(f.name, "notes.txt");
    assert_eq!(f.filetype, "txt");
    assert_eq!(f.created_at, at(1));
    assert_eq!(f.modified_at, at(2));
    assert_eq!(File::new("README", at(1), at(2)).filetype, "unknown");
}

#[test]
fn listing_keeps_files_in_order_and_skips_hidden_directories() {
    let entries = vec![file("a.txt"), dir(".git"), file("b.txt"), dir("sub"), file("c.md")];
    let got = Directory::new(".").scan_dir("R", &entries);
    assert_eq!(got.node.path, "R");
    let names: Vec<&str> = got.node.files.iter().map(|f| f.name.as_str()).collect();
    assert_eq!(names, vec!["a.txt", "b.txt", "c.md"]);
    let types: Vec<&str> = got.node.files.iter().map(|f| f.filetype.as_str()).collect();
    assert_eq!(types, vec!["txt", "txt", "md"]);
    assert_eq!(got.node.files[0].created_at, at(10));
    assert_eq!(got.node.files[0].modified_at, at(20));
    assert_eq!(got.node.directories, None);
    assert!(got.node.should_scan_subdirectories);
    assert_eq!(got.pending, vec!["R/sub".to_string()]);
}

#[test]
fn hidden_directories_are_skipped_whatever_the_setting() {
    let entries = vec![dir(".git"), dir(".cache"), dir(".")];
    assert!(Directory::new(".").scan_dir("R", &entries).pending.is_empty());
    assert!(flat().scan_dir("R", &entries).pending.is_empty());
}

#[test]
fn hidden_files_are_still_files() {
    let entries = vec![file(".gitignore")];
    let got = Directory::new(".").scan_dir("R", &entries);
    assert_eq!(got.node.files.len(), 1);
    assert_eq!(got.node.files[0].filetype, "gitignore");
}

#[test]
fn flat_scan_hands_no_subdirectory_back() {
    let entries = vec![dir("sub"), file("a.txt"), dir("other")];
    let got = flat().scan_dir("R", &entries);
    assert!(got.pending.is_empty());
    assert_eq!(got.node.directories, None);
    assert!(!got.node.should_scan_subdirectories);
    assert_eq!(got.node.files.len(), 1);
}

#[test]
fn empty_listing_gives_an_empty_node() {
    let got = Directory::new(".").scan_dir("R", &Vec::new());
    assert!(got.node.files.is_empty());
    assert!(got.pending.is_empty());
    assert_eq!(got.node.directories, None);
}

#[test]
fn adopt_appends_children_in_order() {
    let mut d = Directory::new("R");
    d.adopt(Directory::new("R/a"));
    d.adopt(Directory::new("R/b"));
    let kids = d.directories.expect("children");
    assert_eq!(kids.len(), 2);
    assert_eq!(kids[0].path, "R/a");
    assert_eq!(kids[1].path, "R/b");
}
