use type_sorter::organize::Step;
use type_sorter::scan::Entry;
use type_sorter::time::Timestamp;
use type_sorter::tree::Directory;

fn at(secs: i64) -> Timestamp {
    Timestamp { secs, nanos: 0 }
}

fn file(name: &str) -> Entry {
    Entry::File { name: name.to_string(), created_at: at(10), modified_at: at(20) }
}

fn dir(name: &str) -> Entry {
    Entry::Dir { name: name.to_string() }
}

fn ensure(path: &str) -> Step {
    Step::EnsureDir { path: path.to_string() }
}

fn mv(from: &str, to: &str) -> Step {
    Step::Move { from: from.to_string(), to: to.to_string() }
}

#[test]
fn files_go_to_the_folder_of_their_type() {
    let entries = vec![file("a.txt"), file("b.txt"), file("c.md"), dir(".git")];
    let got = Directory::new(".").scan_dir("R", &entries);
    assert!(got.pending.is_empty());
    let steps = got.node.create_directories("R");
    assert_eq!(
        steps,
        vec![
            ensure("R/txt"),
            mv("R/a.txt", "R/txt/a.txt"),
            mv("R/b.txt", "R/txt/b.txt"),
            ensure("R/md"),
            mv("R/c.md", "R/md/c.md"),
        ]
    );
}

#[test]
fn nested_files_land_directly_under_the_root() {
    let listing = Directory::new(".").scan_dir("R", &vec![dir("a")]);
    assert_eq!(listing.pending, vec!["R/a".to_string()]);
    let mut root = listing.node;
    let child = Directory::new(".").scan_dir("R/a", &vec![file("x.txt")]);
    root.adopt(child.node);
    let steps = root.create_directories("R");
    assert_eq!(steps, vec![ensure("R/txt"), mv("R/a/x.txt", "R/txt/x.txt")]);
}

#[test]
fn unscanned_subdirectory_is_left_alone() {
    let mut config = Directory::new(".");
    config.should_scan_subdirectories = false;
    let listing = config.scan_dir("R", &vec![dir("sub")]);
    assert!(listing.pending.is_empty());
    assert!(listing.node.create_directories("R").is_empty());
}

#[test]
fn file_without_extension_goes_to_unknown() {
    let listing = Directory::new(".").scan_dir("R", &vec![file("README")]);
    assert_eq!(listing.node.files[0].filetype, "unknown");
    let steps = listing.node.create_directories("R");
    assert_eq!(steps, vec![ensure("R/unknown"), mv("R/README", "R/unknown/README")]);
}

#[test]
fn each_node_sees_to_its_own_folders() {
    let mut root = Directory::new(".").scan_dir("R", &vec![file("a.txt"), dir("s"), dir("t")]).node;
    let mut s = Directory::new(".").scan_dir("R/s", &vec![file("b.txt"), dir("u")]).node;
    let u = Directory::new(".").scan_dir("R/s/u", &vec![file("c.md"), file("d.txt")]).node;
    let t = Directory::new(".").scan_dir("R/t", &vec![file("e.md")]).node;
    s.adopt(u);
    root.adopt(s);
    root.adopt(t);
    assert_eq!(
        root.create_directories("R"),
        vec![
            ensure("R/txt"),
            mv("R/a.txt", "R/txt/a.txt"),
            ensure("R/txt"),
            mv("R/s/b.txt", "R/txt/b.txt"),
            ensure("R/md"),
            mv("R/s/u/c.md", "R/md/c.md"),
            ensure("R/txt"),
            mv("R/s/u/d.txt", "R/txt/d.txt"),
            ensure("R/md"),
            mv("R/t/e.md", "R/md/e.md"),
        ]
    );
}

#[test]
fn own_steps_leave_the_children_out() {
    let mut root = Directory::new(".").scan_dir("R", &vec![file("a.txt")]).node;
    root.adopt(Directory::new(".").scan_dir("R/s", &vec![file("b.txt")]).node);
    assert_eq!(root.own_steps("R"), vec![ensure("R/txt"), mv("R/a.txt", "R/txt/a.txt")]);
}

#[test]
fn existing_folder_is_not_created_again() {
    assert!(ensure("R/txt").must_create(false));
    assert!(!ensure("R/txt").must_create(true));
    assert!(!mv("R/a.txt", "R/txt/a.txt").must_create(false));
    assert!(!mv("R/a.txt", "R/txt/a.txt").must_create(true));
}

#[test]
fn empty_tree_plans_nothing() {
    assert!(Directory::new("R").create_directories("R").is_empty());
}
