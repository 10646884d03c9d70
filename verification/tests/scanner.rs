use type_sorter::organize::Step;
use type_sorter::scan::Entry;
use type_sorter::scanner::{Progress, Scanner};
use type_sorter::time::Timestamp;
use type_sorter::tree::Directory;

fn stamp(secs: i64) -> Timestamp {
    Timestamp { secs, nanos: 0 }
}

fn plain(name: &str) -> Entry {
    Entry::File { name: name.to_string(), created_at: stamp(10), modified_at: stamp(20) }
}

fn folder(name: &str) -> Entry {
    Entry::Dir { name: name.to_string() }
}

/// A small tree: what each directory lists.
fn listing_of(path: &str) -> Vec<Entry> {
    match path {
        "R" => vec![plain("a.txt"), folder("s"), folder(".git"), plain("README"), folder("t")],
        "R/s" => vec![folder("u"), plain("b.txt"), folder("v")],
        "R/s/u" => vec![plain("c.md")],
        "R/s/v" => vec![],
        "R/t" => vec![plain("d.txt"), folder(".hidden")],
        "R/.git" => vec![plain("config")],
        other => panic!("asked for {}", other),
    }
}

/// Runs a scan over `listing_of` and gives the tree and the paths asked for.
fn run(recurse: bool) -> (Directory, Vec<String>) {
    let mut scanner = Scanner::new("R", recurse);
    let mut asked = vec![scanner.awaited_path()];
    loop {
        let entries = listing_of(asked.last().expect("a path"));
        match scanner.feed(&entries) {
            Progress::List { path } => {
                assert_eq!(path, scanner.awaited_path());
                assert!(asked.len() < 20);
                asked.push(path);
            }
            Progress::Finished { tree } => return (tree, asked),
        }
    }
}

fn names(dir: &Directory) -> Vec<String> {
    dir.files.iter().map(|f| f.name.clone()).collect()
}

#[test]
fn scanner_starts_at_the_root() {
    assert_eq!(Scanner::new("R", true).awaited_path(), "R");
    assert_eq!(Scanner::new("/tmp/x", false).awaited_path(), "/tmp/x");
}

#[test]
fn scan_visits_directories_depth_first_and_skips_hidden_ones() {
    let (_, asked) = run(true);
    assert_eq!(asked, vec!["R", "R/s", "R/s/u", "R/s/v", "R/t"]);
}

#[test]
fn scan_builds_the_whole_tree() {
    let (tree, _) = run(true);
    assert_eq!(tree.path, "R");
    assert!(tree.should_scan_subdirectories);
    assert_eq!(names(&tree), vec!["a.txt", "README"]);
    let kids = tree.directories.as_ref().expect("children of R");
    assert_eq!(kids.len(), 2);
    assert_eq!(kids[0].path, "R/s");
    assert_eq!(names(&kids[0]), vec!["b.txt"]);
    assert_eq!(kids[1].path, "R/t");
    assert_eq!(names(&kids[1]), vec!["d.txt"]);
    assert_eq!(kids[1].directories, None);
    let deeper = kids[0].directories.as_ref().expect("children of R/s");
    assert_eq!(deeper.len(), 2);
    assert_eq!(deeper[0].path, "R/s/u");
    assert_eq!(names(&deeper[0]), vec!["c.md"]);
    assert_eq!(deeper[0].directories, None);
    assert_eq!(deeper[1].path, "R/s/v");
    assert!(deeper[1].files.is_empty());
    assert_eq!(deeper[1].directories, None);
}

#[test]
fn flat_scan_lists_the_root_alone() {
    let (tree, asked) = run(false);
    assert_eq!(asked, vec!["R"]);
    assert_eq!(tree.path, "R");
    assert_eq!(tree.directories, None);
    assert!(!tree.should_scan_subdirectories);
    assert_eq!(names(&tree), vec!["a.txt", "README"]);
}

#[test]
fn scanner_can_be_used_again_after_it_finished() {
    let mut scanner = Scanner::new("R/t", true);
    let first = scanner.feed(&listing_of("R/t"));
    let second = scanner.feed(&listing_of("R/t"));
    assert_eq!(first, second);
    assert!(matches!(first, Progress::Finished { .. }));
}

#[test]
fn scanned_tree_is_reorganized_under_the_root() {
    let (tree, _) = run(true);
    let steps = tree.create_directories("R");
    let moves: Vec<(String, String)> = steps
        .iter()
        .filter_map(|s| match s {
            Step::Move { from, to } => Some((from.clone(), to.clone())),
            Step::EnsureDir { .. } => None,
        })
        .collect();
    let expected: Vec<(String, String)> = vec![
        ("R/a.txt", "R/txt/a.txt"),
        ("R/README", "R/unknown/README"),
        ("R/s/b.txt", "R/txt/b.txt"),
        ("R/s/u/c.md", "R/md/c.md"),
        ("R/t/d.txt", "R/txt/d.txt"),
    ]
    .into_iter()
    .map(|(a, b)| (a.to_string(), b.to_string()))
    .collect();
    assert_eq!(moves, expected);
    assert!(!steps.iter().any(|s| match s {
        Step::Move { from, .. } => from.contains(".git"),
        Step::EnsureDir { path } => path.contains(".git"),
    }));
}

#[test]
fn flat_scan_leaves_subdirectories_where_they_are() {
    let (tree, _) = run(false);
    let steps = tree.create_directories("R");
    assert_eq!(
        steps,
        vec![
            Step::EnsureDir { path: "R/txt".to_string() },
            Step::Move { from: "R/a.txt".to_string(), to: "R/txt/a.txt".to_string() },
            Step::EnsureDir { path: "R/unknown".to_string() },
            Step::Move { from: "R/README".to_string(), to: "R/unknown/README".to_string() },
        ]
    );
}
