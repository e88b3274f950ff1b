use copier::traversal::{copy_dir_all, Action, TraversalError, TraversalStats};
use copier::tree::Entry;

fn names(items: &[&str]) -> Vec<String> {
    items.iter().map(|item| item.to_string()).collect()
}

fn file(name: &str, size: u64) -> Entry {
    Entry::File { name: name.to_string(), size }
}

fn dir(name: &str, markers: &[&str], entries: Vec<Entry>) -> Entry {
    Entry::Dir { name: name.to_string(), markers: names(markers), entries }
}

fn create(path: &[&str]) -> Action {
    Action::CreateDir { path: names(path) }
}

fn skip(path: &[&str]) -> Action {
    Action::Skip { path: names(path) }
}

fn copy(path: &[&str], size: u64, position: u64) -> Action {
    Action::CopyFile { path: names(path), size, position }
}

fn sample_tree() -> Vec<Entry> {
    vec![
        file("a.txt", 100),
        dir("sub", &[], vec![file("b.txt", 50)]),
        dir("node_modules", &[], vec![file("c.txt", 10)]),
    ]
}

#[test]
fn discovery_counts_what_is_not_ignored() {
    let walked = copy_dir_all(&sample_tree(), &names(&["node_modules"]), false).unwrap();
    assert_eq!(walked.stats, TraversalStats { total_bytes: 150, total_files: 2 });
    assert_eq!(walked.actions, Vec::<Action>::new());
}

#[test]
fn copy_leaves_ignored_directory_out() {
    let walked = copy_dir_all(&sample_tree(), &names(&["node_modules"]), true).unwrap();
    assert_eq!(walked.stats, TraversalStats { total_bytes: 150, total_files: 2 });
    assert_eq!(walked.actions, vec![
        create(&[]),
        copy(&["a.txt"], 100, 100),
        create(&["sub"]),
        copy(&["sub", "b.txt"], 50, 150),
        skip(&["node_modules"]),
    ]);
}

#[test]
fn copy_without_patterns_takes_everything() {
    let walked = copy_dir_all(&sample_tree(), &Vec::new(), true).unwrap();
    assert_eq!(walked.stats, TraversalStats { total_bytes: 160, total_files: 3 });
    assert_eq!(walked.actions, vec![
        create(&[]),
        copy(&["a.txt"], 100, 100),
        create(&["sub"]),
        copy(&["sub", "b.txt"], 50, 150),
        create(&["node_modules"]),
        copy(&["node_modules", "c.txt"], 10, 160),
    ]);
}

#[test]
fn empty_source_creates_the_target_alone() {
    let walked = copy_dir_all(&Vec::new(), &names(&["x"]), true).unwrap();
    assert_eq!(walked.stats, TraversalStats { total_bytes: 0, total_files: 0 });
    assert_eq!(walked.actions, vec![create(&[])]);
    let walked = copy_dir_all(&Vec::new(), &names(&["x"]), false).unwrap();
    assert_eq!(walked.stats, TraversalStats { total_bytes: 0, total_files: 0 });
    assert_eq!(walked.actions, Vec::<Action>::new());
}

#[test]
fn empty_directories_are_created() {
    let tree = vec![dir("empty", &[], vec![]), dir("outer", &[], vec![dir("inner", &[], vec![])])];
    let walked = copy_dir_all(&tree, &Vec::new(), true).unwrap();
    assert_eq!(walked.actions, vec![
        create(&[]),
        create(&["empty"]),
        create(&["outer"]),
        create(&["outer", "inner"]),
    ]);
}

#[test]
fn bare_pattern_excludes_at_any_depth() {
    let tree = vec![
        dir("app", &[], vec![
            file("main.rs", 7),
            dir("target", &[], vec![file("big.bin", 1000), dir("deep", &[], vec![file("x", 1)])]),
            dir("src", &[], vec![dir("target", &[], vec![file("y", 2)]), file("lib.rs", 3)]),
        ]),
        dir("target", &[], vec![file("z", 4)]),
        file("target.txt", 5),
    ];
    let ignores = names(&["target"]);
    let found = copy_dir_all(&tree, &ignores, false).unwrap();
    assert_eq!(found.stats, TraversalStats { total_bytes: 15, total_files: 3 });
    let walked = copy_dir_all(&tree, &ignores, true).unwrap();
    assert_eq!(walked.actions, vec![
        create(&[]),
        create(&["app"]),
        copy(&["app", "main.rs"], 7, 7),
        skip(&["app", "target"]),
        create(&["app", "src"]),
        skip(&["app", "src", "target"]),
        copy(&["app", "src", "lib.rs"], 3, 10),
        skip(&["target"]),
        copy(&["target.txt"], 5, 15),
    ]);
}

#[test]
fn a_file_is_never_ignored() {
    let tree = vec![file("target", 9), dir("d", &[], vec![file("target", 1)])];
    let walked = copy_dir_all(&tree, &names(&["target", "/target"]), true).unwrap();
    assert_eq!(walked.stats, TraversalStats { total_bytes: 10, total_files: 2 });
    assert_eq!(walked.actions, vec![
        create(&[]),
        copy(&["target"], 9, 9),
        create(&["d"]),
        copy(&["d", "target"], 1, 10),
    ]);
}

#[test]
fn marker_excludes_the_directory_that_holds_it() {
    let ignores = names(&["/skip-me"]);
    let with_marker = vec![
        dir("D", &["skip-me"], vec![file("skip-me", 0), file("data", 8)]),
        file("top", 1),
    ];
    let walked = copy_dir_all(&with_marker, &ignores, true).unwrap();
    assert_eq!(walked.stats, TraversalStats { total_bytes: 1, total_files: 1 });
    assert_eq!(walked.actions, vec![create(&[]), skip(&["D"]), copy(&["top"], 1, 1)]);

    let without_marker = vec![dir("D", &[], vec![file("data", 8)]), file("top", 1)];
    let walked = copy_dir_all(&without_marker, &ignores, true).unwrap();
    assert_eq!(walked.stats, TraversalStats { total_bytes: 9, total_files: 2 });
    assert_eq!(walked.actions, vec![
        create(&[]),
        create(&["D"]),
        copy(&["D", "data"], 8, 8),
        copy(&["top"], 1, 9),
    ]);
}

#[test]
fn the_top_directory_is_not_checked() {
    // Patterns speak of the directories met on the way, not of the source.
    let tree = vec![file("f", 2)];
    let walked = copy_dir_all(&tree, &names(&["/"]), true).unwrap();
    assert_eq!(walked.actions, vec![create(&[]), copy(&["f"], 2, 2)]);
}

#[test]
fn entries_keep_the_order_of_their_listing() {
    let tree = vec![file("z", 1), dir("m", &[], vec![file("b", 2), file("a", 3)]), file("c", 4)];
    let walked = copy_dir_all(&tree, &Vec::new(), true).unwrap();
    assert_eq!(walked.actions, vec![
        create(&[]),
        copy(&["z"], 1, 1),
        create(&["m"]),
        copy(&["m", "b"], 2, 3),
        copy(&["m", "a"], 3, 6),
        copy(&["c"], 4, 10),
    ]);
}

#[test]
fn positions_add_up_and_end_at_the_total() {
    let tree = vec![
        file("a", 5),
        dir("d", &[], vec![file("b", 0), file("c", 11)]),
        dir("skipped", &[], vec![file("s", 100)]),
        file("e", 1),
    ];
    let ignores = names(&["skipped"]);
    let found = copy_dir_all(&tree, &ignores, false).unwrap();
    let walked = copy_dir_all(&tree, &ignores, true).unwrap();
    let mut sum = 0u64;
    let mut files = 0u64;
    for action in &walked.actions {
        if let Action::CopyFile { size, position, .. } = action {
            sum += size;
            files += 1;
            assert_eq!(*position, sum);
        }
    }
    assert_eq!(sum, 17);
    assert_eq!(found.stats, TraversalStats { total_bytes: 17, total_files: 4 });
    assert_eq!(found.stats.total_bytes, sum);
    assert_eq!(found.stats.total_files, files);
    assert_eq!(walked.stats, found.stats);
}

#[test]
fn every_file_follows_the_creation_of_its_directory() {
    let tree = vec![
        dir("a", &[], vec![dir("b", &[], vec![file("f", 1)]), file("g", 2)]),
        file("h", 3),
    ];
    let walked = copy_dir_all(&tree, &Vec::new(), true).unwrap();
    for (at, action) in walked.actions.iter().enumerate() {
        if let Action::CopyFile { path, .. } = action {
            let parent = path[..path.len() - 1].to_vec();
            let made = walked.actions[..at].iter().any(|earlier| {
                *earlier == Action::CreateDir { path: parent.clone() }
            });
            assert!(made);
        }
    }
}

#[test]
fn totals_that_do_not_fit_are_an_error() {
    let tree = vec![file("a", u64::MAX), dir("d", &[], vec![file("b", 1)])];
    assert_eq!(copy_dir_all(&tree, &Vec::new(), false), Err(TraversalError::TotalsOverflow));
    assert_eq!(copy_dir_all(&tree, &Vec::new(), true), Err(TraversalError::TotalsOverflow));
    // What is ignored is not counted, so the rest fits.
    let walked = copy_dir_all(&tree, &names(&["d"]), false).unwrap();
    assert_eq!(walked.stats, TraversalStats { total_bytes: u64::MAX, total_files: 1 });
}

#[test]
fn totals_at_the_limit_fit() {
    let tree = vec![file("a", u64::MAX - 1), file("b", 1), file("c", 0)];
    let walked = copy_dir_all(&tree, &Vec::new(), true).unwrap();
    assert_eq!(walked.stats, TraversalStats { total_bytes: u64::MAX, total_files: 3 });
    assert_eq!(walked.actions, vec![
        create(&[]),
        copy(&["a"], u64::MAX - 1, u64::MAX - 1),
        copy(&["b"], 1, u64::MAX),
        copy(&["c"], 0, u64::MAX),
    ]);
}
