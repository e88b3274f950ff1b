use copier::scan::Scan;
use copier::traversal::{copy_dir_all, Action, TraversalStats};
use copier::tree::Entry;

fn words(items: &[&str]) -> Vec<String> {
    items.iter().map(|item| item.to_string()).collect()
}

fn leaf(name: &str, size: u64) -> Entry {
    Entry::File { name: name.to_string(), size }
}

fn branch(name: &str, markers: &[&str], entries: Vec<Entry>) -> Entry {
    Entry::Dir { name: name.to_string(), markers: words(markers), entries }
}

/// What the directory at `path` lists, each directory in it without what
/// it holds.
fn listing_at(tree: &[Entry], path: &[String]) -> Vec<Entry> {
    match path.split_first() {
        None => tree
            .iter()
            .map(|entry| match entry {
                Entry::File { name, size } => Entry::File { name: name.clone(), size: *size },
                Entry::Dir { name, markers, .. } => Entry::Dir {
                    name: name.clone(),
                    markers: markers.clone(),
                    entries: Vec::new(),
                },
            })
            .collect(),
        Some((first, rest)) => {
            for entry in tree {
                if let Entry::Dir { name, entries, .. } = entry {
                    if name == first {
                        return listing_at(entries, rest);
                    }
                }
            }
            panic!("no directory at the path asked for")
        }
    }
}

/// Reads `tree` through a scan and returns the paths asked for with the
/// snapshot.
fn read_through(tree: &[Entry], ignores: &[&str]) -> (Vec<Vec<String>>, Vec<Entry>) {
    let mut scan = Scan::new(words(ignores));
    let mut asked = Vec::new();
    while let Some(path) = scan.pending() {
        let listing = listing_at(tree, &path);
        asked.push(path);
        scan.supply(listing);
    }
    (asked, scan.finish().unwrap())
}

fn disk() -> Vec<Entry> {
    vec![
        leaf("a.txt", 100),
        branch("sub", &[], vec![leaf("b.txt", 50), branch("deep", &[], vec![leaf("d", 1)])]),
        branch("node_modules", &[], vec![leaf("c.txt", 10), branch("pkg", &[], vec![])]),
        branch("marked", &["skip-me"], vec![leaf("skip-me", 0), leaf("e", 5)]),
        leaf("z", 2),
    ]
}

#[test]
fn scan_asks_for_the_top_first() {
    let scan = Scan::new(Vec::new());
    assert_eq!(scan.pending(), Some(Vec::new()));
    assert_eq!(scan.finish(), None);
}

#[test]
fn scan_of_an_empty_directory_ends_at_once() {
    let mut scan = Scan::new(Vec::new());
    scan.supply(Vec::new());
    assert_eq!(scan.pending(), None);
    assert_eq!(scan.finish(), Some(Vec::new()));
}

#[test]
fn scan_without_patterns_reads_every_directory() {
    let (asked, read) = read_through(&disk(), &[]);
    assert_eq!(asked, vec![
        words(&[]),
        words(&["sub"]),
        words(&["sub", "deep"]),
        words(&["node_modules"]),
        words(&["node_modules", "pkg"]),
        words(&["marked"]),
    ]);
    assert_eq!(read, disk());
}

#[test]
fn scan_never_asks_for_what_is_excluded() {
    let (asked, read) = read_through(&disk(), &["node_modules", "/skip-me", "deep"]);
    assert_eq!(asked, vec![words(&[]), words(&["sub"])]);
    assert_eq!(read, vec![
        leaf("a.txt", 100),
        branch("sub", &[], vec![leaf("b.txt", 50), branch("deep", &[], vec![])]),
        branch("node_modules", &[], vec![]),
        branch("marked", &["skip-me"], vec![]),
        leaf("z", 2),
    ]);
}

#[test]
fn walk_of_the_snapshot_is_the_walk_of_the_tree() {
    let ignores = ["node_modules", "/skip-me"];
    let (_, read) = read_through(&disk(), &ignores);
    for should_copy in [false, true] {
        let of_snapshot = copy_dir_all(&read, &words(&ignores), should_copy).unwrap();
        let of_tree = copy_dir_all(&disk(), &words(&ignores), should_copy).unwrap();
        assert_eq!(of_snapshot, of_tree);
        assert_eq!(of_snapshot.stats, TraversalStats { total_bytes: 153, total_files: 4 });
    }
}

#[test]
fn scan_takes_no_content_on_trust() {
    // What a listing claims to lie in a directory is not taken over: the
    // directory is asked for in its turn.
    let mut scan = Scan::new(Vec::new());
    scan.supply(vec![branch("d", &[], vec![leaf("claimed", 9)])]);
    assert_eq!(scan.pending(), Some(words(&["d"])));
    scan.supply(vec![leaf("real", 1)]);
    assert_eq!(scan.pending(), None);
    assert_eq!(scan.finish(), Some(vec![branch("d", &[], vec![leaf("real", 1)])]));
}

#[test]
fn scan_drops_claimed_content_of_excluded_directory() {
    let mut scan = Scan::new(words(&["d"]));
    scan.supply(vec![branch("d", &[], vec![leaf("claimed", 9)]), leaf("f", 1)]);
    assert_eq!(scan.pending(), None);
    assert_eq!(scan.finish(), Some(vec![branch("d", &[], vec![]), leaf("f", 1)]));
}

#[test]
fn scan_closes_directories_on_the_way_up() {
    let tree = vec![
        branch("a", &[], vec![
            branch("b", &[], vec![branch("c", &[], vec![])]),
            leaf("after-b", 1),
        ]),
        leaf("after-a", 2),
        branch("last", &[], vec![]),
    ];
    let (asked, read) = read_through(&tree, &[]);
    assert_eq!(asked, vec![
        words(&[]),
        words(&["a"]),
        words(&["a", "b"]),
        words(&["a", "b", "c"]),
        words(&["last"]),
    ]);
    assert_eq!(read, tree);
}

#[test]
fn supply_after_the_end_changes_nothing() {
    let mut scan = Scan::new(Vec::new());
    scan.supply(vec![leaf("f", 1)]);
    assert_eq!(scan.pending(), None);
    scan.supply(vec![leaf("g", 2), branch("d", &[], vec![])]);
    assert_eq!(scan.pending(), None);
    assert_eq!(scan.finish(), Some(vec![leaf("f", 1)]));
}

#[test]
fn scan_lists_what_the_copy_creates() {
    let ignores = ["node_modules", "/skip-me"];
    let (asked, read) = read_through(&disk(), &ignores);
    let walked = copy_dir_all(&read, &words(&ignores), true).unwrap();
    let created: Vec<Vec<String>> = walked
        .actions
        .iter()
        .filter_map(|action| match action {
            Action::CreateDir { path } => Some(path.clone()),
            _ => None,
        })
        .collect();
    assert_eq!(created, asked);
    assert_eq!(asked.len(), 3);
}
