use copier::traversal::{Action, TraversalError, TraversalStats};
use copier::tree::Entry;
use copier::{ignores_in_force, run, Config, Report};

fn strings(items: &[&str]) -> Vec<String> {
    items.iter().map(|item| item.to_string()).collect()
}

fn plain_file(name: &str, size: u64) -> Entry {
    Entry::File { name: name.to_string(), size }
}

fn plain_dir(name: &str, entries: Vec<Entry>) -> Entry {
    Entry::Dir { name: name.to_string(), markers: Vec::new(), entries }
}

fn source_tree() -> Vec<Entry> {
    vec![
        plain_file("a.txt", 100),
        plain_dir("sub", vec![plain_file("b.txt", 50)]),
        plain_dir("node_modules", vec![plain_file("c.txt", 10)]),
    ]
}

#[test]
fn config_takes_source_and_target() {
    let args = strings(&["copier", "from", "to"]);
    let config = Config::new(&args);
    assert_eq!(config.source, "from");
    assert_eq!(config.target, "to");
    assert_eq!(config.ignore_path, None);
}

#[test]
fn config_takes_ignore_file() {
    let args = strings(&["copier", "from", "to", ".ignore"]);
    let config = Config::new(&args);
    assert_eq!(config.source, "from");
    assert_eq!(config.target, "to");
    assert_eq!(config.ignore_path, Some(".ignore"));
}

#[test]
fn config_passes_over_further_arguments() {
    let args = strings(&["copier", "from", "to", ".ignore", "more", "and more"]);
    let config = Config::new(&args);
    assert_eq!(config, Config { source: "from", target: "to", ignore_path: Some(".ignore") });
}

#[test]
fn run_with_ignore_file() {
    let config = Config { source: "from", target: "to", ignore_path: Some("list") };
    let report = run(config, b"node_modules\n", &source_tree()).unwrap();
    assert_eq!(report, Report {
        discovered: TraversalStats { total_bytes: 150, total_files: 2 },
        actions: vec![
            Action::CreateDir { path: vec![] },
            Action::CopyFile { path: strings(&["a.txt"]), size: 100, position: 100 },
            Action::CreateDir { path: strings(&["sub"]) },
            Action::CopyFile { path: strings(&["sub", "b.txt"]), size: 50, position: 150 },
            Action::Skip { path: strings(&["node_modules"]) },
        ],
    });
}

#[test]
fn run_without_ignore_file_skips_nothing() {
    let config = Config { source: "from", target: "to", ignore_path: None };
    // Bytes that no configured file stands behind are not looked at.
    let report = run(config, b"node_modules\nsub\n", &source_tree()).unwrap();
    assert_eq!(ignores_in_force(config, b"node_modules\nsub\n"), Vec::<String>::new());
    assert_eq!(report.discovered, TraversalStats { total_bytes: 160, total_files: 3 });
    assert_eq!(report.actions.len(), 6);
    assert!(report.actions.iter().all(|action| !matches!(action, Action::Skip { .. })));
}

#[test]
fn run_with_comments_only_copies_everything() {
    let config = Config { source: "from", target: "to", ignore_path: Some("list") };
    let with_comments = run(config, b"# nothing here\n\n#node_modules\n", &source_tree()).unwrap();
    let with_empty = run(config, b"", &source_tree()).unwrap();
    let bare = Config { source: "from", target: "to", ignore_path: None };
    let without = run(bare, b"", &source_tree()).unwrap();
    assert_eq!(ignores_in_force(config, b"# nothing here\n\n#node_modules\n").len(), 0);
    assert_eq!(with_comments, without);
    assert_eq!(with_empty, without);
    assert_eq!(without.discovered, TraversalStats { total_bytes: 160, total_files: 3 });
}

#[test]
fn run_counts_every_pattern() {
    let config = Config { source: "from", target: "to", ignore_path: Some("list") };
    let report = run(config, b"x\n/y\n# z\nsub", &source_tree()).unwrap();
    assert_eq!(ignores_in_force(config, b"x\n/y\n# z\nsub"), strings(&["x", "/y", "sub"]));
    assert_eq!(report.discovered, TraversalStats { total_bytes: 110, total_files: 2 });
}

#[test]
fn run_with_marker_pattern() {
    let config = Config { source: "from", target: "to", ignore_path: Some("list") };
    let tree = vec![
        Entry::Dir {
            name: "D".to_string(),
            markers: strings(&["skip-me"]),
            entries: vec![plain_file("skip-me", 0), plain_file("kept", 3)],
        },
        plain_dir("E", vec![plain_file("kept", 4)]),
    ];
    let report = run(config, b"/skip-me\n", &tree).unwrap();
    assert_eq!(report.discovered, TraversalStats { total_bytes: 4, total_files: 1 });
    assert_eq!(report.actions, vec![
        Action::CreateDir { path: vec![] },
        Action::Skip { path: strings(&["D"]) },
        Action::CreateDir { path: strings(&["E"]) },
        Action::CopyFile { path: strings(&["E", "kept"]), size: 4, position: 4 },
    ]);
}

#[test]
fn run_fails_where_totals_overflow() {
    let config = Config { source: "from", target: "to", ignore_path: None };
    let tree = vec![plain_file("a", u64::MAX), plain_file("b", 1)];
    assert_eq!(run(config, b"", &tree), Err(TraversalError::TotalsOverflow));
}
