use sessionizer::scan::{EntryInfo, Scanner};

fn dir(path: &str, has_git: bool) -> EntryInfo {
    EntryInfo { path: path.to_string(), is_dir: true, has_git }
}

fn file(path: &str) -> EntryInfo {
    EntryInfo { path: path.to_string(), is_dir: false, has_git: false }
}

/// Run a scan against a fake directory tree given as (directory, listing)
/// pairs; a directory absent from the table is reported as unlistable.
fn run(root: &str, nested: bool, tree: &[(&str, Vec<EntryInfo>)]) -> Vec<String> {
    let mut scanner = Scanner::new(root.to_string(), nested);
    while let Some(d) = scanner.next_dir() {
        let listing = tree
            .iter()
            .find(|(name, _)| *name == d)
            .map(|(_, es)| es.iter().map(|e| EntryInfo {
                path: e.path.clone(),
                is_dir: e.is_dir,
                has_git: e.has_git,
            }).collect())
            .unwrap_or_else(Vec::new);
        scanner.record_listing(&listing);
    }
    let mut repos = scanner.finish();
    repos.sort();
    repos
}

#[test]
fn repo_is_leaf_plain_dir_is_traversed() {
    let tree = vec![
        ("/r", vec![dir("/r/repoA", true), dir("/r/plain_dir", false), file("/r/notes.txt")]),
        ("/r/plain_dir", vec![dir("/r/plain_dir/nested_repo", true)]),
        ("/r/repoA", vec![dir("/r/repoA/sub", true)]),
        ("/r/plain_dir/nested_repo", vec![dir("/r/plain_dir/nested_repo/inner", true)]),
    ];
    let repos = run("/r", false, &tree);
    assert_eq!(repos, vec![
        "/r/plain_dir/nested_repo".to_string(),
        "/r/repoA".to_string(),
    ]);
}

#[test]
fn nested_repos_found_only_when_asked() {
    let tree = vec![
        ("/r", vec![dir("/r/outer", true)]),
        ("/r/outer", vec![dir("/r/outer/inner", true)]),
        ("/r/outer/inner", Vec::new()),
    ];
    let with_nested = run("/r", true, &tree);
    assert_eq!(with_nested, vec!["/r/outer".to_string(), "/r/outer/inner".to_string()]);
    let without = run("/r", false, &tree);
    assert_eq!(without, vec!["/r/outer".to_string()]);
}

#[test]
fn missing_root_yields_empty_result() {
    let repos = run("/does/not/exist", false, &[]);
    assert_eq!(repos, Vec::<String>::new());
}

#[test]
fn unreadable_subtree_does_not_abort_siblings() {
    let tree = vec![
        ("/r", vec![dir("/r/a", false), dir("/r/locked", false), dir("/r/c", true)]),
        ("/r/a", vec![dir("/r/a/repo", true)]),
        // "/r/locked" has no listing: reading it fails, and it is skipped
    ];
    let repos = run("/r", false, &tree);
    assert_eq!(repos, vec!["/r/a/repo".to_string(), "/r/c".to_string()]);
}

#[test]
fn non_directory_entries_are_ignored() {
    let tree = vec![("/r", vec![file("/r/a.git"), file("/r/b")])];
    assert_eq!(run("/r", false, &tree), Vec::<String>::new());
}

#[test]
fn scanner_hands_out_directories_depth_first() {
    let mut scanner = Scanner::new("/root".to_string(), false);
    assert_eq!(scanner.next_dir(), Some("/root".to_string()));
    scanner.record_listing(&vec![dir("/root/a", false), dir("/root/b", false)]);
    assert_eq!(scanner.next_dir(), Some("/root/b".to_string()));
    scanner.record_listing(&Vec::new());
    assert_eq!(scanner.next_dir(), Some("/root/a".to_string()));
    scanner.record_listing(&Vec::new());
    assert_eq!(scanner.next_dir(), None);
    assert_eq!(scanner.finish(), Vec::<String>::new());
}
