use projpick::config::Args;
use projpick::scanner::{Entry, Scanner};
use projpick::text::sort_paths;
use std::collections::HashMap;

fn args(stopper: &str, greedy: bool) -> Args {
    Args {
        root_dir: String::from("/r"),
        search_query: None,
        stopper: String::from(stopper),
        ignores: Vec::new(),
        greedy,
        cpus: 1,
        case_sensitive: false,
    }
}

type Tree = HashMap<String, Vec<(String, Option<String>)>>;

fn add(tree: &mut Tree, dir: &str, entries: &[(&str, Option<&str>)]) {
    tree.insert(
        String::from(dir),
        entries
            .iter()
            .map(|(n, c)| (String::from(*n), c.map(String::from)))
            .collect(),
    );
}

/// Drive one whole scan over an in-memory tree, popping one directory at a
/// time and handing its listing back, exactly as the real driver does with
/// the file system.
fn run_scan(config: &Args, root: &str, tree: &Tree) -> Vec<String> {
    let mut sc = Scanner::new(config, String::from(root)).unwrap();
    assert!(sc.has_pending());
    while let Some(dir) = sc.next_dir() {
        match tree.get(&dir) {
            Some(entries) => {
                let listing: Vec<Entry> = entries
                    .iter()
                    .map(|(n, c)| Entry {
                        name: n.clone(),
                        canon: c.clone(),
                    })
                    .collect();
                sc.step(&dir, Some(&listing));
            }
            None => sc.step(&dir, None),
        }
    }
    assert!(!sc.has_pending());
    sort_paths(sc.finish())
}

/// The tree `/r/a/.git`, `/r/b/c/.git`, `/r/b/.git`.
fn nested_tree() -> Tree {
    let mut t = Tree::new();
    add(
        &mut t,
        "/r",
        &[("a", Some("/r/a")), ("b", Some("/r/b"))],
    );
    add(&mut t, "/r/a", &[(".git", Some("/r/a/.git"))]);
    add(
        &mut t,
        "/r/b",
        &[(".git", Some("/r/b/.git")), ("c", Some("/r/b/c"))],
    );
    add(&mut t, "/r/b/c", &[(".git", Some("/r/b/c/.git"))]);
    add(&mut t, "/r/a/.git", &[]);
    add(&mut t, "/r/b/.git", &[]);
    add(&mut t, "/r/b/c/.git", &[]);
    t
}

#[test]
fn nongreedy_prunes_below_first_match() {
    // Scenario: marker `.git`, greedy = false: `/r/b/c` is pruned because
    // `/r/b` already matched.
    let result = run_scan(&args(".git", false), "/r", &nested_tree());
    assert_eq!(result, vec![String::from("/r/a"), String::from("/r/b")]);
}

#[test]
fn greedy_reports_nested_roots() {
    // Scenario: same tree, greedy = true: nested roots all appear.
    let result = run_scan(&args(".git", true), "/r", &nested_tree());
    assert_eq!(
        result,
        vec![
            String::from("/r/a"),
            String::from("/r/b"),
            String::from("/r/b/c"),
        ]
    );
}

#[test]
fn results_are_descendants_holding_marker() {
    // Every reported path is a directory of the tree below the root whose
    // listing holds the marker.
    let tree = nested_tree();
    for greedy in [false, true] {
        for dir in run_scan(&args(".git", greedy), "/r", &tree) {
            assert!(dir == "/r" || dir.starts_with("/r/"));
            let entries = tree.get(&dir).unwrap();
            assert!(entries.iter().any(|(n, _)| n == ".git"));
        }
    }
}

#[test]
fn scan_is_deterministic_across_listing_orders() {
    // The same tree with every listing reversed yields the same sorted set:
    // discovery order is discarded.
    let tree = nested_tree();
    let mut reversed = Tree::new();
    for (d, es) in &tree {
        let mut es = es.clone();
        es.reverse();
        reversed.insert(d.clone(), es);
    }
    let a = run_scan(&args(".git", true), "/r", &tree);
    let b = run_scan(&args(".git", true), "/r", &reversed);
    assert_eq!(a, b);
    let a = run_scan(&args(".git", false), "/r", &tree);
    let b = run_scan(&args(".git", false), "/r", &reversed);
    assert_eq!(a, b);
}

#[test]
fn shared_target_reported_once() {
    // Two routes reach the same canonical directory (a symlink and the
    // directory itself): it is reported once.
    let mut t = Tree::new();
    add(
        &mut t,
        "/r",
        &[("x", Some("/r/x")), ("link", Some("/r/x"))],
    );
    add(&mut t, "/r/x", &[(".git", Some("/r/x/.git"))]);
    add(&mut t, "/r/x/.git", &[]);
    let result = run_scan(&args(".git", false), "/r", &t);
    assert_eq!(result, vec![String::from("/r/x")]);
}

#[test]
fn symlink_cycle_terminates_without_duplicates() {
    // A child linking back to the root: the canonical-path visited set
    // breaks the cycle.
    let mut t = Tree::new();
    add(&mut t, "/r", &[("down", Some("/r/down"))]);
    add(
        &mut t,
        "/r/down",
        &[("up", Some("/r")), (".git", Some("/r/down/.git"))],
    );
    add(&mut t, "/r/down/.git", &[]);
    let result = run_scan(&args(".git", true), "/r", &t);
    assert_eq!(result, vec![String::from("/r/down")]);
}

#[test]
fn unlistable_directory_skipped_not_fatal() {
    // `/r/locked` has no listing: its subtree is skipped, the rest of the
    // scan completes.
    let mut t = Tree::new();
    add(
        &mut t,
        "/r",
        &[("locked", Some("/r/locked")), ("ok", Some("/r/ok"))],
    );
    add(&mut t, "/r/ok", &[("marker", Some("/r/ok/marker"))]);
    add(&mut t, "/r/ok/marker", &[]);
    let result = run_scan(&args("marker", false), "/r", &t);
    assert_eq!(result, vec![String::from("/r/ok")]);
}

#[test]
fn ignored_names_not_descended_but_marker_never_filtered() {
    // `skipme` is ignored, so the marker below it is never found; an
    // ignore pattern equal to the marker name does not hide the marker.
    let mut t = Tree::new();
    add(
        &mut t,
        "/r",
        &[("skipme", Some("/r/skipme")), ("keep", Some("/r/keep"))],
    );
    add(&mut t, "/r/skipme", &[(".git", Some("/r/skipme/.git"))]);
    add(&mut t, "/r/keep", &[(".git", Some("/r/keep/.git"))]);
    add(&mut t, "/r/skipme/.git", &[]);
    add(&mut t, "/r/keep/.git", &[]);
    let mut config = args(".git", false);
    config.ignores = vec![String::from("skipme"), String::from(".git")];
    let result = run_scan(&config, "/r", &t);
    assert_eq!(result, vec![String::from("/r/keep")]);
}

#[test]
fn empty_result_is_valid() {
    let mut t = Tree::new();
    add(&mut t, "/r", &[("a", Some("/r/a"))]);
    add(&mut t, "/r/a", &[]);
    let result = run_scan(&args(".git", false), "/r", &t);
    assert!(result.is_empty());
}

#[test]
fn root_itself_can_match() {
    let mut t = Tree::new();
    add(&mut t, "/r", &[(".git", Some("/r/.git"))]);
    add(&mut t, "/r/.git", &[]);
    let result = run_scan(&args(".git", false), "/r", &t);
    assert_eq!(result, vec![String::from("/r")]);
}
