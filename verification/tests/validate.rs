use projpick::aggregate::Aggregator;
use projpick::config::{default_concurrency, valid_path, Args, ConfigError};
use projpick::scanner::{Entry, Visitor, VisitorBuilder};
use projpick::text::{sort_paths, str_lex_leq, str_matches_query};

fn base_args() -> Args {
    Args {
        root_dir: String::from("/r"),
        search_query: None,
        stopper: String::from(".git"),
        ignores: Vec::new(),
        greedy: false,
        cpus: 2,
        case_sensitive: false,
    }
}

#[test]
fn valid_path_accepts_existing_directory() {
    assert_eq!(valid_path("/r", true, false), Ok(String::from("/r")));
}

#[test]
fn valid_path_rejects_missing_root() {
    assert_eq!(valid_path("/nope", false, false), Err(ConfigError::RootMissing));
}

#[test]
fn valid_path_rejects_file_root() {
    assert_eq!(valid_path("/r/file", true, true), Err(ConfigError::RootIsFile));
}

#[test]
fn validate_rejects_empty_marker() {
    let mut a = base_args();
    a.stopper = String::new();
    assert_eq!(a.validate(), Err(ConfigError::InvalidMarker));
}

#[test]
fn validate_rejects_marker_with_separator() {
    let mut a = base_args();
    a.stopper = String::from("a/b");
    assert_eq!(a.validate(), Err(ConfigError::InvalidMarker));
}

#[test]
fn validate_rejects_bad_ignore_pattern() {
    let mut a = base_args();
    a.ignores = vec![String::from("ok"), String::from("bad/one")];
    assert_eq!(a.validate(), Err(ConfigError::InvalidPattern));
}

#[test]
fn validate_accepts_well_formed_config() {
    let mut a = base_args();
    a.ignores = vec![String::from("node_modules"), String::from("target")];
    assert_eq!(a.validate(), Ok(()));
}

#[test]
fn default_concurrency_is_half_but_at_least_one() {
    assert_eq!(default_concurrency(8), 4);
    assert_eq!(default_concurrency(3), 1);
    assert_eq!(default_concurrency(1), 1);
    assert_eq!(default_concurrency(0), 1);
}

#[test]
fn aggregator_keeps_first_report_only() {
    let mut agg = Aggregator::new();
    assert!(agg.report(String::from("/r/b")));
    assert!(agg.report(String::from("/r/a")));
    assert!(!agg.report(String::from("/r/b")));
    assert_eq!(agg.drain(), vec!["/r/b", "/r/a"]);
}

#[test]
fn visitor_buffers_marker_directories() {
    let builder = VisitorBuilder::new(base_args());
    let mut v = builder.build();
    let listing = vec![
        Entry { name: String::from(".git"), canon: Some(String::from("/r/a/.git")) },
        Entry { name: String::from("sub"), canon: Some(String::from("/r/a/sub")) },
    ];
    let descend = v.visit(&String::from("/r/a"), Some(&listing));
    assert_eq!(v.paths, vec!["/r/a"]);
    // Non-greedy: the marker hit prunes the subtree.
    assert!(descend.is_empty());
}

#[test]
fn visitor_descends_when_no_marker_or_greedy() {
    let mut a = base_args();
    a.ignores = vec![String::from("target")];
    let mut v = Visitor::new(a.clone());
    let listing = vec![
        Entry { name: String::from("src"), canon: Some(String::from("/r/x/src")) },
        Entry { name: String::from("target"), canon: Some(String::from("/r/x/target")) },
        Entry { name: String::from("file"), canon: None },
    ];
    let descend = v.visit(&String::from("/r/x"), Some(&listing));
    assert!(v.paths.is_empty());
    assert_eq!(descend, vec!["/r/x/src"]);

    a.greedy = true;
    let mut g = Visitor::new(a);
    let listing = vec![
        Entry { name: String::from(".git"), canon: Some(String::from("/r/y/.git")) },
        Entry { name: String::from("sub"), canon: Some(String::from("/r/y/sub")) },
    ];
    let descend = g.visit(&String::from("/r/y"), Some(&listing));
    assert_eq!(g.paths, vec!["/r/y"]);
    assert_eq!(descend, vec!["/r/y/.git", "/r/y/sub"]);
}

#[test]
fn visitor_skips_listing_errors() {
    let mut v = Visitor::new(base_args());
    let descend = v.visit(&String::from("/r/locked"), None);
    assert!(v.paths.is_empty());
    assert!(descend.is_empty());
}

#[test]
fn lex_order_and_sorting() {
    assert!(str_lex_leq("", "a"));
    assert!(str_lex_leq("a", "a"));
    assert!(str_lex_leq("a", "ab"));
    assert!(!str_lex_leq("ab", "a"));
    assert!(str_lex_leq("/r/a", "/r/b"));
    assert!(!str_lex_leq("/r/b/c", "/r/b"));
    let sorted = sort_paths(vec![
        String::from("/r/b"),
        String::from("/r/a/x"),
        String::from("/r/a"),
        String::from("/r/a"),
    ]);
    assert_eq!(sorted, vec!["/r/a", "/r/a", "/r/a/x", "/r/b"]);
}

#[test]
fn substring_matching_folds_per_flag() {
    assert!(str_matches_query("/r/Backend", "back", false));
    assert!(!str_matches_query("/r/Backend", "back", true));
    assert!(str_matches_query("/r/Backend", "Back", true));
    assert!(str_matches_query("anything", "", true));
    assert!(!str_matches_query("", "x", true));
}
