use projpick::config::Args;
use projpick::select::{App, Command, EventHandler};

fn config(case_sensitive: bool) -> Args {
    Args {
        root_dir: String::from("/r"),
        search_query: None,
        stopper: String::from(".git"),
        ignores: Vec::new(),
        greedy: false,
        cpus: 1,
        case_sensitive,
    }
}

fn loaded(paths: &[&str], case_sensitive: bool) -> App {
    let mut app = App::new(config(case_sensitive));
    app.load(paths.iter().map(|p| String::from(*p)).collect());
    app
}

fn shown(app: &App) -> Vec<String> {
    app.filtered_dirs.clone()
}

#[test]
fn load_sorts_and_shows_everything() {
    let app = loaded(&["/r/b", "/r/a/x", "/r/a"], false);
    assert_eq!(shown(&app), vec!["/r/a", "/r/a/x", "/r/b"]);
    assert_eq!(app.cursor, Some(0));
    assert_eq!(app.query, "");
}

#[test]
fn empty_query_restores_full_set() {
    let mut app = loaded(&["/r/a", "/r/b"], false);
    app.set_query(String::from("a"));
    assert_eq!(shown(&app), vec!["/r/a"]);
    app.set_query(String::new());
    assert_eq!(shown(&app), vec!["/r/a", "/r/b"]);
}

#[test]
fn no_match_query_empties_view_and_navigation_is_noop() {
    let mut app = loaded(&["/r/a", "/r/b"], false);
    app.set_query(String::from("zzz"));
    assert!(shown(&app).is_empty());
    assert_eq!(app.cursor, None);
    app.next();
    assert_eq!(app.cursor, None);
    app.prev();
    assert_eq!(app.cursor, None);
    app.first();
    app.last();
    assert_eq!(app.cursor, None);
    app.submit();
    assert!(!app.submitted);
}

#[test]
fn filtering_is_substring_not_subsequence() {
    let mut app = loaded(&["/r/abc", "/r/a-b-c"], true);
    app.set_query(String::from("abc"));
    assert_eq!(shown(&app), vec!["/r/abc"]);
}

#[test]
fn filtering_folds_case_when_insensitive() {
    let mut app = loaded(&["/r/Alpha", "/r/beta"], false);
    app.set_query(String::from("ALPHA"));
    assert_eq!(shown(&app), vec!["/r/Alpha"]);
}

#[test]
fn filtering_keeps_case_when_sensitive() {
    let mut app = loaded(&["/r/Alpha", "/r/beta"], true);
    app.set_query(String::from("ALPHA"));
    assert!(shown(&app).is_empty());
}

#[test]
fn cursor_wraps_forward_and_backward() {
    // A 3-element view: from the last row `next` lands on the first; from
    // the first row `prev` lands on the last.
    let mut app = loaded(&["/r/a", "/r/b", "/r/c"], false);
    app.last();
    assert_eq!(app.cursor, Some(2));
    app.next();
    assert_eq!(app.cursor, Some(0));
    app.prev();
    assert_eq!(app.cursor, Some(2));
}

#[test]
fn cursor_clamped_when_view_shrinks() {
    let mut app = loaded(&["/r/a", "/r/ab", "/r/b"], false);
    app.last();
    assert_eq!(app.cursor, Some(2));
    app.set_query(String::from("a"));
    assert_eq!(shown(&app), vec!["/r/a", "/r/ab"]);
    assert_eq!(app.cursor, Some(1));
}

#[test]
fn submit_yields_row_under_cursor() {
    let mut app = loaded(&["/r/a", "/r/b"], false);
    app.next();
    app.submit();
    assert!(app.submitted);
    assert!(app.should_quit);
    assert_eq!(app.get_selected().as_str(), "/r/b");
}

#[test]
fn quit_leaves_without_selecting() {
    let mut app = loaded(&["/r/a"], false);
    app.quit();
    assert!(app.should_quit);
    assert!(!app.submitted);
}

#[test]
fn select_first_match_picks_first_in_set_order() {
    let mut app = loaded(&["/r/b/app", "/r/a/app"], false);
    assert!(app.select_first_match(String::from("app")));
    assert_eq!(app.get_selected().as_str(), "/r/a/app");
}

#[test]
fn select_first_match_reports_no_match() {
    // `selectFirstMatch("zzz")` against `{/r/a, /r/b}` yields the no-match
    // outcome.
    let mut app = loaded(&["/r/a", "/r/b"], false);
    assert!(!app.select_first_match(String::from("zzz")));
    assert_eq!(app.cursor, None);
}

#[test]
fn commands_drive_the_model() {
    let handler = EventHandler::new(250);
    let mut app = loaded(&["/r/a", "/r/b", "/r/c"], false);
    handler.handle(&mut app, Command::Next);
    assert_eq!(app.cursor, Some(1));
    handler.handle(&mut app, Command::Last);
    assert_eq!(app.cursor, Some(2));
    handler.handle(&mut app, Command::First);
    assert_eq!(app.cursor, Some(0));
    handler.handle(&mut app, Command::Prev);
    assert_eq!(app.cursor, Some(2));
    handler.handle(&mut app, Command::Query(String::from("b")));
    assert_eq!(shown(&app), vec!["/r/b"]);
    handler.handle(&mut app, Command::Submit);
    assert!(app.submitted);
    assert_eq!(app.get_selected().as_str(), "/r/b");
    let mut other = loaded(&["/r/a"], false);
    handler.handle(&mut other, Command::Quit);
    assert!(other.should_quit && !other.submitted);
}

#[test]
fn empty_model_is_inert() {
    let mut app = App::new(config(false));
    assert!(shown(&app).is_empty());
    assert_eq!(app.cursor, None);
    app.next();
    app.submit();
    assert!(!app.submitted);
    app.load(Vec::new());
    assert!(shown(&app).is_empty());
    assert_eq!(app.cursor, None);
}
