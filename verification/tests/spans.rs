use projpick::highlight::highlight;

fn parts(path: &str, query: &str, case_sensitive: bool) -> Vec<(String, bool)> {
    highlight(path, query, case_sensitive)
        .into_iter()
        .map(|s| (s.text, s.matched))
        .collect()
}

#[test]
fn highlight_marks_one_contiguous_run() {
    // Scenario: `highlight("projects/backend-api", "back", caseSensitive =
    // true)` yields `["projects/", matched:"back", "end-api"]`.
    assert_eq!(
        parts("projects/backend-api", "back", true),
        vec![
            (String::from("projects/"), false),
            (String::from("back"), true),
            (String::from("end-api"), false),
        ]
    );
}

#[test]
fn highlight_empty_query_is_one_plain_span() {
    assert_eq!(
        parts("projects", "", true),
        vec![(String::from("projects"), false)]
    );
}

#[test]
fn highlight_no_match_is_one_plain_span() {
    assert_eq!(
        parts("alpha", "zzz", true),
        vec![(String::from("alpha"), false)]
    );
}

#[test]
fn highlight_whole_path_match() {
    assert_eq!(parts("back", "back", true), vec![(String::from("back"), true)]);
}

#[test]
fn highlight_match_at_start_and_end() {
    assert_eq!(
        parts("backend", "back", true),
        vec![(String::from("back"), true), (String::from("end"), false)]
    );
    assert_eq!(
        parts("comeback", "back", true),
        vec![(String::from("come"), false), (String::from("back"), true)]
    );
}

#[test]
fn highlight_folds_case_when_insensitive() {
    // With folding the whole candidate matches; the span keeps the
    // candidate's own casing. Were folding the identity, nothing would
    // match.
    assert_eq!(parts("AbC", "abc", false), vec![(String::from("AbC"), true)]);
    assert_eq!(parts("AbC", "abc", true), vec![(String::from("AbC"), false)]);
}

#[test]
fn highlight_single_sweep_not_longest_common_substring() {
    // The sweep restarts right after a mismatch instead of trying every
    // alignment: in "abxab" against "ab", the first window [0, 2) is found;
    // a window of the same length later never replaces it.
    assert_eq!(
        parts("abxab", "ab", true),
        vec![(String::from("ab"), true), (String::from("xab"), false)]
    );
}

#[test]
fn highlight_window_closes_when_query_exhausted() {
    // After the query is used up the window closes and scanning resumes at
    // the next character.
    assert_eq!(
        parts("backback", "back", true),
        vec![(String::from("back"), true), (String::from("back"), false)]
    );
}

#[test]
fn highlight_non_ascii_positions_are_character_positions() {
    // Two-byte characters before the match: the spans cut at character
    // boundaries, so the texts reassemble the path exactly.
    assert_eq!(
        parts("héllo/wörld", "wörld", true),
        vec![
            (String::from("héllo/"), false),
            (String::from("wörld"), true),
        ]
    );
}

#[test]
fn highlight_empty_path() {
    assert_eq!(parts("", "x", true), vec![(String::from(""), false)]);
}
