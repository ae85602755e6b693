use minigrep::search_case_insensitive;
use minigrep::search_case_sensitive;

#[test]
fn case_sensitive() {
    let query_str = "duct";
    let content = "\
Rust:
safe, fast, productive.
Pick three.
Duct tape.";
    assert_eq!(
        vec!["safe, fast, productive."],
        search_case_sensitive(query_str, content)
    );
}

#[test]
fn case_insensitive() {
    let query_str = "rUsT";
    let content = "\
Rust:
safe, fast, productive.
Pick three.
Trust me.";
    assert_eq!(
        vec!["Rust:", "Trust me."],
        search_case_insensitive(query_str, content)
    );
}

#[test]
fn empty_query_returns_every_line() {
    let content = "one\ntwo\nthree";
    assert_eq!(
        vec!["one", "two", "three"],
        search_case_sensitive("", content)
    );
    assert_eq!(
        vec!["one", "two", "three"],
        search_case_insensitive("", content)
    );
}

#[test]
fn empty_content_returns_nothing() {
    assert!(search_case_sensitive("x", "").is_empty());
    assert!(search_case_insensitive("x", "").is_empty());
}

#[test]
fn crlf_terminators_are_stripped() {
    let content = "one\r\ntwo\r\nthree\r\n";
    assert_eq!(
        vec!["one", "two", "three"],
        search_case_sensitive("", content)
    );
}

#[test]
fn lone_carriage_return_stays_in_line() {
    let content = "a\rb\nc";
    assert_eq!(vec!["a\rb", "c"], search_case_sensitive("", content));
}

#[test]
fn trailing_newline_opens_no_line() {
    assert_eq!(vec!["tail"], search_case_sensitive("", "tail\n"));
}

#[test]
fn matches_keep_content_order() {
    let content = "alpha match\nskip\nbeta match\nskip\ngamma match";
    assert_eq!(
        vec!["alpha match", "beta match", "gamma match"],
        search_case_sensitive("match", content)
    );
}

#[test]
fn query_with_newline_never_matches() {
    let content = "one\ntwo";
    assert!(search_case_sensitive("one\ntwo", content).is_empty());
    assert!(search_case_sensitive("e\nt", content).is_empty());
}

#[test]
fn insensitive_finds_at_least_the_sensitive_matches() {
    let content = "Stone\nstone\nSTONE\npebble";
    let sensitive = search_case_sensitive("stone", content);
    let insensitive = search_case_insensitive("stone", content);
    assert_eq!(vec!["stone"], sensitive);
    assert_eq!(vec!["Stone", "stone", "STONE"], insensitive);
    assert!(insensitive.len() >= sensitive.len());
}

#[test]
fn searching_twice_gives_identical_results() {
    let content = "Rust:\nsafe, fast, productive.\nPick three.";
    assert_eq!(
        search_case_sensitive("t", content),
        search_case_sensitive("t", content)
    );
    assert_eq!(
        search_case_insensitive("T", content),
        search_case_insensitive("T", content)
    );
}

#[test]
fn final_sigma_lowering_depends_on_context() {
    // "ΑΣ" lowers to "ας" while "Σ" alone lowers to "σ", so a line can
    // contain the query exactly and still not match after lowering both.
    let content = "ΑΣ";
    assert_eq!(vec!["ΑΣ"], search_case_sensitive("Σ", content));
    assert!(search_case_insensitive("Σ", content).is_empty());
}

#[test]
fn insensitive_lowers_beyond_ascii() {
    let content = "GROẞE\ngrosse";
    assert_eq!(vec!["GROẞE"], search_case_insensitive("große", content));
}
