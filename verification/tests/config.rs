use minigrep::matching_lines;
use minigrep::Config;

fn make_args(items: &[&str]) -> Vec<String> {
    items.iter().map(|s| s.to_string()).collect()
}

#[test]
fn config_from_full_arguments() {
    let args = make_args(&["prog", "needle", "notes.txt"]);
    let config = Config::new(args, false).unwrap();
    assert_eq!("needle", config.query_str);
    assert_eq!("notes.txt", config.filename);
    assert!(config.case_sensitive);
}

#[test]
fn env_switch_turns_case_sensitivity_off() {
    let config = Config::new(make_args(&["prog", "q", "f"]), true).unwrap();
    assert!(!config.case_sensitive);
}

#[test]
fn missing_query_is_reported() {
    let err = Config::new(make_args(&["prog"]), false).unwrap_err();
    assert_eq!("Expected query_str got None", err);
    let err = Config::new(make_args(&[]), false).unwrap_err();
    assert_eq!("Expected query_str got None", err);
}

#[test]
fn missing_filename_is_reported() {
    let err = Config::new(make_args(&["prog", "needle"]), false).unwrap_err();
    assert_eq!("Expected filename got None", err);
}

#[test]
fn extra_arguments_are_ignored() {
    let config = Config::new(make_args(&["prog", "q", "f", "extra"]), false).unwrap();
    assert_eq!("q", config.query_str);
    assert_eq!("f", config.filename);
}

#[test]
fn matching_lines_follows_the_case_flag() {
    let content = "Rust:\nsafe, fast, productive.\nPick three.\nTrust me.";
    let sensitive = Config::new(make_args(&["prog", "rUsT", "f"]), false).unwrap();
    assert!(matching_lines(&sensitive, content).is_empty());
    let insensitive = Config::new(make_args(&["prog", "rUsT", "f"]), true).unwrap();
    assert_eq!(
        vec!["Rust:", "Trust me."],
        matching_lines(&insensitive, content)
    );
}
