use rgrep::ignore::Ignore;
use rgrep::matcher::Match;
use rgrep::printer::{to_decimal, Printer};
use rgrep::walk::{is_vcs_path, select_candidate, use_parallel};

#[test]
fn vcs_paths_are_recognized() {
    assert!(is_vcs_path(".git/config"));
    assert!(is_vcs_path("repo/.git/objects/ab"));
    assert!(is_vcs_path("repo/.git\\objects"));
    assert!(!is_vcs_path("digits/file"));
    assert!(!is_vcs_path("repo/.gitignore"));
}

#[test]
fn worker_count_selects_strategy() {
    assert!(use_parallel(0));
    assert!(!use_parallel(1));
    assert!(use_parallel(2));
    assert!(use_parallel(16));
}

#[test]
fn candidate_selection() {
    let ig = Ignore::from_gitignore(".", Some("*.log"));
    assert!(select_candidate(&ig, "./src/main.rs", true));
    assert!(!select_candidate(&ig, "./src", false));
    assert!(!select_candidate(&ig, "./.git/config", true));
    assert!(!select_candidate(&ig, "./app.log", true));
}

#[test]
fn decimal_rendering() {
    assert_eq!(to_decimal(0), "0");
    assert_eq!(to_decimal(7), "7");
    assert_eq!(to_decimal(10), "10");
    assert_eq!(to_decimal(123456), "123456");
    assert_eq!(to_decimal(usize::MAX).parse::<usize>().unwrap(), usize::MAX);
}

#[test]
fn match_line_format() {
    let p = Printer::new();
    let m = Match::new(2, 5, 42, String::from("hello world"));
    assert_eq!(p.format_match("src/main.rs", &m), "src/main.rs:42:hello world");
    let empty = Match::new(0, 0, 1, String::new());
    assert_eq!(p.format_match("f", &empty), "f:1:");
}
