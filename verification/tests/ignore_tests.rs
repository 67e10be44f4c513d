use rgrep::ignore::{match_pattern, parse_rules, Ignore};

#[test]
fn log_files_are_excluded_at_the_root() {
    let ig = Ignore::from_gitignore(".", Some("*.log"));
    assert!(ig.should_ignore("./app.log"));
    assert!(!ig.should_ignore("./app.txt"));
    assert!(ig.should_ignore("./sub/deep.log"));
}

#[test]
fn negation_in_descendant_overrides_ancestor() {
    // Root excludes build/; the descendant's own file re-includes keep.txt.
    let mut ig = Ignore::from_gitignore(".", Some("build/"));
    ig.load_dir_rules(b"./build", Some("!keep.txt"));
    assert!(!ig.should_ignore("./build/keep.txt"));
    assert!(ig.should_ignore("./build/other.txt"));
    assert!(!ig.should_ignore("./src/main.rs"));
}

#[test]
fn later_rule_in_one_file_wins() {
    let ig = Ignore::from_gitignore(".", Some("*.log\n!special.log"));
    assert!(ig.should_ignore("./app.log"));
    assert!(!ig.should_ignore("./special.log"));
    let ig2 = Ignore::from_gitignore(".", Some("!special.log\n*.log"));
    assert!(ig2.should_ignore("./special.log"));
}

#[test]
fn paths_outside_the_root_are_kept() {
    let ig = Ignore::from_gitignore("base", Some("*"));
    assert!(!ig.should_ignore("elsewhere/file.txt"));
    assert!(ig.should_ignore("base/file.txt"));
}

#[test]
fn loading_is_write_once() {
    let mut ig = Ignore::from_gitignore(".", Some("*.log"));
    // A second load for the same directory changes nothing.
    ig.load_dir_rules(b".", Some("!app.log"));
    assert!(ig.should_ignore("./app.log"));
}

#[test]
fn empty_and_comment_lines_are_skipped() {
    let rules = parse_rules("\n# a comment\n   \n*.log\n!keep/\n");
    assert_eq!(rules.len(), 2);
    assert_eq!(rules[0].rule, b"*.log");
    assert!(!rules[0].is_negation);
    assert!(!rules[0].is_directory);
    assert_eq!(rules[1].rule, b"keep/");
    assert!(rules[1].is_negation);
    assert!(rules[1].is_directory);
}

#[test]
fn rules_are_trimmed() {
    let rules = parse_rules("  target/  \n\t! kept.txt \n");
    assert_eq!(rules[0].rule, b"target/");
    assert!(rules[0].is_directory);
    assert_eq!(rules[1].rule, b"kept.txt");
    assert!(rules[1].is_negation);
}

#[test]
fn match_pattern_exact_and_substring() {
    assert!(match_pattern(b"a/b.txt", b"a/b.txt", false));
    // A rule with a separator matches as a substring of the path.
    assert!(match_pattern(b"a/b.txt", b"x/a/b.txt", false));
    assert!(match_pattern(b"a/b", b"x/a/b/c", false));
    assert!(!match_pattern(b"a/b", b"a/c/b", false));
}

#[test]
fn match_pattern_directory_scope() {
    assert!(match_pattern(b"build/", b"build/out.o", true));
    assert!(match_pattern(b"build/", b"sub/build/out.o", true));
    assert!(!match_pattern(b"build/", b"bui/out.o", true));
}

#[test]
fn match_pattern_wildcards() {
    assert!(match_pattern(b"*", b"file.txt", false));
    assert!(!match_pattern(b"*", b"dir/file.txt", false));
    assert!(match_pattern(b"*.log", b"app.log", false));
    assert!(match_pattern(b"*.log", b"dir/app.log", false));
    // The suffix includes the dot: a bare suffix is no match.
    assert!(!match_pattern(b"*.log", b"catalog", false));
    assert!(match_pattern(b"tmp*", b"tmp123", false));
    assert!(!match_pattern(b"tmp*", b"a/tmp123", false));
    assert!(!match_pattern(b"a*b", b"a123b", false));
}

#[test]
fn match_pattern_bare_name_matches_final_component() {
    assert!(match_pattern(b"notes.txt", b"deep/dir/notes.txt", false));
    assert!(!match_pattern(b"notes.txt", b"notes.txt/other", false));
}

#[test]
fn chain_runs_root_to_leaf() {
    let ig = Ignore::new(".");
    let chain = ig.find_gitignore_chain("./a/b/c.txt");
    let got: Vec<&[u8]> = chain.iter().map(|d| d.as_slice()).collect();
    assert_eq!(got, vec![b".".as_slice(), b"./a".as_slice(), b"./a/b".as_slice()]);
}

#[test]
fn unloaded_directories_contribute_no_rules() {
    let ig = Ignore::new(".");
    assert!(!ig.should_ignore("./anything.txt"));
}
