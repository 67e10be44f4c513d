use rgrep::errors::SearchError;
use rgrep::matcher::{Match, Matcher, RegexMatcher};

fn offsets(ms: &[Match]) -> Vec<(usize, usize)> {
    ms.iter().map(|m| (m.start, m.end)).collect()
}

#[test]
fn invalid_pattern_fails_with_pattern_text() {
    let r = RegexMatcher::new("[");
    match r {
        Err(SearchError::InvalidPattern(p)) => assert_eq!(p, "["),
        _ => panic!("an unbalanced bracket must fail compilation"),
    }
}

#[test]
fn valid_pattern_compiles() {
    assert!(RegexMatcher::new("abc").is_ok());
    assert!(RegexMatcher::new("[ab]c").is_ok());
    assert!(RegexMatcher::new("").is_ok());
}

#[test]
fn literal_path_finds_matches() {
    let m = RegexMatcher::new("abc").unwrap();
    assert_eq!(offsets(&m.find_matches("zzabczz")), vec![(2, 5)]);
    assert_eq!(offsets(&m.find_matches("abcabc")), vec![(0, 3), (3, 6)]);
    assert_eq!(offsets(&m.find_matches("zzz")), vec![]);
}

#[test]
fn literal_prefix_path_finds_matches() {
    // "abc" is the fixed prefix (length 3); the pattern is not pure literal.
    let m = RegexMatcher::new("abc[0-9]").unwrap();
    assert_eq!(offsets(&m.find_matches("xxabc7yy")), vec![(2, 6)]);
    assert_eq!(offsets(&m.find_matches("xxabcyy")), vec![]);
}

#[test]
fn rare_byte_path_finds_matches() {
    // No literal (prefix shorter than 3), so the rare-byte filter applies.
    let m = RegexMatcher::new("[ab]c").unwrap();
    assert_eq!(offsets(&m.find_matches("zzacz")), vec![(2, 4)]);
    assert_eq!(offsets(&m.find_matches("bcac")), vec![(0, 2), (2, 4)]);
    assert_eq!(offsets(&m.find_matches("zzzz")), vec![]);
}

#[test]
fn full_engine_path_finds_matches() {
    // Every literal byte is frequent and no prefix exists: no hints at all.
    let m = RegexMatcher::new("(aaaaaa|aaaaaaa)").unwrap();
    assert_eq!(offsets(&m.find_matches("xaaaaaax")), vec![(1, 7)]);
    assert_eq!(offsets(&m.find_matches("xxx")), vec![]);
}

#[test]
fn acceleration_paths_agree_on_common_inputs() {
    // The same haystacks through the three tiers: each reports exactly the
    // occurrences of its pattern, and is_match mirrors find_matches.
    let tiers = [
        RegexMatcher::new("na").unwrap(),           // pure literal
        RegexMatcher::new("nan[ab]").unwrap(),      // prefix literal
        RegexMatcher::new("[n]a").unwrap(),         // rare byte
    ];
    let hay = "banana nana";
    let expect_na = vec![(2, 4), (4, 6), (7, 9), (9, 11)];
    assert_eq!(offsets(&tiers[0].find_matches(hay)), expect_na);
    assert_eq!(offsets(&tiers[2].find_matches(hay)), expect_na);
    assert_eq!(offsets(&tiers[1].find_matches(hay)), vec![(2, 6), (7, 11)]);
    for t in &tiers {
        for h in ["", "banana nana", "xyz", "na"] {
            assert_eq!(t.is_match(h), !t.find_matches(h).is_empty());
        }
    }
}

#[test]
fn anchors_are_metacharacters_not_literal() {
    // "^" ends the (empty) prefix, so no literal hint survives and the
    // anchored pattern still matches at the line start.
    let start = RegexMatcher::new("^abc").unwrap();
    assert_eq!(offsets(&start.find_matches("abczz")), vec![(0, 3)]);
    assert_eq!(offsets(&start.find_matches("zzabc")), vec![]);
    // "$" ends the prefix after "abc": the literal hint is "abc", not
    // "abc$", so a match at the line end is found.
    let end = RegexMatcher::new("abc$").unwrap();
    assert_eq!(offsets(&end.find_matches("zzabc")), vec![(2, 5)]);
    assert_eq!(offsets(&end.find_matches("abczz")), vec![]);
}

#[test]
fn boundary_matches_at_line_edges() {
    let m = RegexMatcher::new("a").unwrap();
    let found = m.find_matches("abca");
    assert_eq!(offsets(&found), vec![(0, 1), (3, 4)]);
    assert_eq!(found[0].start, 0);
    assert_eq!(found[1].end, 4);
}

#[test]
fn matcher_leaves_line_and_content_for_scanner() {
    let m = RegexMatcher::new("abc").unwrap();
    let found = m.find_matches("xabc");
    assert_eq!(found.len(), 1);
    assert_eq!(found[0].line, 0);
    assert_eq!(found[0].content, "");
}

#[test]
fn match_new_sets_fields() {
    let m = Match::new(1, 4, 7, String::from("hello"));
    assert_eq!(m.start, 1);
    assert_eq!(m.end, 4);
    assert_eq!(m.line, 7);
    assert_eq!(m.content, "hello");
}

#[test]
fn error_detail_carries_text() {
    assert_eq!(SearchError::InvalidPattern(String::from("[")).detail(), "[");
    assert_eq!(SearchError::PathNotFound(String::from("x")).detail(), "x");
    assert_eq!(SearchError::FileReadError(String::from("y")).detail(), "y");
    assert_eq!(SearchError::DirectoryWalkError(String::from("z")).detail(), "z");
}
