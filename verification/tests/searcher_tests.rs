use rgrep::matcher::{Match, RegexMatcher};
use rgrep::printer::Printer;
use rgrep::searcher::{should_use_mmap, Searcher, BUFFER_SIZE, MMAP_THRESHOLD};

fn summary(ms: &[Match]) -> Vec<(usize, usize, usize, String)> {
    ms.iter().map(|m| (m.start, m.end, m.line, m.content.clone())).collect()
}

fn searcher(pattern: &str) -> Searcher<RegexMatcher> {
    Searcher::new(RegexMatcher::new(pattern).unwrap())
}

#[test]
fn scenario_three_lines() {
    let s = searcher("abc");
    let found = s.search_file(b"abc\nxyz123\nabcxyz");
    assert_eq!(
        summary(&found),
        vec![
            (0, 3, 1, String::from("abc")),
            (0, 3, 3, String::from("abcxyz")),
        ]
    );
}

#[test]
fn mapped_and_chunked_agree() {
    let content = b"first needle\nsecond line\nneedle at 0\nno match here\ntail needle";
    for pattern in ["needle", "n[e]edle", "e"] {
        let s = searcher(pattern);
        let whole = s.scan_mapped(content);
        for chunk in [1usize, 2, 3, 7, 64, 4096] {
            let chunked = s.scan_chunked(content, chunk);
            assert_eq!(summary(&whole), summary(&chunked));
        }
        assert_eq!(summary(&whole), summary(&s.search_file(content)));
    }
}

#[test]
fn line_spanning_chunk_boundary() {
    // With a chunk size of 4, the only line straddles every boundary.
    let s = searcher("needle");
    let content = b"xxx needle yyy";
    let whole = s.scan_mapped(content);
    let chunked = s.scan_chunked(content, 4);
    assert_eq!(summary(&whole), summary(&chunked));
    assert_eq!(whole.len(), 1);
    assert_eq!((whole[0].start, whole[0].end, whole[0].line), (4, 10, 1));
}

#[test]
fn agreement_across_the_size_threshold() {
    // Straddle the strategy threshold: one byte under, at, and over it.
    let line = b"some filler text that repeats\n";
    for extra in [0usize, 1, 2] {
        let target = (MMAP_THRESHOLD as usize) - 1 + extra;
        let mut content = Vec::new();
        while content.len() + line.len() < target {
            content.extend_from_slice(line);
        }
        content.extend_from_slice(b"the needle is here");
        let s = searcher("needle");
        let whole = s.scan_mapped(&content);
        let chunked = s.scan_chunked(&content, BUFFER_SIZE);
        let picked = s.search_file(&content);
        assert_eq!(summary(&whole), summary(&chunked));
        assert_eq!(summary(&whole), summary(&picked));
    }
}

#[test]
fn large_file_match_in_final_unterminated_line() {
    // Over the threshold, the pattern only in the last bytes, no trailing
    // separator: the match is still reported, on the correct last line.
    let line = b"just filler text on this line\n";
    let mut content = Vec::new();
    let mut lines = 0usize;
    while content.len() <= (MMAP_THRESHOLD as usize) {
        content.extend_from_slice(line);
        lines += 1;
    }
    content.extend_from_slice(b"needle");
    assert!(should_use_mmap(content.len() as u64));
    let s = searcher("needle");
    let found = s.search_file(&content);
    assert_eq!(found.len(), 1);
    assert_eq!(found[0].line, lines + 1);
    assert_eq!((found[0].start, found[0].end), (0, 6));
    assert_eq!(found[0].content, "needle");
}

#[test]
fn final_line_without_separator_is_scanned() {
    let s = searcher("end");
    let found = s.search_file(b"first\nthe end");
    assert_eq!(summary(&found), vec![(4, 7, 2, String::from("the end"))]);
}

#[test]
fn empty_lines_and_trailing_separator() {
    // "a*" selects the rare-byte filter, which skips a line without the
    // byte entirely — the empty first line yields nothing (the accepted
    // approximation of the windowed search). The second line yields its
    // one occurrence (the engine reports no empty match right after it),
    // and the trailing separator does not create a third line.
    let s = searcher("a*");
    let found = s.search_file(b"\na\n");
    assert_eq!(summary(&found), vec![(0, 1, 2, String::from("a"))]);
}

#[test]
fn undecodable_line_is_dropped_but_still_counted() {
    let s = searcher("ab");
    let content = b"ab\n\xff\xfe\nab";
    let found = s.search_file(content);
    assert_eq!(
        summary(&found),
        vec![(0, 2, 1, String::from("ab")), (0, 2, 3, String::from("ab"))]
    );
}

#[test]
fn incremental_scan_matches_whole_scan() {
    let s = searcher("bb");
    let content = b"aabb\nbbbb\ncc";
    let mut st = s.begin_scan();
    s.push_chunk(&mut st, b"aabb\nbb");
    s.push_chunk(&mut st, b"bb\ncc");
    let found = s.finish_scan(st);
    assert_eq!(summary(&found), summary(&s.scan_mapped(content)));
}

#[test]
fn threshold_selection() {
    assert!(!should_use_mmap(0));
    assert!(!should_use_mmap(MMAP_THRESHOLD));
    assert!(should_use_mmap(MMAP_THRESHOLD + 1));
}

#[test]
fn repeated_search_is_byte_identical() {
    // The whole pipeline twice, down to the formatted output lines.
    let content = b"one needle\ntwo\nthree needle needle";
    let mut outputs = Vec::new();
    for _ in 0..2 {
        let s = searcher("needle");
        let printer = Printer::new();
        let mut rendered = String::new();
        for m in s.search_file(content) {
            rendered.push_str(&printer.format_match("dir/file.txt", &m));
            rendered.push('\n');
        }
        outputs.push(rendered);
    }
    assert_eq!(outputs[0], outputs[1]);
    assert_eq!(
        outputs[0],
        "dir/file.txt:1:one needle\ndir/file.txt:3:three needle needle\ndir/file.txt:3:three needle needle\n"
    );
}
