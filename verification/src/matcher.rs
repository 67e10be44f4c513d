//! Pattern compilation and per-line match finding.
//!
//! A compiled pattern carries two independent acceleration hints derived
//! from the pattern text: an optional required literal substring, and an
//! optional rare byte. Match finding is tiered: a line that cannot contain
//! the literal (or the rare byte) is rejected without running the full
//! pattern engine.

use vstd::prelude::*;
use vstd::slice::slice_subrange;
use vstd::string::StringSliceAdditionalSpecFns;
use vstd::string::StrSliceExecFns;
use vstd::utf8::valid_utf8;
use vstd::utf8::encode_utf8_valid_utf8;
use crate::errors::SearchError;

verus! {

// ---------------------------------------------------------------------------
// Match records
// ---------------------------------------------------------------------------

/// The mathematical content of a `Match`.
pub ghost struct MatchRec {
    /// Byte offset where the occurrence starts, local to the line.
    pub start: int,
    /// Byte offset one past the end of the occurrence.
    pub end: int,
    /// 1-based line number within the scanned file (0 before a scanner set it).
    pub line: int,
    /// The full text of the containing line (empty before a scanner set it).
    pub content: Seq<char>,
}

/// One found occurrence of the pattern: byte offsets local to the line,
/// the 1-based line number, and the full text of the containing line.
///
/// The matcher produces matches with `line == 0` and empty `content`; the
/// scanner fills both fields in, since only it knows the line.
pub struct Match {
    pub start: usize,
    pub end: usize,
    pub line: usize,
    pub content: String,
}

impl View for Match {
    type V = MatchRec;

    open spec fn view(&self) -> MatchRec {
        MatchRec {
            start: self.start as int,
            end: self.end as int,
            line: self.line as int,
            content: self.content@,
        }
    }
}

impl Match {
    pub fn new(start: usize, end: usize, line: usize, content: String) -> (r: Self)
        ensures
            r.start == start,
            r.end == end,
            r.line == line,
            r.content@ == content@,
    {
        Match { start, end, line, content }
    }
}

/// The views of a sequence of matches.
pub open spec fn match_recs(ms: Seq<Match>) -> Seq<MatchRec> {
    ms.map_values(|m: Match| m@)
}

// ---------------------------------------------------------------------------
// Pattern analysis: literal extraction and rare-byte selection
// ---------------------------------------------------------------------------

/// The pattern metacharacters, as bytes. In UTF-8 these ASCII bytes occur
/// only as the corresponding ASCII characters, so testing the pattern's
/// bytes is the same as testing its characters.
pub open spec fn special_byte(b: u8) -> bool {
    b == 94 || b == 36 || b == 46 || b == 42 || b == 43 || b == 63 || b == 123 || b == 125
        || b == 91 || b == 93 || b == 40 || b == 41 || b == 124 || b == 92
}

/// The pattern metacharacters, as characters.
pub open spec fn special_char(c: char) -> bool {
    c == '^' || c == '$' || c == '.' || c == '*' || c == '+' || c == '?' || c == '{' || c == '}'
        || c == '[' || c == ']' || c == '(' || c == ')' || c == '|' || c == '\\'
}

/// Whether `c` is a regex metacharacter.
pub fn is_special_char(c: char) -> (r: bool)
    ensures
        r == special_char(c),
{
    c == '^' || c == '$' || c == '.' || c == '*' || c == '+' || c == '?' || c == '{' || c == '}'
        || c == '[' || c == ']' || c == '(' || c == ')' || c == '|' || c == '\\'
}

/// Whether `b` is the byte of a regex metacharacter.
pub fn is_special_byte(b: u8) -> (r: bool)
    ensures
        r == special_byte(b),
{
    b == 94 || b == 36 || b == 46 || b == 42 || b == 43 || b == 63 || b == 123 || b == 125
        || b == 91 || b == 93 || b == 40 || b == 41 || b == 124 || b == 92
}

/// A pattern is a pure literal when none of its bytes is a metacharacter.
pub open spec fn pure_literal(p: Seq<u8>) -> bool {
    forall|i: int| 0 <= i < p.len() ==> !special_byte(#[trigger] p[i])
}

/// Whether the pattern contains no metacharacter at all.
pub fn is_pure_literal(pattern: &[u8]) -> (r: bool)
    ensures
        r == pure_literal(pattern@),
{
    let mut i: usize = 0;
    while i < pattern.len()
        invariant
            0 <= i <= pattern@.len(),
            forall|j: int| 0 <= j < i ==> !special_byte(#[trigger] pattern@[j]),
        decreases pattern@.len() - i,
    {
        if is_special_byte(pattern[i]) {
            return false;
        }
        i = i + 1;
    }
    true
}

/// The longest fixed prefix of the pattern before the first metacharacter:
/// an escape pair contributes the escaped byte, and any other
/// metacharacter — anchors included — ends the prefix.
pub open spec fn prefix_spec(p: Seq<u8>) -> Seq<u8>
    decreases p.len(),
{
    if p.len() == 0 {
        Seq::empty()
    } else if p[0] == 92 {
        if p.len() == 1 {
            Seq::empty()
        } else {
            seq![p[1]] + prefix_spec(p.skip(2))
        }
    } else if special_byte(p[0]) {
        Seq::empty()
    } else {
        seq![p[0]] + prefix_spec(p.skip(1))
    }
}

/// Extracts the fixed prefix of the pattern preceding its first
/// metacharacter; an escape pair yields the escaped byte.
pub fn extract_prefix(pattern: &[u8]) -> (r: Vec<u8>)
    ensures
        r@ == prefix_spec(pattern@),
{
    let mut out: Vec<u8> = Vec::new();
    let mut i: usize = 0;
    assert(pattern@.skip(0) =~= pattern@);
    assert(out@ + prefix_spec(pattern@) =~= prefix_spec(pattern@));
    while i < pattern.len()
        invariant
            0 <= i <= pattern@.len(),
            prefix_spec(pattern@) == out@ + prefix_spec(pattern@.skip(i as int)),
        decreases pattern@.len() - i,
    {
        let ghost rest = pattern@.skip(i as int);
        let b = pattern[i];
        assert(rest[0] == b);
        if b == 92 {
            if i + 1 < pattern.len() {
                let nb = pattern[i + 1];
                assert(rest.len() > 1 && rest[1] == nb);
                assert(prefix_spec(rest) == seq![nb] + prefix_spec(rest.skip(2)));
                assert(rest.skip(2) =~= pattern@.skip(i + 2));
                out.push(nb);
                i = i + 2;
            } else {
                assert(rest.len() == 1);
                assert(prefix_spec(rest) == Seq::<u8>::empty());
                assert(prefix_spec(pattern@) =~= out@);
                return out;
            }
        } else if is_special_byte(b) {
            assert(prefix_spec(rest) == Seq::<u8>::empty());
            assert(prefix_spec(pattern@) =~= out@);
            return out;
        } else {
            assert(prefix_spec(rest) == seq![b] + prefix_spec(rest.skip(1)));
            assert(rest.skip(1) =~= pattern@.skip(i + 1));
            out.push(b);
            i = i + 1;
        }
        assert(prefix_spec(pattern@) =~= out@ + prefix_spec(pattern@.skip(i as int)));
    }
    assert(pattern@.skip(i as int) =~= Seq::<u8>::empty());
    assert(prefix_spec(pattern@) =~= out@);
    out
}

/// The literal hint of a pattern: the whole pattern when it is a pure
/// literal, else its fixed prefix when that prefix has at least 3 bytes,
/// else nothing.
pub open spec fn literal_spec(p: Seq<u8>) -> Option<Seq<u8>> {
    if pure_literal(p) {
        Some(p)
    } else if prefix_spec(p).len() >= 3 {
        Some(prefix_spec(p))
    } else {
        None
    }
}

/// Derives the literal hint of the pattern.
pub fn extract_literals(pattern: &[u8]) -> (r: Option<Vec<u8>>)
    ensures
        match r {
            Some(v) => literal_spec(pattern@) == Some(v@),
            None => literal_spec(pattern@) is None,
        },
{
    if is_pure_literal(pattern) {
        let mut v: Vec<u8> = Vec::new();
        let mut i: usize = 0;
        while i < pattern.len()
            invariant
                0 <= i <= pattern@.len(),
                v@ == pattern@.subrange(0, i as int),
            decreases pattern@.len() - i,
        {
            v.push(pattern[i]);
            i = i + 1;
        }
        assert(v@ =~= pattern@);
        return Some(v);
    }
    let prefix = extract_prefix(pattern);
    if prefix.len() >= 3 {
        Some(prefix)
    } else {
        None
    }
}

/// How many bytes of `p` equal `b` and are not metacharacters (the
/// frequency of `b` among the pattern's literal bytes).
pub open spec fn count_lit(p: Seq<u8>, b: u8) -> int
    decreases p.len(),
{
    if p.len() == 0 {
        0
    } else {
        count_lit(p.drop_last(), b) + if p.last() == b && !special_byte(b) {
            1int
        } else {
            0int
        }
    }
}

/// What a correct rare-byte choice for pattern `p` looks like: the smallest
/// byte value of minimal nonzero frequency among the pattern's literal
/// bytes, accepted only when that frequency is at most 5; `None` when the
/// pattern has no literal byte or even the rarest is frequent.
pub open spec fn rare_choice_ok(p: Seq<u8>, r: Option<u8>) -> bool {
    match r {
        Some(b) => {
            &&& count_lit(p, b) >= 1
            &&& count_lit(p, b) <= 5
            &&& forall|b2: u8| count_lit(p, b2) >= 1 ==> count_lit(p, b) <= count_lit(p, b2)
            &&& forall|b2: u8|
                b2 < b && count_lit(p, b2) >= 1 ==> count_lit(p, b2) > count_lit(p, b)
        },
        None => (forall|b2: u8| count_lit(p, b2) == 0) || (forall|b2: u8|
            count_lit(p, b2) >= 1 ==> count_lit(p, b2) > 5),
    }
}

/// Selects the rarest literal byte of the pattern: the smallest byte value
/// whose frequency among the pattern's non-metacharacter bytes is minimal,
/// accepted only if that frequency is at most 5.
pub fn select_rare_byte(pattern: &[u8]) -> (r: Option<u8>)
    ensures
        rare_choice_ok(pattern@, r),
{
    // Frequency table, one slot per byte value.
    let mut counts: Vec<usize> = Vec::new();
    let mut k: usize = 0;
    while k < 256
        invariant
            counts@.len() == k,
            0 <= k <= 256,
            forall|j: int| 0 <= j < k ==> counts@[j] == 0,
        decreases 256 - k,
    {
        counts.push(0);
        k = k + 1;
    }
    let mut i: usize = 0;
    while i < pattern.len()
        invariant
            0 <= i <= pattern@.len(),
            counts@.len() == 256,
            forall|b2: u8| counts@[b2 as int] == count_lit(pattern@.take(i as int), b2),
            forall|b2: u8| counts@[b2 as int] <= i,
        decreases pattern@.len() - i,
    {
        let b = pattern[i];
        let ghost pre = pattern@.take(i as int);
        let ghost post = pattern@.take(i + 1int);
        assert(post.drop_last() =~= pre);
        assert(post.last() == pattern@[i as int]);
        if !is_special_byte(b) {
            let c = counts[b as usize];
            counts.set(b as usize, c + 1);
        }
        assert forall|b2: u8| counts@[b2 as int] == count_lit(post, b2) by {
            assert(count_lit(post, b2) == count_lit(pre, b2) + if post.last() == b2
                && !special_byte(b2) {
                1int
            } else {
                0int
            });
        }
        i = i + 1;
    }
    assert(pattern@.take(pattern@.len() as int) =~= pattern@);
    // Pick the smallest byte value with the minimal nonzero frequency.
    let mut best: Option<u8> = None;
    let ghost full = pattern@;
    let mut k2: usize = 0;
    while k2 < 256
        invariant
            counts@.len() == 256,
            0 <= k2 <= 256,
            forall|b2: u8| counts@[b2 as int] == count_lit(full, b2),
            match best {
                Some(b) => {
                    &&& b < k2
                    &&& count_lit(full, b) >= 1
                    &&& forall|b2: u8|
                        b2 < k2 && count_lit(full, b2) >= 1 ==> count_lit(full, b) <= count_lit(
                            full,
                            b2,
                        )
                    &&& forall|b2: u8|
                        b2 < b && count_lit(full, b2) >= 1 ==> count_lit(full, b2) > count_lit(
                            full,
                            b,
                        )
                },
                None => forall|b2: u8| b2 < k2 ==> count_lit(full, b2) == 0,
            },
        decreases 256 - k2,
    {
        let c = counts[k2];
        if c > 0 {
            match best {
                None => {
                    best = Some(k2 as u8);
                },
                Some(b) => {
                    if c < counts[b as usize] {
                        best = Some(k2 as u8);
                    }
                },
            }
        }
        k2 = k2 + 1;
    }
    match best {
        None => None,
        Some(b) => {
            if counts[b as usize] <= 5 {
                Some(b)
            } else {
                assert forall|b2: u8| count_lit(full, b2) >= 1 implies count_lit(full, b2)
                    > 5 by {
                    assert(count_lit(full, b) <= count_lit(full, b2));
                }
                None
            }
        },
    }
}

// ---------------------------------------------------------------------------
// Trusted view of the regular-expression engine and the byte searchers
// ---------------------------------------------------------------------------

#[verifier::external_type_specification]
#[verifier::external_body]
pub struct ExRegex(regex::Regex);

#[verifier::external_type_specification]
#[verifier::external_body]
pub struct ExRegexError(regex::Error);

/// Whether the regex engine accepts this pattern text (UTF-8 bytes).
/// Compilation is a function of the pattern alone.
pub uninterp spec fn regex_valid(pattern: Seq<u8>) -> bool;

/// The pattern text a compiled `regex::Regex` was built from, as UTF-8
/// bytes: what `regex::Regex::as_str` returns.
pub uninterp spec fn regex_pattern_of(re: regex::Regex) -> Seq<u8>;

/// That a `regex::Regex` value came from `regex::Regex::new`: the default
/// configuration, under which the value's behaviour is a function of its
/// pattern text alone. A builder-configured regex (say, case-insensitive)
/// can carry the same pattern text but match differently, so the search
/// wrappers insist on this provenance.
pub uninterp spec fn regex_default_built(re: regex::Regex) -> bool;

/// The complete ordered sequence of matches that `regex::Regex::find_iter`
/// reports for this pattern over this haystack, on a default-configured
/// (`Regex::new`-built) regex: successive non-overlapping `(start, end)`
/// byte offsets, leftmost first. A function of the pattern and the
/// haystack alone.
pub uninterp spec fn regex_find_spec(pattern: Seq<u8>, haystack: Seq<u8>) -> Seq<(int, int)>;

/// Relies on regex::Regex::new: it returns `Ok` exactly when the pattern is
/// a valid regex (and within the default size limit), and the compiled value
/// remembers its pattern text (`Regex::as_str` returns it).
#[verifier::external_body]
fn regex_new(pattern: &str) -> (r: Result<regex::Regex, regex::Error>)
    ensures
        r is Ok <==> regex_valid(pattern.spec_bytes()),
        r matches Ok(re) ==> regex_pattern_of(re) == pattern.spec_bytes() && regex_default_built(
            re,
        ),
{
    regex::Regex::new(pattern)
}

/// The matches the full engine reports on a byte region: those of the
/// decoded text when the region is valid UTF-8, none otherwise (a region
/// that is not text is dropped rather than searched).
pub open spec fn checked_find(pattern: Seq<u8>, bytes: Seq<u8>) -> Seq<(int, int)> {
    if valid_utf8(bytes) {
        regex_find_spec(pattern, bytes)
    } else {
        Seq::empty()
    }
}

/// Relies on regex::Regex::find_iter: it yields every match of the regex in
/// the haystack, as byte offsets with `start <= end <= haystack.len()`,
/// successive matches non-overlapping and starting strictly later (the
/// iterator advances past each reported match, including empty ones).
/// `str::from_utf8` tells a valid region from an invalid one; an invalid
/// region yields no matches.
#[verifier::external_body]
fn regex_find_all(re: &regex::Regex, line: &[u8]) -> (r: Vec<(usize, usize)>)
    requires
        regex_default_built(*re),
    ensures
        pairs_int(r@) == checked_find(regex_pattern_of(*re), line@),
        forall|i: int| 0 <= i < r@.len() ==> (#[trigger] r@[i]).0 <= r@[i].1 <= line@.len(),
        forall|i: int|
            0 <= i < r@.len() - 1 ==> (#[trigger] r@[i]).1 <= r@[i + 1].0 && r@[i].0 < r@[
                i + 1
            ].0,
{
    match core::str::from_utf8(line) {
        Ok(s) => re.find_iter(s).map(|m| (m.start(), m.end())).collect(),
        Err(_) => Vec::new(),
    }
}

/// Relies on regex::Regex::is_match: true if and only if the regex matches
/// somewhere in the haystack, that is, exactly when find_iter would yield at
/// least one match. `str::from_utf8` only recovers the validated text.
#[verifier::external_body]
fn regex_is_match(re: &regex::Regex, line: &[u8]) -> (r: bool)
    requires
        regex_default_built(*re),
        valid_utf8(line@),
    ensures
        r == (regex_find_spec(regex_pattern_of(*re), line@).len() > 0),
{
    re.is_match(core::str::from_utf8(line).unwrap())
}

/// `needle` occurs in `hay` starting at byte `i`.
pub open spec fn occurs_at(hay: Seq<u8>, needle: Seq<u8>, i: int) -> bool {
    0 <= i && i + needle.len() <= hay.len() && hay.subrange(i, i + needle.len()) == needle
}

/// `needle` occurs somewhere in `hay`.
pub open spec fn contains_seq(hay: Seq<u8>, needle: Seq<u8>) -> bool {
    exists|i: int| occurs_at(hay, needle, i)
}

// Relies on memchr::memchr: the index of the first occurrence of the byte in
// the slice, or None when the byte does not occur; a returned index is less
// than the slice's length.
pub assume_specification [ memchr::memchr ](needle: u8, haystack: &[u8]) -> (r: Option<usize>)
    ensures
        match r {
            Some(i) => i < haystack@.len() && haystack@[i as int] == needle && forall|j: int|
                0 <= j < i ==> haystack@[j] != needle,
            None => forall|j: int| 0 <= j < haystack@.len() ==> haystack@[j] != needle,
        },
;

// Relies on memchr::memmem::find: the index of the first occurrence of the
// needle as a substring of the haystack, or None when there is none (an
// empty needle occurs at index 0).
pub assume_specification [ memchr::memmem::find ](haystack: &[u8], needle: &[u8]) -> (r: Option<
    usize,
>)
    ensures
        match r {
            Some(i) => occurs_at(haystack@, needle@, i as int) && forall|j: int|
                0 <= j < i ==> !occurs_at(haystack@, needle@, j),
            None => !contains_seq(haystack@, needle@),
        },
;

// ---------------------------------------------------------------------------
// Offset pairs
// ---------------------------------------------------------------------------

/// An executable offset pair, as mathematical integers.
pub open spec fn pair_int(p: (usize, usize)) -> (int, int) {
    (p.0 as int, p.1 as int)
}

/// A sequence of executable offset pairs, as mathematical integers.
pub open spec fn pairs_int(s: Seq<(usize, usize)>) -> Seq<(int, int)> {
    s.map_values(|p: (usize, usize)| pair_int(p))
}

/// The offset pairs of a sequence of matches.
pub open spec fn match_offsets(ms: Seq<Match>) -> Seq<(int, int)> {
    ms.map_values(|m: Match| (m.start as int, m.end as int))
}

/// Strict order on offset pairs: by start, then by end.
pub open spec fn pair_lt(a: (int, int), b: (int, int)) -> bool {
    a.0 < b.0 || (a.0 == b.0 && a.1 < b.1)
}

fn pair_lt_exec(a: (usize, usize), b: (usize, usize)) -> (r: bool)
    ensures
        r == pair_lt(pair_int(a), pair_int(b)),
{
    a.0 < b.0 || (a.0 == b.0 && a.1 < b.1)
}

// ---------------------------------------------------------------------------
// The rare-byte window search
// ---------------------------------------------------------------------------

/// The fixed half-width of the verification window around a rare byte.
pub open spec fn window_size() -> int {
    200
}

/// Start of the window around position `i`.
pub open spec fn window_lo(i: int) -> int {
    if i >= window_size() {
        i - window_size()
    } else {
        0
    }
}

/// End of the window around position `i` in a line of length `len`.
pub open spec fn window_hi(i: int, len: int) -> int {
    if i + window_size() <= len {
        i + window_size()
    } else {
        len
    }
}

/// Offset pairs shifted by `off`.
pub open spec fn shift_pairs(ms: Seq<(int, int)>, off: int) -> Seq<(int, int)> {
    ms.map_values(|m: (int, int)| (m.0 + off, m.1 + off))
}

/// All matches the full engine reports inside the window around each
/// occurrence of the rare byte at a position `>= from`, translated back to
/// line-local offsets, window by window in position order.
pub open spec fn windows_matches(p: Seq<u8>, b: u8, line: Seq<u8>, from: int) -> Seq<(int, int)>
    decreases line.len() - from,
    when 0 <= from <= line.len()
{
    if from >= line.len() {
        Seq::empty()
    } else if line[from] == b {
        shift_pairs(
            checked_find(p, line.subrange(window_lo(from), window_hi(from, line.len() as int))),
            window_lo(from),
        ) + windows_matches(p, b, line, from + 1)
    } else {
        windows_matches(p, b, line, from + 1)
    }
}

/// Inserting an offset pair into a sequence that is sorted by `(start, end)`
/// and free of duplicates, keeping it so.
pub open spec fn insert_pair(s: Seq<(int, int)>, m: (int, int)) -> Seq<(int, int)>
    decreases s.len(),
{
    if s.len() == 0 {
        seq![m]
    } else if pair_lt(s[0], m) {
        seq![s[0]] + insert_pair(s.skip(1), m)
    } else if s[0] == m {
        s
    } else {
        seq![m] + s
    }
}

/// Inserting every pair of `ms`, in order, into `s`.
pub open spec fn insert_all(s: Seq<(int, int)>, ms: Seq<(int, int)>) -> Seq<(int, int)>
    decreases ms.len(),
{
    if ms.len() == 0 {
        s
    } else {
        insert_all(insert_pair(s, ms[0]), ms.skip(1))
    }
}

/// The result of the rare-byte path: the window matches, ordered by
/// `(start, end)` with exact duplicates dropped (two nearby occurrences of
/// the rare byte can surface the same window-validated match).
pub open spec fn rare_find(p: Seq<u8>, b: u8, line: Seq<u8>) -> Seq<(int, int)> {
    insert_all(Seq::empty(), windows_matches(p, b, line, 0))
}

proof fn lemma_windows_skip(p: Seq<u8>, b: u8, line: Seq<u8>, from: int, to: int)
    requires
        0 <= from <= to <= line.len(),
        forall|k: int| from <= k < to ==> line[k] != b,
    ensures
        windows_matches(p, b, line, from) == windows_matches(p, b, line, to),
    decreases to - from,
{
    if from < to {
        assert(line[from] != b);
        lemma_windows_skip(p, b, line, from + 1, to);
    }
}

proof fn lemma_insert_all_concat(s: Seq<(int, int)>, a: Seq<(int, int)>, b: Seq<(int, int)>)
    ensures
        insert_all(s, a + b) == insert_all(insert_all(s, a), b),
    decreases a.len(),
{
    if a.len() == 0 {
        assert(a + b =~= b);
        assert(insert_all(s, a) == s);
    } else {
        assert((a + b)[0] == a[0]);
        assert((a + b).skip(1) =~= a.skip(1) + b);
        assert((a + b).len() != 0);
        lemma_insert_all_concat(insert_pair(s, a[0]), a.skip(1), b);
    }
}

proof fn lemma_insert_pair_at(s: Seq<(int, int)>, m: (int, int), idx: int)
    requires
        0 <= idx <= s.len(),
        forall|k: int| 0 <= k < idx ==> pair_lt(#[trigger] s[k], m),
        idx < s.len() ==> !pair_lt(s[idx], m),
    ensures
        idx < s.len() && s[idx] == m ==> insert_pair(s, m) == s,
        !(idx < s.len() && s[idx] == m) ==> insert_pair(s, m) =~= s.take(idx) + seq![m] + s.skip(
            idx,
        ),
    decreases idx,
{
    if idx == 0 {
        if s.len() == 0 {
            assert(insert_pair(s, m) =~= s.take(0) + seq![m] + s.skip(0));
        } else {
            if s[0] == m {
            } else {
                assert(!pair_lt(s[0], m));
                assert(insert_pair(s, m) =~= s.take(0) + seq![m] + s.skip(0));
            }
        }
    } else {
        assert(pair_lt(s[0], m));
        let t = s.skip(1);
        assert(forall|k: int| 0 <= k < idx - 1 ==> #[trigger] t[k] == s[k + 1]);
        lemma_insert_pair_at(t, m, idx - 1);
        if idx < s.len() && s[idx] == m {
            assert(t[idx - 1] == m);
            assert(insert_pair(t, m) == t);
            assert(insert_pair(s, m) =~= seq![s[0]] + t);
            assert(seq![s[0]] + t =~= s);
        } else {
            assert(insert_pair(t, m) =~= t.take(idx - 1) + seq![m] + t.skip(idx - 1));
            assert(insert_pair(s, m) =~= seq![s[0]] + (t.take(idx - 1) + seq![m] + t.skip(idx - 1)));
            assert(seq![s[0]] + (t.take(idx - 1) + seq![m] + t.skip(idx - 1)) =~= s.take(idx)
                + seq![m] + s.skip(idx));
        }
    }
}

/// Inserts `m` into `acc`, which the caller keeps sorted by `(start, end)`
/// and duplicate-free, at its ordered position; an exact duplicate is
/// dropped.
fn insert_match_pair(acc: &mut Vec<(usize, usize)>, m: (usize, usize))
    ensures
        pairs_int(final(acc)@) == insert_pair(pairs_int(old(acc)@), pair_int(m)),
        forall|k: int|
            0 <= k < final(acc)@.len() ==> #[trigger] final(acc)@[k] == m || old(acc)@.contains(
                final(acc)@[k],
            ),
{
    let ghost s = pairs_int(acc@);
    let mut idx: usize = 0;
    while idx < acc.len() && pair_lt_exec(acc[idx], m)
        invariant
            0 <= idx <= acc@.len(),
            acc@ == old(acc)@,
            forall|k: int| 0 <= k < idx ==> pair_lt(#[trigger] s[k], pair_int(m)),
            s == pairs_int(acc@),
        decreases acc@.len() - idx,
    {
        assert(s[idx as int] == pair_int(acc@[idx as int]));
        idx = idx + 1;
    }
    assert(idx < s.len() ==> !pair_lt(s[idx as int], pair_int(m)));
    proof {
        lemma_insert_pair_at(s, pair_int(m), idx as int);
    }
    if idx < acc.len() && acc[idx].0 == m.0 && acc[idx].1 == m.1 {
        assert(s[idx as int] == pair_int(m));
        assert(insert_pair(s, pair_int(m)) == s);
    } else {
        assert(!(idx < s.len() && s[idx as int] == pair_int(m))) by {
            if idx < s.len() {
                assert(s[idx as int] == pair_int(acc@[idx as int]));
            }
        }
        acc.insert(idx, m);
        assert(acc@ =~= old(acc)@.take(idx as int) + seq![m] + old(acc)@.skip(idx as int));
        assert(pairs_int(acc@) =~= s.take(idx as int) + seq![pair_int(m)] + s.skip(idx as int));
    }
}

/// Strictly ascending by `(start, end)` — in particular duplicate-free.
pub open spec fn sorted_strict(s: Seq<(int, int)>) -> bool {
    forall|i: int, j: int| 0 <= i < j < s.len() ==> pair_lt(#[trigger] s[i], #[trigger] s[j])
}

proof fn lemma_starts_chain(s: Seq<(int, int)>, i: int, j: int)
    requires
        forall|k: int| 0 <= k < s.len() - 1 ==> (#[trigger] s[k]).0 < s[k + 1].0,
        0 <= i < j < s.len(),
    ensures
        s[i].0 < s[j].0,
    decreases j - i,
{
    if j > i + 1 {
        lemma_starts_chain(s, i, j - 1);
    }
    assert(s[j - 1].0 < s[j].0);
}

/// Adjacent strictly increasing starts give the full strict order.
proof fn lemma_adjacent_starts_sorted(s: Seq<(int, int)>)
    requires
        forall|k: int| 0 <= k < s.len() - 1 ==> (#[trigger] s[k]).0 < s[k + 1].0,
    ensures
        sorted_strict(s),
{
    assert forall|i: int, j: int| 0 <= i < j < s.len() implies pair_lt(s[i], s[j]) by {
        lemma_starts_chain(s, i, j);
    }
}

/// Offset pairs as the engine yields them — successive matches starting
/// strictly later — are strictly ordered throughout.
proof fn lemma_engine_pairs_sorted(ps: Seq<(usize, usize)>, line: Seq<u8>)
    requires
        forall|i: int|
            0 <= i < ps.len() - 1 ==> (#[trigger] ps[i]).1 <= ps[i + 1].0 && ps[i].0 < ps[
                i + 1
            ].0,
    ensures
        sorted_strict(pairs_int(ps)),
{
    let pi = pairs_int(ps);
    assert forall|k: int| 0 <= k < pi.len() - 1 implies (#[trigger] pi[k]).0 < pi[k + 1].0 by {
        assert(pi[k] == pair_int(ps[k]));
        assert(pi[k + 1] == pair_int(ps[k + 1]));
        assert(ps[k].0 < ps[k + 1].0);
    }
    lemma_adjacent_starts_sorted(pi);
}

proof fn lemma_insert_pair_props(s: Seq<(int, int)>, m: (int, int))
    requires
        sorted_strict(s),
    ensures
        sorted_strict(insert_pair(s, m)),
        forall|x: (int, int)| #[trigger] insert_pair(s, m).contains(x) ==> s.contains(x) || x == m,
        forall|x: (int, int)| #[trigger] s.contains(x) ==> insert_pair(s, m).contains(x),
        insert_pair(s, m).contains(m),
    decreases s.len(),
{
    let r = insert_pair(s, m);
    if s.len() == 0 {
        assert(r =~= seq![m]);
        assert(r[0] == m);
    } else if pair_lt(s[0], m) {
        let t = s.skip(1);
        assert(forall|k: int| 0 <= k < t.len() ==> t[k] == s[k + 1]);
        lemma_insert_pair_props(t, m);
        let rt = insert_pair(t, m);
        assert(r == seq![s[0]] + rt);
        assert forall|x: (int, int)| #[trigger] r.contains(x) implies s.contains(x) || x == m by {
            let i = choose|i: int| 0 <= i < r.len() && r[i] == x;
            if i == 0 {
                assert(s[0] == x);
            } else {
                assert(rt[i - 1] == x);
                assert(rt.contains(x));
                if t.contains(x) {
                    let j = choose|j: int| 0 <= j < t.len() && t[j] == x;
                    assert(s[j + 1] == x);
                }
            }
        }
        assert forall|x: (int, int)| #[trigger] s.contains(x) implies r.contains(x) by {
            let i = choose|i: int| 0 <= i < s.len() && s[i] == x;
            if i == 0 {
                assert(r[0] == x);
            } else {
                assert(t[i - 1] == x);
                assert(t.contains(x));
                assert(rt.contains(x));
                let j = choose|j: int| 0 <= j < rt.len() && rt[j] == x;
                assert(r[j + 1] == x);
            }
        }
        assert(r.contains(m)) by {
            assert(rt.contains(m));
            let j = choose|j: int| 0 <= j < rt.len() && rt[j] == m;
            assert(r[j + 1] == m);
        }
        assert forall|i: int, j: int| 0 <= i < j < r.len() implies pair_lt(r[i], r[j]) by {
            if i == 0 {
                assert(r[j] == rt[j - 1]);
                assert(rt.contains(rt[j - 1]));
                if t.contains(rt[j - 1]) {
                    let k = choose|k: int| 0 <= k < t.len() && t[k] == rt[j - 1];
                    assert(s[k + 1] == rt[j - 1]);
                    assert(pair_lt(s[0], s[k + 1]));
                } else {
                    assert(rt[j - 1] == m);
                }
            } else {
                assert(r[i] == rt[i - 1] && r[j] == rt[j - 1]);
            }
        }
    } else if s[0] == m {
        assert(r == s);
        assert(r.contains(m)) by {
            assert(r[0] == m);
        }
    } else {
        assert(pair_lt(m, s[0]));
        assert(r == seq![m] + s);
        assert forall|x: (int, int)| #[trigger] r.contains(x) implies s.contains(x) || x == m by {
            let i = choose|i: int| 0 <= i < r.len() && r[i] == x;
            if i > 0 {
                assert(s[i - 1] == x);
            }
        }
        assert forall|x: (int, int)| #[trigger] s.contains(x) implies r.contains(x) by {
            let i = choose|i: int| 0 <= i < s.len() && s[i] == x;
            assert(r[i + 1] == x);
        }
        assert(r[0] == m);
        assert forall|i: int, j: int| 0 <= i < j < r.len() implies pair_lt(r[i], r[j]) by {
            if i == 0 {
                assert(r[j] == s[j - 1]);
                if j - 1 > 0 {
                    assert(pair_lt(s[0], s[j - 1]));
                }
            } else {
                assert(r[i] == s[i - 1] && r[j] == s[j - 1]);
            }
        }
    }
}

proof fn lemma_insert_all_props(s: Seq<(int, int)>, ms: Seq<(int, int)>)
    requires
        sorted_strict(s),
    ensures
        sorted_strict(insert_all(s, ms)),
        forall|x: (int, int)|
            #[trigger] insert_all(s, ms).contains(x) ==> s.contains(x) || ms.contains(x),
        forall|x: (int, int)| #[trigger] s.contains(x) ==> insert_all(s, ms).contains(x),
        forall|x: (int, int)| #[trigger] ms.contains(x) ==> insert_all(s, ms).contains(x),
    decreases ms.len(),
{
    let r = insert_all(s, ms);
    if ms.len() == 0 {
        assert(forall|x: (int, int)| !ms.contains(x));
    } else {
        lemma_insert_pair_props(s, ms[0]);
        let s2 = insert_pair(s, ms[0]);
        lemma_insert_all_props(s2, ms.skip(1));
        let t = ms.skip(1);
        assert(forall|k: int| 0 <= k < t.len() ==> t[k] == ms[k + 1]);
        assert(r == insert_all(s2, t));
        assert forall|x: (int, int)| #[trigger] r.contains(x) implies s.contains(x) || ms.contains(
            x,
        ) by {
            if s2.contains(x) {
                if !s.contains(x) {
                    assert(x == ms[0]);
                    assert(ms.contains(x));
                }
            } else {
                assert(t.contains(x));
                let i = choose|i: int| 0 <= i < t.len() && t[i] == x;
                assert(ms[i + 1] == x);
            }
        }
        assert forall|x: (int, int)| #[trigger] s.contains(x) implies r.contains(x) by {
            assert(s2.contains(x));
        }
        assert forall|x: (int, int)| #[trigger] ms.contains(x) implies r.contains(x) by {
            let i = choose|i: int| 0 <= i < ms.len() && ms[i] == x;
            if i == 0 {
                assert(s2.contains(x));
            } else {
                assert(t[i - 1] == x);
                assert(t.contains(x));
            }
        }
    }
}

proof fn lemma_insert_pair_append(s: Seq<(int, int)>, m: (int, int))
    requires
        forall|k: int| 0 <= k < s.len() ==> pair_lt(#[trigger] s[k], m),
    ensures
        insert_pair(s, m) == s.push(m),
{
    lemma_insert_pair_at(s, m, s.len() as int);
    assert(s.take(s.len() as int) =~= s);
    assert(s.skip(s.len() as int) =~= Seq::<(int, int)>::empty());
    assert(s.take(s.len() as int) + seq![m] + s.skip(s.len() as int) =~= s.push(m));
}

proof fn lemma_insert_pair_member(s: Seq<(int, int)>, m: (int, int), idx: int)
    requires
        sorted_strict(s),
        0 <= idx < s.len(),
        s[idx] == m,
    ensures
        insert_pair(s, m) == s,
{
    lemma_insert_pair_at(s, m, idx);
}

proof fn lemma_insert_all_members(s: Seq<(int, int)>, ms: Seq<(int, int)>)
    requires
        sorted_strict(s),
        forall|j: int| 0 <= j < ms.len() ==> s.contains(#[trigger] ms[j]),
    ensures
        insert_all(s, ms) == s,
    decreases ms.len(),
{
    if ms.len() > 0 {
        assert(s.contains(ms[0]));
        let idx = choose|idx: int| 0 <= idx < s.len() && s[idx] == ms[0];
        lemma_insert_pair_member(s, ms[0], idx);
        assert(forall|j: int| 0 <= j < ms.skip(1).len() ==> ms.skip(1)[j] == ms[j + 1]);
        lemma_insert_all_members(s, ms.skip(1));
    }
}

proof fn lemma_insert_all_sorted_run(s: Seq<(int, int)>, rest: Seq<(int, int)>)
    requires
        sorted_strict(s + rest),
    ensures
        insert_all(s, rest) == s + rest,
    decreases rest.len(),
{
    let c = s + rest;
    if rest.len() == 0 {
        assert(c =~= s);
    } else {
        assert(forall|k: int| 0 <= k < s.len() ==> s[k] == c[k]);
        assert(rest[0] == c[s.len() as int]);
        assert forall|k: int| 0 <= k < s.len() implies pair_lt(#[trigger] s[k], rest[0]) by {
            assert(pair_lt(c[k], c[s.len() as int]));
        }
        lemma_insert_pair_append(s, rest[0]);
        assert(s.push(rest[0]) + rest.skip(1) =~= c);
        lemma_insert_all_sorted_run(s.push(rest[0]), rest.skip(1));
    }
}

/// The rare-byte result is strictly ascending by `(start, end)` — hence
/// free of exact duplicates — and holds exactly the matches that the
/// windows around the rare byte's occurrences produced.
pub proof fn lemma_rare_find_canonical(p: Seq<u8>, b: u8, line: Seq<u8>)
    ensures
        sorted_strict(rare_find(p, b, line)),
        forall|x: (int, int)|
            #[trigger] rare_find(p, b, line).contains(x) <==> windows_matches(
                p,
                b,
                line,
                0,
            ).contains(x),
{
    lemma_insert_all_props(Seq::empty(), windows_matches(p, b, line, 0));
    assert(forall|x: (int, int)| !Seq::<(int, int)>::empty().contains(x));
}

proof fn lemma_insert_all_push(s: Seq<(int, int)>, ms: Seq<(int, int)>, m: (int, int))
    ensures
        insert_all(s, ms.push(m)) == insert_pair(insert_all(s, ms), m),
{
    lemma_insert_all_concat(s, ms, seq![m]);
    assert(ms.push(m) =~= ms + seq![m]);
    let x = insert_all(s, ms);
    let e = seq![m].skip(1);
    assert(e =~= Seq::<(int, int)>::empty());
    assert(seq![m].len() == 1 && seq![m][0] == m);
    assert(insert_all(x, seq![m]) == insert_all(insert_pair(x, m), e));
    assert(insert_all(insert_pair(x, m), e) == insert_pair(x, m));
}

// ---------------------------------------------------------------------------
// The pattern matcher interface
// ---------------------------------------------------------------------------

/// A compiled pattern that can report the occurrences of itself in a line.
pub trait Matcher: Sized {
    /// Well-formedness of the compiled value.
    spec fn matcher_wf(&self) -> bool;

    /// The offset pairs this matcher reports on a line, given as the line's
    /// UTF-8 bytes.
    spec fn find_spec(&self, line: Seq<u8>) -> Seq<(int, int)>;

    /// Every occurrence of the pattern in the haystack, as matches with
    /// line-local offsets. The line number and content are left for the
    /// scanner to fill in (0 and empty).
    fn find_matches(&self, haystack: &str) -> (r: Vec<Match>)
        requires
            self.matcher_wf(),
        ensures
            match_offsets(r@) == self.find_spec(haystack.spec_bytes()),
            sorted_strict(match_offsets(r@)),
            forall|i: int|
                0 <= i < r@.len() ==> (#[trigger] r@[i]).line == 0 && r@[i].content@ == Seq::<
                    char,
                >::empty() && r@[i].start <= r@[i].end <= haystack.spec_bytes().len(),
    ;

    /// Whether the pattern occurs anywhere in the haystack: exactly when
    /// `find_matches` would report an occurrence.
    fn is_match(&self, haystack: &str) -> (r: bool)
        requires
            self.matcher_wf(),
        ensures
            r == (self.find_spec(haystack.spec_bytes()).len() > 0),
    ;
}

/// A matcher backed by the regular-expression engine, accelerated by an
/// optional required-literal hint and an optional rare-byte hint derived
/// from the pattern text.
pub struct RegexMatcher {
    /// The compiled regular expression.
    pub regex: regex::Regex,
    /// The UTF-8 bytes of the pattern text the regex was compiled from.
    pub pattern: Vec<u8>,
    /// The literal hint: a byte string every match is expected to contain.
    pub literal: Option<Vec<u8>>,
    /// The rare-byte hint, used only when no literal was extracted.
    pub rare_byte: Option<u8>,
}

impl RegexMatcher {
    /// The hints agree with the pattern, and the regex was compiled from it.
    pub open spec fn wf(&self) -> bool {
        &&& regex_valid(self.pattern@)
        &&& regex_pattern_of(self.regex) == self.pattern@
        &&& regex_default_built(self.regex)
        &&& match self.literal {
            Some(v) => literal_spec(self.pattern@) == Some(v@),
            None => literal_spec(self.pattern@) is None,
        }
        &&& rare_choice_ok(self.pattern@, self.rare_byte)
    }

    /// Compiles the pattern and derives its acceleration hints. Fails with
    /// `InvalidPattern`, carrying the pattern text, exactly when the regex
    /// engine rejects the pattern.
    pub fn new(pattern: &str) -> (r: Result<Self, SearchError>)
        ensures
            r is Ok <==> regex_valid(pattern.spec_bytes()),
            r matches Ok(m) ==> m.wf() && m.pattern@ == pattern.spec_bytes(),
            r matches Err(e) ==> (e matches SearchError::InvalidPattern(s) && s@ == pattern@),
    {
        match regex_new(pattern) {
            Err(_) => Err(SearchError::InvalidPattern(pattern.to_owned())),
            Ok(re) => {
                let pat = pattern.as_bytes_vec();
                let literal = extract_literals(pat.as_slice());
                let rare_byte = select_rare_byte(pat.as_slice());
                Ok(RegexMatcher { regex: re, pattern: pat, literal, rare_byte })
            },
        }
    }

    /// Searches the line window by window around each occurrence of the
    /// rare byte, validating candidates with the full engine and mapping
    /// window-local offsets back to the line.
    fn find_matches_with_rare_byte(&self, line: &[u8], rare: u8) -> (r: Vec<(usize, usize)>)
        requires
            regex_default_built(self.regex),
        ensures
            pairs_int(r@) == rare_find(regex_pattern_of(self.regex), rare, line@),
            forall|k: int|
                0 <= k < r@.len() ==> (#[trigger] r@[k]).0 <= r@[k].1 <= line@.len(),
    {
        let ghost p = regex_pattern_of(self.regex);
        let ghost len = line@.len() as int;
        let mut acc: Vec<(usize, usize)> = Vec::new();
        let ghost mut seen: Seq<(int, int)> = Seq::empty();
        let mut pos: usize = 0;
        assert(windows_matches(p, rare, line@, 0) =~= seen + windows_matches(p, rare, line@, 0));
        while pos < line.len()
            invariant
                len == line@.len(),
                p == regex_pattern_of(self.regex),
                regex_default_built(self.regex),
                0 <= pos <= line@.len(),
                windows_matches(p, rare, line@, 0) == seen + windows_matches(
                    p,
                    rare,
                    line@,
                    pos as int,
                ),
                pairs_int(acc@) == insert_all(Seq::empty(), seen),
                forall|k: int|
                    0 <= k < acc@.len() ==> (#[trigger] acc@[k]).0 <= acc@[k].1 <= line@.len(),
            decreases line@.len() - pos,
        {
            let tail = slice_subrange(line, pos, line.len());
            assert(tail@ == line@.subrange(pos as int, len));
            assert(tail@.len() == len - pos);
            match memchr::memchr(rare, tail) {
                None => {
                    proof {
                        assert forall|k: int| pos as int <= k < len implies line@[k] != rare by {
                            assert(0 <= k - (pos as int) && k - (pos as int) < tail@.len());
                            assert(tail@[k - pos as int] != rare);
                            assert(line@.subrange(pos as int, len)[k - pos as int] == line@[k]);
                        }
                        lemma_windows_skip(p, rare, line@, pos as int, len);
                    }
                    pos = line.len();
                },
                Some(off) => {
                    let j = pos + off;
                    assert(line@[j as int] == rare) by {
                        assert(tail@[off as int] == rare);
                        assert(line@.subrange(pos as int, len)[off as int] == line@[pos + off]);
                    }
                    proof {
                        assert forall|k: int| pos as int <= k < j as int implies line@[k]
                            != rare by {
                            assert(0 <= k - (pos as int) && k - (pos as int) < off as int);
                            assert(tail@[k - pos as int] != rare);
                            assert(line@.subrange(pos as int, len)[k - pos as int] == line@[k]);
                        }
                        lemma_windows_skip(p, rare, line@, pos as int, j as int);
                    }
                    let lo = if j >= 200 {
                        j - 200
                    } else {
                        0
                    };
                    let hi = if line.len() - j > 200 {
                        j + 200
                    } else {
                        line.len()
                    };
                    assert(lo as int == window_lo(j as int));
                    assert(hi as int == window_hi(j as int, len));
                    let window = slice_subrange(line, lo, hi);
                    let wm = regex_find_all(&self.regex, window);
                    let ghost shifted = shift_pairs(pairs_int(wm@), lo as int);
                    assert(windows_matches(p, rare, line@, j as int) == shifted + windows_matches(
                        p,
                        rare,
                        line@,
                        j + 1int,
                    ));
                    let mut t: usize = 0;
                    assert(seen + shifted.take(0) =~= seen);
                    while t < wm.len()
                        invariant
                            0 <= t <= wm@.len(),
                            shifted == shift_pairs(pairs_int(wm@), lo as int),
                            pairs_int(acc@) == insert_all(Seq::empty(), seen + shifted.take(
                                t as int,
                            )),
                            forall|i: int|
                                0 <= i < wm@.len() ==> (#[trigger] wm@[i]).0 <= wm@[i].1
                                    <= window@.len(),
                            window@.len() == hi - lo,
                            lo <= hi <= line@.len(),
                            lo + window@.len() <= line@.len(),
                            forall|k: int|
                                0 <= k < acc@.len() ==> (#[trigger] acc@[k]).0 <= acc@[k].1
                                    <= line@.len(),
                        decreases wm@.len() - t,
                    {
                        let wp = wm[t];
                        assert(wp.0 <= wp.1 <= window@.len());
                        assert(window@.len() == hi - lo);
                        let m = (wp.0 + lo, wp.1 + lo);
                        insert_match_pair(&mut acc, m);
                        proof {
                            assert(shifted[t as int] == pair_int(m));
                            assert(seen + shifted.take(t + 1int) =~= (seen + shifted.take(
                                t as int,
                            )).push(shifted[t as int]));
                            lemma_insert_all_push(
                                Seq::empty(),
                                seen + shifted.take(t as int),
                                shifted[t as int],
                            );
                        }
                        t = t + 1;
                    }
                    proof {
                        assert(shifted.take(wm@.len() as int) =~= shifted);
                        let old_seen = seen;
                        seen = seen + shifted;
                        assert(old_seen + (shifted + windows_matches(p, rare, line@, j + 1int))
                            =~= (old_seen + shifted) + windows_matches(p, rare, line@, j + 1int));
                    }
                    assert(windows_matches(p, rare, line@, 0) == seen + windows_matches(
                        p,
                        rare,
                        line@,
                        j + 1int,
                    ));
                    pos = j + 1;
                },
            }
        }
        assert(windows_matches(p, rare, line@, pos as int) =~= Seq::empty());
        assert(seen =~= windows_matches(p, rare, line@, 0));
        acc
    }
}

/// Builds scanner-ready matches (line 0, empty content) from offset pairs.
fn pairs_to_matches(pairs: Vec<(usize, usize)>) -> (r: Vec<Match>)
    ensures
        match_offsets(r@) == pairs_int(pairs@),
        forall|i: int|
            0 <= i < r@.len() ==> (#[trigger] r@[i]).line == 0 && r@[i].content@ == Seq::<
                char,
            >::empty() && r@[i].start == pairs@[i].0 && r@[i].end == pairs@[i].1,
{
    let mut r: Vec<Match> = Vec::new();
    let mut i: usize = 0;
    while i < pairs.len()
        invariant
            0 <= i <= pairs@.len(),
            r@.len() == i,
            forall|k: int|
                0 <= k < i ==> (#[trigger] r@[k]).line == 0 && r@[k].content@ == Seq::<
                    char,
                >::empty() && r@[k].start == pairs@[k].0 && r@[k].end == pairs@[k].1,
        decreases pairs@.len() - i,
    {
        let p = pairs[i];
        r.push(Match::new(p.0, p.1, 0, String::new()));
        i = i + 1;
    }
    assert(match_offsets(r@) =~= pairs_int(pairs@));
    r
}

/// Of the acceleration strategies: on a line that contains the literal
/// hint, the literal-prefilter path reports exactly the full engine's
/// matches — the prefilter only skips evaluation, it never changes a
/// reported match. (On a line without the literal the prefilter reports
/// none; that the full engine would also find none there rests on the
/// literal being a required part of the pattern, a fact of the regex
/// engine that tests exercise and no contract states.)
pub proof fn lemma_literal_prefilter_agrees(m: RegexMatcher, line: Seq<u8>)
    requires
        m.wf(),
        m.literal is Some,
        contains_seq(line, literal_spec(m.pattern@).unwrap()),
    ensures
        m.find_spec(line) == regex_find_spec(m.pattern@, line),
{
}

proof fn lemma_shift_zero(ms: Seq<(int, int)>)
    ensures
        shift_pairs(ms, 0) == ms,
{
    assert forall|j: int| 0 <= j < ms.len() implies shift_pairs(ms, 0)[j] == ms[j] by {
        assert(shift_pairs(ms, 0)[j] == (ms[j].0 + 0, ms[j].1 + 0));
    }
    assert(shift_pairs(ms, 0) =~= ms);
}

proof fn lemma_windows_subset_short(p: Seq<u8>, b: u8, line: Seq<u8>, from: int)
    requires
        0 <= from <= line.len(),
        line.len() <= window_size(),
        valid_utf8(line),
    ensures
        forall|j: int|
            0 <= j < windows_matches(p, b, line, from).len() ==> regex_find_spec(
                p,
                line,
            ).contains(#[trigger] windows_matches(p, b, line, from)[j]),
    decreases line.len() - from,
{
    let f = regex_find_spec(p, line);
    if from >= line.len() {
    } else {
        lemma_windows_subset_short(p, b, line, from + 1);
        if line[from] == b {
            assert(window_lo(from) == 0);
            assert(window_hi(from, line.len() as int) == line.len());
            assert(line.subrange(0, line.len() as int) =~= line);
            lemma_shift_zero(f);
            let w = windows_matches(p, b, line, from);
            assert(w == f + windows_matches(p, b, line, from + 1));
            assert forall|j: int| 0 <= j < w.len() implies f.contains(#[trigger] w[j]) by {
                if j < f.len() {
                    assert(w[j] == f[j]);
                } else {
                    assert(w[j] == windows_matches(p, b, line, from + 1)[j - f.len()]);
                }
            }
        }
    }
}

/// Of the acceleration strategies: on a line no longer than the
/// verification window whose first rare-byte occurrence stands at `i0`,
/// every window covers the whole line, so the rare-byte path reports
/// exactly the full engine's matches (which arrive strictly ordered, as
/// the engine yields them). Longer lines keep the documented
/// approximation: a window may cut off a match that strays far from every
/// occurrence of the rare byte.
pub proof fn lemma_rare_short_line_agrees(p: Seq<u8>, b: u8, line: Seq<u8>, i0: int)
    requires
        line.len() <= window_size(),
        valid_utf8(line),
        0 <= i0 < line.len(),
        line[i0] == b,
        forall|k: int| 0 <= k < i0 ==> line[k] != b,
        sorted_strict(regex_find_spec(p, line)),
    ensures
        rare_find(p, b, line) == regex_find_spec(p, line),
{
    let f = regex_find_spec(p, line);
    lemma_windows_skip(p, b, line, 0, i0);
    assert(window_lo(i0) == 0);
    assert(window_hi(i0, line.len() as int) == line.len());
    assert(line.subrange(0, line.len() as int) =~= line);
    lemma_shift_zero(f);
    let tail = windows_matches(p, b, line, i0 + 1);
    assert(windows_matches(p, b, line, 0) == f + tail);
    lemma_insert_all_concat(Seq::empty(), f, tail);
    assert(Seq::<(int, int)>::empty() + f =~= f);
    lemma_insert_all_sorted_run(Seq::empty(), f);
    lemma_windows_subset_short(p, b, line, i0 + 1);
    lemma_insert_all_members(f, tail);
}

/// The rare-byte filter on a line without the rare byte reports nothing:
/// every window sits around an occurrence of the byte, so no window opens.
/// (That the skipped full evaluation would also have reported nothing
/// rests on the rare byte being a literal part of the pattern, a fact of
/// the regex engine that tests exercise and no contract states.)
pub proof fn lemma_rare_byte_absent_no_matches(p: Seq<u8>, b: u8, line: Seq<u8>)
    requires
        forall|k: int| 0 <= k < line.len() ==> line[k] != b,
    ensures
        rare_find(p, b, line) == Seq::<(int, int)>::empty(),
{
    lemma_windows_skip(p, b, line, 0, line.len() as int);
    assert(windows_matches(p, b, line, line.len() as int) == Seq::<(int, int)>::empty());
}

/// Two well-formed matchers over the same pattern text carry the same
/// hints and report the same matches on every line: compilation is a
/// function of the pattern alone.
pub proof fn lemma_same_pattern_same_matches(m1: RegexMatcher, m2: RegexMatcher, line: Seq<u8>)
    requires
        m1.wf(),
        m2.wf(),
        m1.pattern@ == m2.pattern@,
    ensures
        m1.find_spec(line) == m2.find_spec(line),
{
    let p = m1.pattern@;
    match (m1.literal, m2.literal) {
        (Some(v1), Some(v2)) => {
            assert(v1@ == v2@);
        },
        (None, None) => {
            match (m1.rare_byte, m2.rare_byte) {
                (Some(b1), Some(b2)) => {
                    if b1 < b2 {
                        assert(count_lit(p, b1) >= 1);
                        assert(count_lit(p, b2) >= 1);
                        assert(count_lit(p, b1) > count_lit(p, b2));
                        assert(count_lit(p, b1) <= count_lit(p, b2));
                        assert(false);
                    } else if b2 < b1 {
                        assert(count_lit(p, b1) >= 1);
                        assert(count_lit(p, b2) >= 1);
                        assert(count_lit(p, b2) > count_lit(p, b1));
                        assert(count_lit(p, b2) <= count_lit(p, b1));
                        assert(false);
                    }
                    assert(b1 == b2);
                },
                (Some(b), None) => {
                    assert(count_lit(p, b) >= 1 && count_lit(p, b) <= 5);
                    assert(false);
                },
                (None, Some(b)) => {
                    assert(count_lit(p, b) >= 1 && count_lit(p, b) <= 5);
                    assert(false);
                },
                (None, None) => {},
            }
        },
        (Some(v), None) => {
            assert(literal_spec(p) == Some(v@));
            assert(false);
        },
        (None, Some(v)) => {
            assert(literal_spec(p) == Some(v@));
            assert(false);
        },
    }
}

impl Matcher for RegexMatcher {
    open spec fn matcher_wf(&self) -> bool {
        self.wf()
    }

    /// The tiered match set: the full engine's matches gated by the literal
    /// hint, else the rare-byte window search, else the full engine alone.
    open spec fn find_spec(&self, line: Seq<u8>) -> Seq<(int, int)> {
        match self.literal {
            Some(lit) => if contains_seq(line, lit@) {
                regex_find_spec(self.pattern@, line)
            } else {
                Seq::empty()
            },
            None => match self.rare_byte {
                Some(b) => rare_find(self.pattern@, b, line),
                None => regex_find_spec(self.pattern@, line),
            },
        }
    }

    fn find_matches(&self, haystack: &str) -> (r: Vec<Match>)
    {
        let bytes = haystack.as_bytes();
        proof {
            encode_utf8_valid_utf8(haystack@);
        }
        let pairs: Vec<(usize, usize)>;
        match &self.literal {
            Some(lit) => {
                if memchr::memmem::find(bytes, lit.as_slice()).is_some() {
                    pairs = regex_find_all(&self.regex, bytes);
                    proof {
                        lemma_engine_pairs_sorted(pairs@, bytes@);
                    }
                } else {
                    pairs = Vec::new();
                    assert(pairs_int(pairs@) =~= Seq::<(int, int)>::empty());
                }
            },
            None => match self.rare_byte {
                Some(b) => {
                    pairs = self.find_matches_with_rare_byte(bytes, b);
                    proof {
                        lemma_rare_find_canonical(regex_pattern_of(self.regex), b, bytes@);
                    }
                },
                None => {
                    pairs = regex_find_all(&self.regex, bytes);
                    proof {
                        lemma_engine_pairs_sorted(pairs@, bytes@);
                    }
                },
            },
        }
        assert(pairs_int(pairs@) == self.find_spec(haystack.spec_bytes()));
        assert(sorted_strict(pairs_int(pairs@)));
        assert(forall|i: int|
            0 <= i < pairs@.len() ==> (#[trigger] pairs@[i]).0 <= pairs@[i].1 <= bytes@.len());
        let r = pairs_to_matches(pairs);
        assert forall|i: int| 0 <= i < r@.len() implies (#[trigger] r@[i]).start <= r@[i].end
            <= haystack.spec_bytes().len() by {
            assert(pairs@[i].0 <= pairs@[i].1 <= bytes@.len());
        }
        r
    }

    fn is_match(&self, haystack: &str) -> (r: bool)
    {
        let bytes = haystack.as_bytes();
        proof {
            encode_utf8_valid_utf8(haystack@);
        }
        match &self.literal {
            Some(lit) => {
                if memchr::memmem::find(bytes, lit.as_slice()).is_some() {
                    regex_is_match(&self.regex, bytes)
                } else {
                    false
                }
            },
            None => match self.rare_byte {
                Some(b) => {
                    if memchr::memchr(b, bytes).is_some() {
                        let pairs = self.find_matches_with_rare_byte(bytes, b);
                        pairs.len() > 0
                    } else {
                        proof {
                            lemma_windows_skip(
                                self.pattern@,
                                b,
                                bytes@,
                                0,
                                bytes@.len() as int,
                            );
                        }
                        false
                    }
                },
                None => regex_is_match(&self.regex, bytes),
            },
        }
    }
}

} // verus!
