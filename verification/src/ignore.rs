//! Nested, directory-scoped exclusion rules with negation.
//!
//! Each directory may carry an exclusion file; the rules that apply to a
//! path are those of every directory from the root down to the path's
//! parent, applied in that order. A matching rule sets the ignored state to
//! true, a matching negated rule resets it to false; the last match wins.
//!
//! Paths are plain `/`-separated strings. Reading exclusion files is the
//! caller's business: it hands each directory's file content in, and the
//! resolver parses, caches (write-once) and evaluates.

use vstd::prelude::*;
use vstd::slice::slice_subrange;
use vstd::slice::slice_to_vec;
use vstd::string::StringSliceAdditionalSpecFns;
use crate::matcher::{contains_seq, occurs_at};
use crate::searcher::lines_of;

verus! {

// ---------------------------------------------------------------------------
// Byte-string helpers
// ---------------------------------------------------------------------------

/// `pre` is a prefix of `s`.
pub open spec fn starts_with_seq(s: Seq<u8>, pre: Seq<u8>) -> bool {
    pre.len() <= s.len() && s.take(pre.len() as int) == pre
}

/// `suf` is a suffix of `s`.
pub open spec fn ends_with_seq(s: Seq<u8>, suf: Seq<u8>) -> bool {
    suf.len() <= s.len() && s.skip(s.len() - suf.len()) == suf
}

fn bytes_eq(a: &[u8], b: &[u8]) -> (r: bool)
    ensures
        r == (a@ == b@),
{
    if a.len() != b.len() {
        return false;
    }
    let mut i: usize = 0;
    while i < a.len()
        invariant
            0 <= i <= a@.len(),
            a@.len() == b@.len(),
            forall|k: int| 0 <= k < i ==> a@[k] == b@[k],
        decreases a@.len() - i,
    {
        if a[i] != b[i] {
            return false;
        }
        i = i + 1;
    }
    assert(a@ =~= b@);
    true
}

fn starts_with_bytes(s: &[u8], pre: &[u8]) -> (r: bool)
    ensures
        r == starts_with_seq(s@, pre@),
{
    if pre.len() > s.len() {
        return false;
    }
    let head = slice_subrange(s, 0, pre.len());
    bytes_eq(head, pre)
}

fn ends_with_bytes(s: &[u8], suf: &[u8]) -> (r: bool)
    ensures
        r == ends_with_seq(s@, suf@),
{
    if suf.len() > s.len() {
        return false;
    }
    let tail = slice_subrange(s, s.len() - suf.len(), s.len());
    bytes_eq(tail, suf)
}

pub(crate) fn contains_bytes(hay: &[u8], needle: &[u8]) -> (r: bool)
    ensures
        r == contains_seq(hay@, needle@),
{
    if needle.len() > hay.len() {
        assert(forall|i: int| !occurs_at(hay@, needle@, i));
        return false;
    }
    if needle.len() == 0 {
        assert(hay@.subrange(0, 0) =~= needle@);
        assert(occurs_at(hay@, needle@, 0));
        return true;
    }
    let mut i: usize = 0;
    while i <= hay.len() - needle.len()
        invariant
            1 <= needle@.len() <= hay@.len(),
            0 <= i <= hay@.len() - needle@.len() + 1,
            forall|k: int| 0 <= k < i ==> !occurs_at(hay@, needle@, k),
        decreases hay@.len() - needle@.len() + 1 - i,
    {
        let part = slice_subrange(hay, i, i + needle.len());
        if bytes_eq(part, needle) {
            assert(occurs_at(hay@, needle@, i as int));
            return true;
        }
        assert(!occurs_at(hay@, needle@, i as int));
        i = i + 1;
    }
    assert(forall|k: int| 0 <= k < hay@.len() - needle@.len() + 1 ==> !occurs_at(hay@, needle@, k));
    assert(forall|k: int| !occurs_at(hay@, needle@, k));
    false
}

fn contains_byte(hay: &[u8], b: u8) -> (r: bool)
    ensures
        r == contains_seq(hay@, seq![b]),
{
    let mut i: usize = 0;
    while i < hay.len()
        invariant
            0 <= i <= hay@.len(),
            forall|k: int| 0 <= k < i ==> hay@[k] != b,
        decreases hay@.len() - i,
    {
        if hay[i] == b {
            assert(hay@.subrange(i as int, i + 1) =~= seq![b]);
            assert(occurs_at(hay@, seq![b], i as int));
            return true;
        }
        i = i + 1;
    }
    assert forall|k: int| !occurs_at(hay@, seq![b], k) by {
        if 0 <= k < hay@.len() {
            assert(hay@.subrange(k, k + 1)[0] == hay@[k]);
        }
    }
    false
}

// ---------------------------------------------------------------------------
// Path components
// ---------------------------------------------------------------------------

/// The final component of a path: the bytes after the last separator
/// (empty when the path ends with one).
pub open spec fn file_name(p: Seq<u8>) -> Seq<u8>
    decreases p.len(),
{
    if p.len() == 0 {
        Seq::empty()
    } else if p.last() == 47 {
        Seq::empty()
    } else {
        file_name(p.drop_last()).push(p.last())
    }
}

proof fn lemma_file_name_len(p: Seq<u8>)
    ensures
        file_name(p).len() <= p.len(),
        contains_seq(p, seq![47u8]) ==> file_name(p).len() < p.len(),
    decreases p.len(),
{
    if p.len() == 0 {
        assert(forall|i: int| !occurs_at(p, seq![47u8], i));
    } else if p.last() == 47 {
    } else {
        lemma_file_name_len(p.drop_last());
        if contains_seq(p, seq![47u8]) {
            let i = choose|i: int| occurs_at(p, seq![47u8], i);
            assert(p.subrange(i, i + 1)[0] == p[i]);
            assert(p[i] == 47);
            assert(i < p.len() - 1);
            assert(p.drop_last().subrange(i, i + 1) =~= seq![47u8]);
            assert(occurs_at(p.drop_last(), seq![47u8], i));
        }
    }
}

/// The directory holding a path: everything before the separator in front
/// of the final component; empty when the path has no separator.
pub open spec fn parent_dir(p: Seq<u8>) -> Seq<u8> {
    if contains_seq(p, seq![47u8]) && file_name(p).len() + 1 <= p.len() {
        p.take(p.len() - file_name(p).len() - 1)
    } else {
        Seq::empty()
    }
}

/// Computes the final component (after the last `/`) and the parent
/// directory of a path.
fn split_path(p: &[u8]) -> (r: (Vec<u8>, Vec<u8>))
    ensures
        r.0@ == parent_dir(p@),
        r.1@ == file_name(p@),
{
    let mut ns: usize = 0;  // start of the final component
    let mut found = false;
    let mut i: usize = 0;
    assert(p@.take(0) =~= Seq::<u8>::empty());
    assert(p@.subrange(0, 0) =~= Seq::<u8>::empty());
    while i < p.len()
        invariant
            0 <= i <= p@.len(),
            found ==> 1 <= ns <= i && p@[ns - 1] == 47,
            !found ==> ns == 0 && forall|k: int| 0 <= k < i ==> p@[k] != 47,
            file_name(p@.take(i as int)) == p@.subrange(ns as int, i as int),
        decreases p@.len() - i,
    {
        let ghost pre = p@.take(i as int);
        let ghost post = p@.take(i + 1);
        assert(post.drop_last() =~= pre);
        assert(post.last() == p@[i as int]);
        if p[i] == 47 {
            ns = i + 1;
            found = true;
            assert(file_name(post) =~= p@.subrange(ns as int, i + 1));
        } else {
            assert(file_name(post) =~= file_name(pre).push(p@[i as int]));
            assert(file_name(pre).push(p@[i as int]) =~= p@.subrange(ns as int, i + 1));
        }
        i = i + 1;
    }
    assert(p@.take(p@.len() as int) =~= p@);
    let name = slice_to_vec(slice_subrange(p, ns, p.len()));
    proof {
        if found {
            assert(p@.subrange(ns - 1, ns as int) =~= seq![47u8]);
            assert(occurs_at(p@, seq![47u8], ns - 1));
        } else {
            assert forall|k: int| !occurs_at(p@, seq![47u8], k) by {
                if 0 <= k < p@.len() {
                    assert(p@.subrange(k, k + 1)[0] == p@[k]);
                }
            }
        }
    }
    if found {
        let parent = slice_to_vec(slice_subrange(p, 0, ns - 1));
        assert(parent@ =~= parent_dir(p@));
        (parent, name)
    } else {
        let parent: Vec<u8> = Vec::new();
        assert(parent@ =~= parent_dir(p@));
        (parent, name)
    }
}

/// The path relative to a base directory: the whole path under an empty
/// base, the bytes after `base` and one separator when the path lies under
/// `base`, nothing otherwise.
pub open spec fn rel_to(base: Seq<u8>, p: Seq<u8>) -> Option<Seq<u8>> {
    if base.len() == 0 {
        Some(p)
    } else if p.len() > base.len() && p.take(base.len() as int) == base && p[base.len() as int]
        == 47 {
        Some(p.skip(base.len() as int + 1))
    } else {
        None
    }
}

fn rel_to_exec<'a>(base: &[u8], p: &'a [u8]) -> (r: Option<&'a [u8]>)
    ensures
        match r {
            Some(s) => rel_to(base@, p@) == Some(s@),
            None => rel_to(base@, p@) is None,
        },
{
    if base.len() == 0 {
        return Some(p);
    }
    if p.len() > base.len() {
        let head = slice_subrange(p, 0, base.len());
        if bytes_eq(head, base) {
            if p[base.len()] == 47 {
                return Some(slice_subrange(p, base.len() + 1, p.len()));
            }
        }
        None
    } else {
        None
    }
}

/// The chain of directories whose rules govern paths under `dir`: from the
/// root down to `dir` itself. A directory outside the root is clamped to
/// the root alone.
pub open spec fn chain_of(root: Seq<u8>, dir: Seq<u8>) -> Seq<Seq<u8>>
    decreases dir.len(),
{
    if dir == root || rel_to(root, dir) is None || dir.len() == 0 {
        seq![root]
    } else {
        chain_of(root, parent_dir(dir)) + seq![dir]
    }
}

fn chain_dirs(root: &[u8], dir: &[u8]) -> (r: Vec<Vec<u8>>)
    ensures
        paths_view(r@) == chain_of(root@, dir@),
    decreases dir@.len(),
{
    let is_root = bytes_eq(dir, root);
    let rel = rel_to_exec(root, dir);
    if is_root || rel.is_none() || dir.len() == 0 {
        let mut v: Vec<Vec<u8>> = Vec::new();
        v.push(slice_to_vec(root));
        assert(paths_view(v@) =~= seq![root@]);
        v
    } else {
        let (parent, _name) = split_path(dir);
        proof {
            lemma_file_name_len(dir@);
        }
        let mut v = chain_dirs(root, parent.as_slice());
        v.push(slice_to_vec(dir));
        assert(paths_view(v@) =~= chain_of(root@, parent_dir(dir@)) + seq![dir@]);
        v
    }
}

/// The views of a sequence of path buffers.
pub open spec fn paths_view(s: Seq<Vec<u8>>) -> Seq<Seq<u8>> {
    s.map_values(|v: Vec<u8>| v@)
}

// ---------------------------------------------------------------------------
// Rules
// ---------------------------------------------------------------------------

/// The mathematical content of an exclusion rule.
pub ghost struct RuleRec {
    /// The rule text, without any negation marker.
    pub rule: Seq<u8>,
    /// A negated rule re-includes what an earlier rule excluded.
    pub negated: bool,
    /// A rule ending in a separator is scoped to directories.
    pub dir_scoped: bool,
}

/// One exclusion rule: its text (without the negation marker), whether it
/// is negated, and whether it is directory-scoped (ended with a separator).
pub struct Rule {
    pub rule: Vec<u8>,
    pub is_negation: bool,
    pub is_directory: bool,
}

impl View for Rule {
    type V = RuleRec;

    open spec fn view(&self) -> RuleRec {
        RuleRec { rule: self.rule@, negated: self.is_negation, dir_scoped: self.is_directory }
    }
}

/// The views of a sequence of rules.
pub open spec fn rules_view(s: Seq<Rule>) -> Seq<RuleRec> {
    s.map_values(|r: Rule| r@)
}

// ---------------------------------------------------------------------------
// The matching primitive
// ---------------------------------------------------------------------------

/// A directory-scoped rule without its trailing separators.
pub open spec fn trim_slashes(p: Seq<u8>) -> Seq<u8>
    decreases p.len(),
{
    if p.len() > 0 && p.last() == 47 {
        trim_slashes(p.drop_last())
    } else {
        p
    }
}

fn trim_slashes_exec<'a>(p: &'a [u8]) -> (r: &'a [u8])
    ensures
        r@ == trim_slashes(p@),
{
    let mut e: usize = p.len();
    assert(p@.take(p@.len() as int) =~= p@);
    while e > 0 && p[e - 1] == 47
        invariant
            0 <= e <= p@.len(),
            trim_slashes(p@) == trim_slashes(p@.take(e as int)),
        decreases e,
    {
        let ghost pre = p@.take(e as int);
        assert(pre.last() == p@[e - 1]);
        assert(pre.drop_last() =~= p@.take(e - 1));
        e = e - 1;
    }
    let r = slice_subrange(p, 0, e);
    assert(e > 0 ==> p@.take(e as int).last() != 47);
    r
}

/// Whether one rule text matches a relative path. In priority order: exact
/// equality; directory scope (the path starts with the rule's directory or
/// contains it as an inner component); the reduced wildcard forms `*`,
/// `*.ext` (the path ends with `.ext`, dot included) and `prefix*`; a bare
/// name against the final component; a rule with a separator as a
/// substring of the path.
pub open spec fn match_pattern_spec(pat: Seq<u8>, rel: Seq<u8>, is_directory: bool) -> bool {
    if pat == rel {
        true
    } else if is_directory {
        let d = trim_slashes(pat);
        contains_seq(rel, d.push(47)) || starts_with_seq(rel, d)
    } else if contains_seq(pat, seq![42u8]) {
        if pat == seq![42u8] {
            !contains_seq(rel, seq![47u8])
        } else if pat.len() >= 2 && pat[0] == 42 && pat[1] == 46 {
            ends_with_seq(rel, pat.skip(1))
        } else if pat.len() >= 1 && pat.last() == 42 {
            starts_with_seq(rel, pat.drop_last())
        } else {
            false
        }
    } else if !contains_seq(pat, seq![47u8]) {
        file_name(rel) == pat
    } else {
        contains_seq(rel, pat)
    }
}

/// Whether a rule matches a relative path (the §matching primitive of the
/// resolver), with the reduced wildcard semantics of `match_pattern_spec`.
pub fn match_pattern(pattern: &[u8], relative_path: &[u8], is_directory: bool) -> (r: bool)
    ensures
        r == match_pattern_spec(pattern@, relative_path@, is_directory),
{
    if bytes_eq(pattern, relative_path) {
        return true;
    }
    if is_directory {
        let d = trim_slashes_exec(pattern);
        let mut with_slash = slice_to_vec(d);
        with_slash.push(47);
        assert(with_slash@ =~= trim_slashes(pattern@).push(47));
        return contains_bytes(relative_path, with_slash.as_slice()) || starts_with_bytes(
            relative_path,
            d,
        );
    }
    if contains_byte(pattern, 42) {
        if pattern.len() == 1 && pattern[0] == 42 {
            assert(pattern@ =~= seq![42u8]);
            return !contains_byte(relative_path, 47);
        }
        assert(pattern@ != seq![42u8]) by {
            if pattern@ == seq![42u8] {
                assert(pattern@.len() == 1 && pattern@[0] == 42);
            }
        }
        if pattern.len() >= 2 && pattern[0] == 42 && pattern[1] == 46 {
            let suf = slice_subrange(pattern, 1, pattern.len());
            return ends_with_bytes(relative_path, suf);
        }
        if pattern.len() >= 1 && pattern[pattern.len() - 1] == 42 {
            let pre = slice_subrange(pattern, 0, pattern.len() - 1);
            assert(pre@ =~= pattern@.drop_last());
            return starts_with_bytes(relative_path, pre);
        }
        return false;
    }
    if !contains_byte(pattern, 47) {
        let (_parent, name) = split_path(relative_path);
        return bytes_eq(name.as_slice(), pattern);
    }
    contains_bytes(relative_path, pattern)
}

// ---------------------------------------------------------------------------
// Parsing exclusion files
// ---------------------------------------------------------------------------

/// ASCII whitespace trimmed from rule lines.
pub open spec fn is_space(b: u8) -> bool {
    b == 32 || b == 9 || b == 13
}

pub open spec fn trim_back(s: Seq<u8>) -> Seq<u8>
    decreases s.len(),
{
    if s.len() > 0 && is_space(s.last()) {
        trim_back(s.drop_last())
    } else {
        s
    }
}

pub open spec fn trim_front(s: Seq<u8>) -> Seq<u8>
    decreases s.len(),
{
    if s.len() > 0 && is_space(s[0]) {
        trim_front(s.skip(1))
    } else {
        s
    }
}

/// The line without leading and trailing ASCII whitespace.
pub open spec fn trim_spec(s: Seq<u8>) -> Seq<u8> {
    trim_front(trim_back(s))
}

fn is_space_exec(b: u8) -> (r: bool)
    ensures
        r == is_space(b),
{
    b == 32 || b == 9 || b == 13
}

fn trim_exec<'a>(s: &'a [u8]) -> (r: &'a [u8])
    ensures
        r@ == trim_spec(s@),
{
    let mut e: usize = s.len();
    assert(s@.take(s@.len() as int) =~= s@);
    while e > 0 && is_space_exec(s[e - 1])
        invariant
            0 <= e <= s@.len(),
            trim_back(s@) == trim_back(s@.take(e as int)),
        decreases e,
    {
        let ghost pre = s@.take(e as int);
        assert(pre.last() == s@[e - 1]);
        assert(pre.drop_last() =~= s@.take(e - 1));
        e = e - 1;
    }
    let ghost tb = trim_back(s@);
    assert(tb == s@.take(e as int));
    let mut b: usize = 0;
    assert(tb.skip(0) =~= tb);
    assert(trim_front(tb) == trim_front(s@.subrange(0int, e as int)));
    while b < e && is_space_exec(s[b])
        invariant
            0 <= b <= e <= s@.len(),
            tb == trim_back(s@),
            tb == s@.take(e as int),
            trim_front(tb) == trim_front(s@.subrange(b as int, e as int)),
        decreases e - b,
    {
        let ghost cur = s@.subrange(b as int, e as int);
        assert(cur[0] == s@[b as int]);
        assert(cur.skip(1) =~= s@.subrange(b + 1, e as int));
        b = b + 1;
    }
    let r = slice_subrange(s, b, e);
    assert(b < e ==> !is_space(s@.subrange(b as int, e as int)[0]));
    assert(trim_front(s@.subrange(b as int, e as int)) == s@.subrange(b as int, e as int));
    r
}

/// The rule of one line: empty and comment lines yield none; a leading `!`
/// negates the trimmed remainder; a trailing separator marks directory
/// scope.
pub open spec fn parse_line_spec(line: Seq<u8>) -> Option<RuleRec> {
    let t = trim_spec(line);
    if t.len() == 0 || t[0] == 35 {
        None
    } else if t[0] == 33 {
        let r = trim_spec(t.skip(1));
        if r.len() == 0 {
            None
        } else {
            Some(RuleRec { rule: r, negated: true, dir_scoped: r.last() == 47 })
        }
    } else {
        Some(RuleRec { rule: t, negated: false, dir_scoped: t.last() == 47 })
    }
}

fn parse_line(line: &[u8]) -> (r: Option<Rule>)
    ensures
        match r {
            Some(rule) => parse_line_spec(line@) == Some(rule@),
            None => parse_line_spec(line@) is None,
        },
{
    let t = trim_exec(line);
    if t.len() == 0 || t[0] == 35 {
        return None;
    }
    if t[0] == 33 {
        let rest = slice_subrange(t, 1, t.len());
        assert(rest@ =~= trim_spec(line@).skip(1));
        let r = trim_exec(rest);
        if r.len() == 0 {
            None
        } else {
            let dir = r[r.len() - 1] == 47;
            Some(Rule { rule: slice_to_vec(r), is_negation: true, is_directory: dir })
        }
    } else {
        let dir = t[t.len() - 1] == 47;
        Some(Rule { rule: slice_to_vec(t), is_negation: false, is_directory: dir })
    }
}

/// The rules of a sequence of lines, in file order.
pub open spec fn rules_of_lines(lines: Seq<Seq<u8>>) -> Seq<RuleRec>
    decreases lines.len(),
{
    if lines.len() == 0 {
        Seq::empty()
    } else {
        (match parse_line_spec(lines[0]) {
            Some(r) => seq![r],
            None => Seq::empty(),
        }) + rules_of_lines(lines.skip(1))
    }
}

/// The rules parsed from an exclusion file's content.
pub open spec fn parse_rules_spec(content: Seq<u8>) -> Seq<RuleRec> {
    rules_of_lines(lines_of(content))
}

proof fn lemma_rules_push(lines: Seq<Seq<u8>>, l: Seq<u8>)
    ensures
        rules_of_lines(lines.push(l)) == rules_of_lines(lines) + (match parse_line_spec(l) {
            Some(r) => seq![r],
            None => Seq::<RuleRec>::empty(),
        }),
    decreases lines.len(),
{
    let tail = (match parse_line_spec(l) {
        Some(r) => seq![r],
        None => Seq::<RuleRec>::empty(),
    });
    if lines.len() == 0 {
        assert(lines.push(l)[0] == l);
        assert(lines.push(l).skip(1) =~= Seq::<Seq<u8>>::empty());
        assert(rules_of_lines(lines.push(l)) == tail + rules_of_lines(Seq::empty()));
        assert(tail + Seq::<RuleRec>::empty() =~= tail);
        assert(rules_of_lines(lines) + tail =~= tail);
    } else {
        assert(lines.push(l)[0] == lines[0]);
        assert(lines.push(l).skip(1) =~= lines.skip(1).push(l));
        lemma_rules_push(lines.skip(1), l);
        let h = (match parse_line_spec(lines[0]) {
            Some(r) => seq![r],
            None => Seq::<RuleRec>::empty(),
        });
        assert(h + (rules_of_lines(lines.skip(1)) + tail) =~= (h + rules_of_lines(lines.skip(1)))
            + tail);
    }
}

/// Parses an exclusion file's content: one rule per non-empty,
/// non-comment line, in file order.
pub fn parse_rules(content: &str) -> (r: Vec<Rule>)
    ensures
        rules_view(r@) == parse_rules_spec(content.spec_bytes()),
{
    let data = content.as_bytes();
    let mut out: Vec<Rule> = Vec::new();
    let mut ls: usize = 0;
    let mut i: usize = 0;
    let ghost mut done: Seq<Seq<u8>> = Seq::empty();
    assert(data@.skip(0) =~= data@);
    assert(data@.subrange(0, 0) =~= Seq::<u8>::empty());
    assert(rules_of_lines(done) =~= Seq::<RuleRec>::empty());
    assert(rules_view(out@) =~= Seq::<RuleRec>::empty());
    while i < data.len()
        invariant
            0 <= ls <= i <= data@.len(),
            lines_of(data@) == done + crate::searcher::split_lines(
                data@.skip(i as int),
                data@.subrange(ls as int, i as int),
            ),
            rules_view(out@) == rules_of_lines(done),
        decreases data@.len() - i,
    {
        let ghost rest = data@.skip(i as int);
        let ghost cur = data@.subrange(ls as int, i as int);
        let b = data[i];
        assert(rest[0] == b);
        if b == 10 {
            assert(crate::searcher::split_lines(rest, cur) == seq![cur]
                + crate::searcher::split_lines(rest.skip(1), Seq::empty()));
            let line = slice_subrange(data, ls, i);
            match parse_line(line) {
                Some(rule) => {
                    out.push(rule);
                    assert(rules_view(out@) =~= rules_of_lines(done) + seq![rule@]);
                },
                None => {
                    assert(rules_view(out@) =~= rules_of_lines(done) + Seq::<RuleRec>::empty());
                },
            }
            proof {
                lemma_rules_push(done, cur);
                done = done.push(cur);
            }
            ls = i + 1;
            assert(rest.skip(1) =~= data@.skip(i + 1));
            assert(data@.subrange(ls as int, ls as int) =~= Seq::<u8>::empty());
        } else {
            assert(crate::searcher::split_lines(rest, cur) == crate::searcher::split_lines(
                rest.skip(1),
                cur.push(b),
            ));
            assert(rest.skip(1) =~= data@.skip(i + 1));
            assert(cur.push(b) =~= data@.subrange(ls as int, i + 1));
        }
        i = i + 1;
    }
    let ghost frag = data@.subrange(ls as int, data@.len() as int);
    assert(data@.skip(i as int) =~= Seq::<u8>::empty());
    if ls < data.len() {
        assert(frag.len() > 0);
        assert(crate::searcher::split_lines(Seq::<u8>::empty(), frag) == seq![frag]);
        let line = slice_subrange(data, ls, data.len());
        match parse_line(line) {
            Some(rule) => {
                out.push(rule);
                assert(rules_view(out@) =~= rules_of_lines(done) + seq![rule@]);
            },
            None => {
                assert(rules_view(out@) =~= rules_of_lines(done) + Seq::<RuleRec>::empty());
            },
        }
        proof {
            lemma_rules_push(done, frag);
        }
        assert(lines_of(data@) == done.push(frag));
    } else {
        assert(frag.len() == 0);
        assert(crate::searcher::split_lines(Seq::<u8>::empty(), frag) =~= Seq::<Seq<u8>>::empty());
        assert(done + Seq::<Seq<u8>>::empty() =~= done);
    }
    out
}

// ---------------------------------------------------------------------------
// The resolver
// ---------------------------------------------------------------------------

/// One directory's rule set: the parsed rules and the directory the
/// exclusion file stood in.
pub struct IgnoreRules {
    pub patterns: Vec<Rule>,
    pub gitignore_dir: Vec<u8>,
}

/// The nested exclusion resolver: a root directory and the per-directory
/// rule sets loaded so far (write-once).
pub struct Ignore {
    pub root: Vec<u8>,
    pub cache: Vec<IgnoreRules>,
}

/// The rules cached for a directory (none when the directory was never
/// loaded — an unloaded or absent exclusion file means no rules).
pub open spec fn lookup_rules(cache: Seq<IgnoreRules>, dir: Seq<u8>) -> Seq<RuleRec>
    decreases cache.len(),
{
    if cache.len() == 0 {
        Seq::empty()
    } else if cache[0].gitignore_dir@ == dir {
        rules_view(cache[0].patterns@)
    } else {
        lookup_rules(cache.skip(1), dir)
    }
}

/// Whether the directory's rules were loaded.
pub open spec fn cached(cache: Seq<IgnoreRules>, dir: Seq<u8>) -> bool {
    exists|i: int| 0 <= i < cache.len() && cache[i].gitignore_dir@ == dir
}

proof fn lemma_lookup_push(cache: Seq<IgnoreRules>, e: IgnoreRules, dir: Seq<u8>)
    ensures
        cached(cache, dir) ==> lookup_rules(cache.push(e), dir) == lookup_rules(cache, dir),
        !cached(cache, dir) && e.gitignore_dir@ == dir ==> lookup_rules(cache.push(e), dir)
            == rules_view(e.patterns@),
        !cached(cache, dir) && e.gitignore_dir@ != dir ==> lookup_rules(cache.push(e), dir)
            == Seq::<RuleRec>::empty(),
        cached(cache.push(e), dir) == (cached(cache, dir) || e.gitignore_dir@ == dir),
        !cached(cache, dir) ==> lookup_rules(cache, dir) == Seq::<RuleRec>::empty(),
    decreases cache.len(),
{
    if cache.len() == 0 {
        assert(cache.push(e)[0] == e);
        assert(cache.push(e).skip(1) =~= Seq::<IgnoreRules>::empty());
        assert(lookup_rules(Seq::<IgnoreRules>::empty(), dir) == Seq::<RuleRec>::empty());
        assert(!cached(cache, dir));
        if e.gitignore_dir@ == dir {
            assert(cache.push(e)[0].gitignore_dir@ == dir);
            assert(cached(cache.push(e), dir));
        } else {
            assert(!cached(cache.push(e), dir)) by {
                if cached(cache.push(e), dir) {
                    let i = choose|i: int|
                        0 <= i < cache.push(e).len() && cache.push(e)[i].gitignore_dir@ == dir;
                    assert(i == 0);
                }
            }
        }
    } else {
        assert(cache.push(e)[0] == cache[0]);
        assert(cache.push(e).skip(1) =~= cache.skip(1).push(e));
        lemma_lookup_push(cache.skip(1), e, dir);
        if cache[0].gitignore_dir@ == dir {
            assert(cached(cache, dir));
            assert(cached(cache.push(e), dir));
        } else {
            assert(cached(cache, dir) == cached(cache.skip(1), dir)) by {
                if cached(cache, dir) {
                    let i = choose|i: int|
                        0 <= i < cache.len() && cache[i].gitignore_dir@ == dir;
                    assert(i > 0);
                    assert(cache.skip(1)[i - 1].gitignore_dir@ == dir);
                }
                if cached(cache.skip(1), dir) {
                    let i = choose|i: int|
                        0 <= i < cache.skip(1).len() && cache.skip(1)[i].gitignore_dir@ == dir;
                    assert(cache[i + 1].gitignore_dir@ == dir);
                }
            }
            assert(cached(cache.push(e), dir) == cached(cache.skip(1).push(e), dir)) by {
                if cached(cache.push(e), dir) {
                    let i = choose|i: int|
                        0 <= i < cache.push(e).len() && cache.push(e)[i].gitignore_dir@ == dir;
                    assert(i > 0);
                    assert(cache.skip(1).push(e)[i - 1].gitignore_dir@ == dir);
                }
                if cached(cache.skip(1).push(e), dir) {
                    let i = choose|i: int|
                        0 <= i < cache.skip(1).push(e).len() && cache.skip(1).push(e)[
                            i
                        ].gitignore_dir@ == dir;
                    assert(cache.push(e)[i + 1].gitignore_dir@ == dir);
                }
            }
        }
    }
}

impl Ignore {
    /// An empty resolver for `root`: no directory loaded yet.
    pub fn new(root: &str) -> (r: Self)
        ensures
            r.root@ == root.spec_bytes(),
            r.cache@ == Seq::<IgnoreRules>::empty(),
    {
        let rb = root.as_bytes();
        Ignore { root: slice_to_vec(rb), cache: Vec::new() }
    }

    /// A resolver for `root` with the root directory's exclusion rules
    /// loaded from `content` (`None` when the root has no exclusion file).
    pub fn from_gitignore(root: &str, content: Option<&str>) -> (r: Self)
        ensures
            r.root@ == root.spec_bytes(),
            cached(r.cache@, root.spec_bytes()),
            lookup_rules(r.cache@, root.spec_bytes()) == match content {
                Some(c) => parse_rules_spec(c.spec_bytes()),
                None => Seq::<RuleRec>::empty(),
            },
            forall|d2: Seq<u8>|
                d2 != root.spec_bytes() ==> lookup_rules(r.cache@, d2) == Seq::<RuleRec>::empty(),
    {
        let mut ig = Ignore::new(root);
        let rb = root.as_bytes();
        ig.load_dir_rules(rb, content);
        ig
    }

    /// The index of a directory's cache entry.
    fn lookup_idx(&self, dir: &[u8]) -> (r: Option<usize>)
        ensures
            match r {
                Some(i) => i < self.cache@.len() && self.cache@[i as int].gitignore_dir@ == dir@
                    && rules_view(self.cache@[i as int].patterns@) == lookup_rules(
                    self.cache@,
                    dir@,
                ) && cached(self.cache@, dir@),
                None => !cached(self.cache@, dir@) && lookup_rules(self.cache@, dir@) == Seq::<
                    RuleRec,
                >::empty(),
            },
    {
        let mut k: usize = 0;
        assert(self.cache@.skip(0) =~= self.cache@);
        while k < self.cache.len()
            invariant
                0 <= k <= self.cache@.len(),
                lookup_rules(self.cache@, dir@) == lookup_rules(self.cache@.skip(k as int), dir@),
                forall|j: int| 0 <= j < k ==> self.cache@[j].gitignore_dir@ != dir@,
            decreases self.cache@.len() - k,
        {
            let ghost rest = self.cache@.skip(k as int);
            assert(rest[0] == self.cache@[k as int]);
            let entry = &self.cache[k];
            if bytes_eq(entry.gitignore_dir.as_slice(), dir) {
                assert(lookup_rules(rest, dir@) == rules_view(self.cache@[k as int].patterns@));
                return Some(k);
            }
            assert(rest.skip(1) =~= self.cache@.skip(k + 1));
            k = k + 1;
        }
        assert(self.cache@.skip(k as int) =~= Seq::<IgnoreRules>::empty());
        assert forall|i: int|
            !(0 <= i < self.cache@.len() && self.cache@[i].gitignore_dir@ == dir@) by {}
        None
    }

    /// Loads a directory's rules (write-once): parses the exclusion file
    /// content the caller read for that directory, `None` standing for an
    /// absent file. A directory already cached is left as it is.
    pub fn load_dir_rules(&mut self, dir: &[u8], content: Option<&str>)
        ensures
            final(self).root == old(self).root,
            cached(final(self).cache@, dir@),
            lookup_rules(final(self).cache@, dir@) == if cached(old(self).cache@, dir@) {
                lookup_rules(old(self).cache@, dir@)
            } else {
                match content {
                    Some(c) => parse_rules_spec(c.spec_bytes()),
                    None => Seq::<RuleRec>::empty(),
                }
            },
            forall|d2: Seq<u8>|
                d2 != dir@ ==> lookup_rules(final(self).cache@, d2) == lookup_rules(
                    old(self).cache@,
                    d2,
                ),
            forall|d2: Seq<u8>|
                d2 != dir@ ==> cached(final(self).cache@, d2) == cached(old(self).cache@, d2),
    {
        if self.lookup_idx(dir).is_some() {
            return ;
        }
        let patterns = match content {
            Some(c) => parse_rules(c),
            None => Vec::new(),
        };
        assert(rules_view(patterns@) == match content {
            Some(c) => parse_rules_spec(c.spec_bytes()),
            None => Seq::<RuleRec>::empty(),
        });
        let entry = IgnoreRules { patterns, gitignore_dir: slice_to_vec(dir) };
        let ghost oldcache = self.cache@;
        let ghost e = entry;
        self.cache.push(entry);
        proof {
            lemma_lookup_push(oldcache, e, dir@);
            assert forall|d2: Seq<u8>| d2 != dir@ implies lookup_rules(self.cache@, d2)
                == lookup_rules(oldcache, d2) && cached(self.cache@, d2) == cached(
                oldcache,
                d2,
            ) by {
                lemma_lookup_push(oldcache, e, d2);
            }
        }
    }

    /// The directories whose rules govern `path` (taken as a file): the
    /// root down to the path's parent, in evaluation order. The caller
    /// loads each one's exclusion file before asking `should_ignore`.
    pub fn find_gitignore_chain(&self, path: &str) -> (r: Vec<Vec<u8>>)
        ensures
            paths_view(r@) == chain_of(self.root@, parent_dir(path.spec_bytes())),
    {
        let pb = path.as_bytes();
        let (parent, _name) = split_path(pb);
        chain_dirs(self.root.as_slice(), parent.as_slice())
    }

    /// Whether the loaded exclusion rules ignore `path` (taken as a file):
    /// every rule of every chain directory is applied in order, a match
    /// setting the state to ignored, a negated match back to kept; the last
    /// match decides. A path outside the root is never ignored.
    pub fn should_ignore(&self, path: &str) -> (r: bool)
        ensures
            r == should_ignore_spec(self.root@, self.cache@, path.spec_bytes()),
    {
        let ghost pp = path.spec_bytes();
        let pb = path.as_bytes();
        if rel_to_exec(self.root.as_slice(), pb).is_none() {
            return false;
        }
        let (parent, _name) = split_path(pb);
        let dirs = chain_dirs(self.root.as_slice(), parent.as_slice());
        let ghost dseq = paths_view(dirs@);
        let mut st = false;
        let mut k: usize = 0;
        assert(dseq.skip(0) =~= dseq);
        while k < dirs.len()
            invariant
                0 <= k <= dirs@.len(),
                dseq == paths_view(dirs@),
                pb@ == pp,
                eval_dirs(self.cache@, dseq.skip(k as int), pp, st) == eval_dirs(
                    self.cache@,
                    dseq,
                    pp,
                    false,
                ),
            decreases dirs@.len() - k,
        {
            let ghost rest = dseq.skip(k as int);
            assert(rest[0] == dirs@[k as int]@);
            assert(eval_dirs(self.cache@, rest, pp, st) == eval_dirs(
                self.cache@,
                rest.skip(1),
                pp,
                apply_dir(self.cache@, rest[0], pp, st),
            ));
            let d = &dirs[k];
            match rel_to_exec(d.as_slice(), pb) {
                None => {
                    assert(apply_dir(self.cache@, rest[0], pp, st) == st);
                },
                Some(rel) => {
                    let ghost rulesv = lookup_rules(self.cache@, dirs@[k as int]@);
                    match self.lookup_idx(d.as_slice()) {
                        None => {
                            assert(eval_rules(rulesv, rel@, st) == st);
                            assert(apply_dir(self.cache@, rest[0], pp, st) == st);
                        },
                        Some(ci) => {
                            let entry = &self.cache[ci];
                            let ghost st0 = st;
                            let mut t: usize = 0;
                            assert(rulesv.skip(0) =~= rulesv);
                            while t < entry.patterns.len()
                                invariant
                                    0 <= t <= entry.patterns@.len(),
                                    rulesv == rules_view(entry.patterns@),
                                    eval_rules(rulesv.skip(t as int), rel@, st) == eval_rules(
                                        rulesv,
                                        rel@,
                                        st0,
                                    ),
                                decreases entry.patterns@.len() - t,
                            {
                                let ghost rrest = rulesv.skip(t as int);
                                assert(rrest[0] == rulesv[t as int]);
                                assert(rulesv[t as int] == entry.patterns@[t as int]@);
                                let ru = &entry.patterns[t];
                                if match_pattern(ru.rule.as_slice(), rel, ru.is_directory) {
                                    st = !ru.is_negation;
                                } else {
                                }
                                assert(rrest.skip(1) =~= rulesv.skip(t + 1));
                                t = t + 1;
                            }
                            assert(rulesv.skip(entry.patterns@.len() as int) =~= Seq::<
                                RuleRec,
                            >::empty());
                            assert(eval_rules(Seq::<RuleRec>::empty(), rel@, st) == st);
                            assert(eval_rules(rulesv, rel@, st0) == st);
                            assert(apply_dir(self.cache@, rest[0], pp, st0) == st);
                        },
                    }
                },
            }
            assert(rest.skip(1) =~= dseq.skip(k + 1));
            k = k + 1;
        }
        assert(dseq.skip(k as int) =~= Seq::<Seq<u8>>::empty());
        st
    }
}

// ---------------------------------------------------------------------------
// Evaluation
// ---------------------------------------------------------------------------

/// One rule set applied in order to a relative path: a matching rule sets
/// the state to ignored, a matching negated rule back to kept.
pub open spec fn eval_rules(rules: Seq<RuleRec>, rel: Seq<u8>, st: bool) -> bool
    decreases rules.len(),
{
    if rules.len() == 0 {
        st
    } else {
        eval_rules(
            rules.skip(1),
            rel,
            if match_pattern_spec(rules[0].rule, rel, rules[0].dir_scoped) {
                !rules[0].negated
            } else {
                st
            },
        )
    }
}

/// One chain directory applied to a path: its rules run against the path
/// relative to that directory; a directory the path does not lie under
/// contributes nothing.
pub open spec fn apply_dir(cache: Seq<IgnoreRules>, d: Seq<u8>, path: Seq<u8>, st: bool) -> bool {
    match rel_to(d, path) {
        Some(r) => eval_rules(lookup_rules(cache, d), r, st),
        None => st,
    }
}

/// A whole chain applied in order, root first.
pub open spec fn eval_dirs(
    cache: Seq<IgnoreRules>,
    dirs: Seq<Seq<u8>>,
    path: Seq<u8>,
    st: bool,
) -> bool
    decreases dirs.len(),
{
    if dirs.len() == 0 {
        st
    } else {
        eval_dirs(cache, dirs.skip(1), path, apply_dir(cache, dirs[0], path, st))
    }
}

/// Whether the loaded rules ignore a path: the full chain from the root to
/// the path's parent, evaluated from the kept state; a path outside the
/// root is never ignored.
pub open spec fn should_ignore_spec(root: Seq<u8>, cache: Seq<IgnoreRules>, path: Seq<u8>) -> bool {
    if rel_to(root, path) is None {
        false
    } else {
        eval_dirs(cache, chain_of(root, parent_dir(path)), path, false)
    }
}

// ---------------------------------------------------------------------------
// Precedence
// ---------------------------------------------------------------------------

/// Whether one rule matches a relative path.
pub open spec fn rule_matches(r: RuleRec, rel: Seq<u8>) -> bool {
    match_pattern_spec(r.rule, rel, r.dir_scoped)
}

/// A rule set in which nothing matches leaves the state alone.
pub proof fn lemma_rules_no_match(rules: Seq<RuleRec>, rel: Seq<u8>, st: bool)
    requires
        forall|j: int| 0 <= j < rules.len() ==> !rule_matches(#[trigger] rules[j], rel),
    ensures
        eval_rules(rules, rel, st) == st,
    decreases rules.len(),
{
    if rules.len() > 0 {
        assert(!rule_matches(rules[0], rel));
        assert(forall|j: int|
            0 <= j < rules.skip(1).len() ==> rules.skip(1)[j] == rules[j + 1]);
        lemma_rules_no_match(rules.skip(1), rel, st);
    }
}

/// Within one rule set, the last matching rule decides the state, whatever
/// held before.
pub proof fn lemma_last_match_wins(rules: Seq<RuleRec>, rel: Seq<u8>, st: bool, i: int)
    requires
        0 <= i < rules.len(),
        rule_matches(rules[i], rel),
        forall|j: int| i < j < rules.len() ==> !rule_matches(#[trigger] rules[j], rel),
    ensures
        eval_rules(rules, rel, st) == !rules[i].negated,
    decreases rules.len(),
{
    assert(forall|j: int| 0 <= j < rules.skip(1).len() ==> rules.skip(1)[j] == rules[j + 1]);
    if i == 0 {
        lemma_rules_no_match(rules.skip(1), rel, !rules[0].negated);
    } else {
        lemma_last_match_wins(
            rules.skip(1),
            rel,
            if rule_matches(rules[0], rel) {
                !rules[0].negated
            } else {
                st
            },
            i - 1,
        );
    }
}

/// No rule of directory `d` matches `path` (or the path does not lie
/// under `d`).
pub open spec fn dir_has_no_match(cache: Seq<IgnoreRules>, d: Seq<u8>, path: Seq<u8>) -> bool {
    match rel_to(d, path) {
        Some(r) => forall|j: int|
            0 <= j < lookup_rules(cache, d).len() ==> !rule_matches(
                #[trigger] lookup_rules(cache, d)[j],
                r,
            ),
        None => true,
    }
}

proof fn lemma_dirs_no_match(cache: Seq<IgnoreRules>, dirs: Seq<Seq<u8>>, path: Seq<u8>, st: bool)
    requires
        forall|k: int| 0 <= k < dirs.len() ==> dir_has_no_match(cache, #[trigger] dirs[k], path),
    ensures
        eval_dirs(cache, dirs, path, st) == st,
    decreases dirs.len(),
{
    if dirs.len() > 0 {
        assert(dir_has_no_match(cache, dirs[0], path));
        match rel_to(dirs[0], path) {
            Some(r) => {
                lemma_rules_no_match(lookup_rules(cache, dirs[0]), r, st);
            },
            None => {},
        }
        assert(apply_dir(cache, dirs[0], path, st) == st);
        assert(forall|k: int| 0 <= k < dirs.skip(1).len() ==> dirs.skip(1)[k] == dirs[k + 1]);
        lemma_dirs_no_match(cache, dirs.skip(1), path, st);
    }
}

/// Exclusion precedence: when a negated rule of a descendant directory in
/// the chain matches a path and nothing after it matches — neither a later
/// rule of that directory nor any rule of the directories below — the path
/// is not ignored, whatever any ancestor rule (matching and non-negated as
/// it may be) said before.
pub proof fn lemma_descendant_negation_overrides(
    cache: Seq<IgnoreRules>,
    dirs: Seq<Seq<u8>>,
    path: Seq<u8>,
    st: bool,
    k: int,
    i: int,
    rel: Seq<u8>,
)
    requires
        0 <= k < dirs.len(),
        rel_to(dirs[k], path) == Some(rel),
        0 <= i < lookup_rules(cache, dirs[k]).len(),
        rule_matches(lookup_rules(cache, dirs[k])[i], rel),
        lookup_rules(cache, dirs[k])[i].negated,
        forall|j: int|
            i < j < lookup_rules(cache, dirs[k]).len() ==> !rule_matches(
                #[trigger] lookup_rules(cache, dirs[k])[j],
                rel,
            ),
        forall|k2: int| k < k2 < dirs.len() ==> dir_has_no_match(cache, #[trigger] dirs[k2], path),
    ensures
        eval_dirs(cache, dirs, path, st) == false,
    decreases dirs.len(),
{
    assert(forall|k2: int| 0 <= k2 < dirs.skip(1).len() ==> dirs.skip(1)[k2] == dirs[k2 + 1]);
    if k == 0 {
        lemma_last_match_wins(lookup_rules(cache, dirs[0]), rel, st, i);
        assert(apply_dir(cache, dirs[0], path, st) == false);
        lemma_dirs_no_match(cache, dirs.skip(1), path, false);
    } else {
        lemma_descendant_negation_overrides(
            cache,
            dirs.skip(1),
            path,
            apply_dir(cache, dirs[0], path, st),
            k - 1,
            i,
            rel,
        );
    }
}

} // verus!
