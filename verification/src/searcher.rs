//! Per-file scanning: splitting content into lines, matching each line, and
//! numbering the results.
//!
//! Two strategies exist, chosen by file size: scanning a whole buffer (the
//! memory-mapped path) and scanning fixed-size chunks with carryover of the
//! trailing partial line (the buffered path). Both are pinned to the same
//! specification, `scan_spec`, so they agree on every input.

use vstd::prelude::*;
use vstd::slice::slice_subrange;
use vstd::string::StringSliceAdditionalSpecFns;
use vstd::utf8::valid_utf8;
use vstd::utf8::decode_utf8;
use vstd::utf8::encode_utf8;
use vstd::utf8::decode_utf8_encode_utf8;
use crate::matcher::{Match, MatchRec, Matcher, match_recs, pair_lt};

verus! {

/// Files larger than this many bytes are scanned through the
/// memory-mapped strategy.
pub const MMAP_THRESHOLD: u64 = 128 * 1024;

/// The chunk size of the buffered strategy.
pub const BUFFER_SIZE: usize = 64 * 1024;

/// Whether a file of `size` bytes should be scanned through the
/// memory-mapped strategy.
pub fn should_use_mmap(size: u64) -> (r: bool)
    ensures
        r == (size > MMAP_THRESHOLD),
{
    size > MMAP_THRESHOLD
}

// ---------------------------------------------------------------------------
// Lines of a byte buffer
// ---------------------------------------------------------------------------

/// Splits `data` into lines at each newline byte, `cur` being the partial
/// line carried in from the left. Each newline terminates a line; a
/// nonempty trailing fragment is a final line of its own.
pub open spec fn split_lines(data: Seq<u8>, cur: Seq<u8>) -> Seq<Seq<u8>>
    decreases data.len(),
{
    if data.len() == 0 {
        if cur.len() == 0 {
            Seq::empty()
        } else {
            seq![cur]
        }
    } else if data[0] == 10 {
        seq![cur] + split_lines(data.skip(1), Seq::empty())
    } else {
        split_lines(data.skip(1), cur.push(data[0]))
    }
}

/// The lines of a byte buffer.
pub open spec fn lines_of(data: Seq<u8>) -> Seq<Seq<u8>> {
    split_lines(data, Seq::empty())
}

/// Splitting distributes over concatenation when the left part ends with a
/// newline (no line straddles the boundary).
proof fn lemma_split_append(a: Seq<u8>, b: Seq<u8>, cur: Seq<u8>)
    requires
        a.len() > 0,
        a.last() == 10,
    ensures
        split_lines(a + b, cur) == split_lines(a, cur) + split_lines(b, Seq::empty()),
    decreases a.len(),
{
    let t = a.skip(1);
    assert((a + b).len() > 0);
    assert((a + b)[0] == a[0]);
    assert((a + b).skip(1) =~= t + b);
    if a[0] == 10 {
        if t.len() == 0 {
            assert(t + b =~= b);
            assert(t =~= Seq::<u8>::empty());
            assert(split_lines(Seq::<u8>::empty(), Seq::<u8>::empty()) =~= Seq::<Seq<u8>>::empty());
            assert(split_lines(a, cur) =~= seq![cur]);
            assert(split_lines(a + b, cur) == seq![cur] + split_lines(b, Seq::empty()));
        } else {
            assert(t.last() == a.last());
            lemma_split_append(t, b, Seq::empty());
            assert(seq![cur] + (split_lines(t, Seq::empty()) + split_lines(b, Seq::empty()))
                =~= (seq![cur] + split_lines(t, Seq::empty())) + split_lines(b, Seq::empty()));
        }
    } else {
        assert(t.len() > 0 && t.last() == 10);
        lemma_split_append(t, b, cur.push(a[0]));
    }
}

/// A buffer without newlines is one line (or none, when it and the carried
/// partial line are both empty).
proof fn lemma_split_no_nl(c: Seq<u8>, cur: Seq<u8>)
    requires
        forall|k: int| 0 <= k < c.len() ==> c[k] != 10,
    ensures
        split_lines(c, cur) == if cur.len() + c.len() == 0 {
            Seq::<Seq<u8>>::empty()
        } else {
            seq![cur + c]
        },
    decreases c.len(),
{
    if c.len() == 0 {
        assert(cur + c =~= cur);
        if cur.len() != 0 {
            assert(split_lines(c, cur) =~= seq![cur]);
        }
    } else {
        assert(c[0] != 10);
        lemma_split_no_nl(c.skip(1), cur.push(c[0]));
        assert(cur.push(c[0]) + c.skip(1) =~= cur + c);
        assert(cur.push(c[0]).len() + c.skip(1).len() != 0);
    }
}

/// There are never more lines than bytes (plus the carried partial line).
proof fn lemma_lines_count(data: Seq<u8>, cur: Seq<u8>)
    ensures
        split_lines(data, cur).len() <= data.len() + if cur.len() == 0 {
            0int
        } else {
            1int
        },
    decreases data.len(),
{
    if data.len() == 0 {
    } else if data[0] == 10 {
        lemma_lines_count(data.skip(1), Seq::empty());
    } else {
        lemma_lines_count(data.skip(1), cur.push(data[0]));
    }
}

// ---------------------------------------------------------------------------
// The scan specification
// ---------------------------------------------------------------------------

/// The match records of one line: the matcher's offsets, stamped with the
/// line number and the line's decoded text.
pub open spec fn line_match_recs(offs: Seq<(int, int)>, num: int, content: Seq<char>) -> Seq<
    MatchRec,
> {
    offs.map_values(|p: (int, int)| MatchRec { start: p.0, end: p.1, line: num, content })
}

/// What scanning one line yields: the stamped matches when the line is
/// text, nothing when it is not decodable (such a line is silently
/// dropped, though it still counts for line numbering).
pub open spec fn line_scan<M: Matcher>(m: M, line: Seq<u8>, num: int) -> Seq<MatchRec> {
    if valid_utf8(line) {
        line_match_recs(m.find_spec(line), num, decode_utf8(line))
    } else {
        Seq::empty()
    }
}

/// The matches of a sequence of lines, numbered from `first`.
pub open spec fn matches_of_lines<M: Matcher>(m: M, lines: Seq<Seq<u8>>, first: int) -> Seq<
    MatchRec,
>
    decreases lines.len(),
{
    if lines.len() == 0 {
        Seq::empty()
    } else {
        line_scan(m, lines[0], first) + matches_of_lines(m, lines.skip(1), first + 1)
    }
}

/// What scanning a file's bytes yields: every line matched in order,
/// numbered from 1.
pub open spec fn scan_spec<M: Matcher>(m: M, data: Seq<u8>) -> Seq<MatchRec> {
    matches_of_lines(m, lines_of(data), 1)
}

/// Well-formed scan output: 1-based line numbers, offsets within the
/// line's text (counted in bytes of its encoding), and matches ordered by
/// ascending line, then strictly by `(start, end)` within one line.
pub open spec fn scan_results_wf(ms: Seq<MatchRec>) -> bool {
    &&& forall|k: int|
        0 <= k < ms.len() ==> 1 <= (#[trigger] ms[k]).line && 0 <= ms[k].start <= ms[k].end
            <= encode_utf8(ms[k].content).len()
    &&& forall|i: int, j: int|
        0 <= i < j < ms.len() ==> (#[trigger] ms[i]).line < (#[trigger] ms[j]).line || (ms[i].line
            == ms[j].line && pair_lt((ms[i].start, ms[i].end), (ms[j].start, ms[j].end)))
}

/// Appending a block of matches from lines at or past `n` to well-formed
/// results from lines before `n` keeps the results well formed.
proof fn lemma_results_append(a: Seq<MatchRec>, b: Seq<MatchRec>, n: int)
    requires
        scan_results_wf(a),
        scan_results_wf(b),
        forall|k: int| 0 <= k < a.len() ==> (#[trigger] a[k]).line < n,
        forall|k: int| 0 <= k < b.len() ==> n <= (#[trigger] b[k]).line,
    ensures
        scan_results_wf(a + b),
{
    let c = a + b;
    assert forall|k: int|
        0 <= k < c.len() implies 1 <= (#[trigger] c[k]).line && 0 <= c[k].start <= c[k].end
            <= encode_utf8(c[k].content).len() by {
        if k < a.len() {
            assert(c[k] == a[k]);
        } else {
            assert(c[k] == b[k - a.len()]);
        }
    }
    assert forall|i: int, j: int|
        0 <= i < j < c.len() implies (#[trigger] c[i]).line < (#[trigger] c[j]).line || (c[i].line
            == c[j].line && pair_lt((c[i].start, c[i].end), (c[j].start, c[j].end))) by {
        if j < a.len() {
            assert(c[i] == a[i] && c[j] == a[j]);
        } else if i >= a.len() {
            assert(c[i] == b[i - a.len()] && c[j] == b[j - a.len()]);
        } else {
            assert(c[i] == a[i] && c[j] == b[j - a.len()]);
        }
    }
}

proof fn lemma_matches_concat<M: Matcher>(m: M, a: Seq<Seq<u8>>, b: Seq<Seq<u8>>, first: int)
    ensures
        matches_of_lines(m, a + b, first) == matches_of_lines(m, a, first) + matches_of_lines(
            m,
            b,
            first + a.len(),
        ),
    decreases a.len(),
{
    if a.len() == 0 {
        assert(a + b =~= b);
        assert(Seq::<MatchRec>::empty() + matches_of_lines(m, b, first) =~= matches_of_lines(
            m,
            b,
            first,
        ));
    } else {
        assert((a + b).len() > 0);
        assert((a + b)[0] == a[0]);
        assert((a + b).skip(1) =~= a.skip(1) + b);
        lemma_matches_concat(m, a.skip(1), b, first + 1);
        assert(line_scan(m, a[0], first) + (matches_of_lines(m, a.skip(1), first + 1)
            + matches_of_lines(m, b, first + a.len())) =~= (line_scan(m, a[0], first)
            + matches_of_lines(m, a.skip(1), first + 1)) + matches_of_lines(
            m,
            b,
            first + a.len(),
        ));
    }
}

proof fn lemma_matches_push<M: Matcher>(m: M, lines: Seq<Seq<u8>>, l: Seq<u8>, first: int)
    ensures
        matches_of_lines(m, lines.push(l), first) == matches_of_lines(m, lines, first)
            + line_scan(m, l, first + lines.len()),
{
    assert(lines.push(l) =~= lines + seq![l]);
    lemma_matches_concat(m, lines, seq![l], first);
    assert(seq![l].len() == 1 && seq![l][0] == l);
    assert(seq![l].skip(1) =~= Seq::<Seq<u8>>::empty());
    assert(matches_of_lines(m, Seq::<Seq<u8>>::empty(), first + lines.len() + 1) =~= Seq::<
        MatchRec,
    >::empty());
    assert(matches_of_lines(m, seq![l], first + lines.len()) == line_scan(
        m,
        l,
        first + lines.len(),
    ) + Seq::<MatchRec>::empty());
    assert(line_scan(m, l, first + lines.len()) + Seq::<MatchRec>::empty() =~= line_scan(
        m,
        l,
        first + lines.len(),
    ));
}

// ---------------------------------------------------------------------------
// The scanner
// ---------------------------------------------------------------------------

/// Relies on std's str::from_utf8: it returns `Ok` exactly on valid UTF-8
/// input, and the returned text decodes those bytes (vstd's decode_utf8).
#[verifier::external_body]
fn try_decode(bytes: &[u8]) -> (r: Option<&str>)
    ensures
        r is Some <==> valid_utf8(bytes@),
        r matches Some(s) ==> s@ == decode_utf8(bytes@),
{
    core::str::from_utf8(bytes).ok()
}

/// Scans files with a matcher, producing matches in ascending line order.
pub struct Searcher<M: Matcher> {
    /// The compiled pattern shared by every scan.
    pub matcher: M,
}

impl<M: Matcher> Searcher<M> {
    pub fn new(matcher: M) -> (r: Self)
        ensures
            r.matcher == matcher,
    {
        Searcher { matcher }
    }

    /// Matches one line and stamps the results with its number and text.
    fn scan_line(&self, line: &[u8], num: usize) -> (r: Vec<Match>)
        requires
            self.matcher.matcher_wf(),
            num >= 1,
        ensures
            match_recs(r@) == line_scan(self.matcher, line@, num as int),
            scan_results_wf(match_recs(r@)),
            forall|k: int|
                0 <= k < match_recs(r@).len() ==> (#[trigger] match_recs(r@)[k]).line
                    == num as int,
    {
        match try_decode(line) {
            None => {
                let r: Vec<Match> = Vec::new();
                assert(match_recs(r@) =~= Seq::<MatchRec>::empty());
                r
            },
            Some(s) => {
                proof {
                    decode_utf8_encode_utf8(line@);
                    assert(s.spec_bytes() == line@);
                }
                let found = self.matcher.find_matches(s);
                let ghost offs = self.matcher.find_spec(line@);
                let ghost target = line_match_recs(offs, num as int, decode_utf8(line@));
                let mut r: Vec<Match> = Vec::new();
                let mut k: usize = 0;
                while k < found.len()
                    invariant
                        0 <= k <= found@.len(),
                        self.matcher.matcher_wf(),
                        offs == self.matcher.find_spec(line@),
                        crate::matcher::match_offsets(found@) == offs,
                        target == line_match_recs(offs, num as int, decode_utf8(line@)),
                        s@ == decode_utf8(line@),
                        r@.len() == k,
                        forall|t: int| 0 <= t < k ==> #[trigger] r@[t]@ == target[t],
                        forall|t: int|
                            0 <= t < found@.len() ==> (#[trigger] found@[t]).line == 0 && found@[
                                t
                            ].content@ == Seq::<char>::empty(),
                    decreases found@.len() - k,
                {
                    let mm = &found[k];
                    let content = s.to_owned();
                    r.push(Match::new(mm.start, mm.end, num, content));
                    assert(offs[k as int] == (found@[k as int].start as int, found@[
                        k as int
                    ].end as int));
                    k = k + 1;
                }
                assert(match_recs(r@) =~= target);
                proof {
                    assert(crate::matcher::sorted_strict(offs));
                    assert forall|t: int|
                        0 <= t < target.len() implies 1 <= (#[trigger] target[t]).line && 0
                            <= target[t].start <= target[t].end <= encode_utf8(
                            target[t].content,
                        ).len() by {
                        assert(target[t].start == offs[t].0 && target[t].end == offs[t].1);
                        assert(offs[t] == (found@[t].start as int, found@[t].end as int));
                        assert(found@[t].start <= found@[t].end <= s.spec_bytes().len());
                        assert(target[t].content == decode_utf8(line@));
                        assert(encode_utf8(decode_utf8(line@)) == line@);
                    }
                    assert forall|t1: int, t2: int|
                        0 <= t1 < t2 < target.len() implies pair_lt(
                        (target[t1].start, target[t1].end),
                        (target[t2].start, target[t2].end),
                    ) by {
                        assert(pair_lt(offs[t1], offs[t2]));
                        assert(target[t1].start == offs[t1].0 && target[t1].end == offs[t1].1);
                        assert(target[t2].start == offs[t2].0 && target[t2].end == offs[t2].1);
                    }
                    assert forall|t: int|
                        0 <= t < target.len() implies (#[trigger] target[t]).line
                            == num as int by {}
                }
                r
            },
        }
    }

    /// Scans a whole region: every newline-terminated line, then a nonempty
    /// trailing fragment as a final line, numbered from `first_line`.
    /// Returns the matches and the next unused line number.
    fn scan_region(&self, data: &[u8], first_line: usize) -> (r: (Vec<Match>, usize))
        requires
            self.matcher.matcher_wf(),
            first_line >= 1,
            first_line + data@.len() <= usize::MAX,
        ensures
            match_recs(r.0@) == matches_of_lines(
                self.matcher,
                lines_of(data@),
                first_line as int,
            ),
            data@.len() == 0 || data@.last() == 10 ==> r.1 as int == first_line + lines_of(
                data@,
            ).len(),
            r.1 >= first_line,
            scan_results_wf(match_recs(r.0@)),
            forall|k: int|
                0 <= k < match_recs(r.0@).len() ==> first_line <= (#[trigger] match_recs(
                    r.0@,
                )[k]).line <= r.1,
            data@.len() == 0 || data@.last() == 10 ==> forall|k: int|
                0 <= k < match_recs(r.0@).len() ==> (#[trigger] match_recs(r.0@)[k]).line < r.1,
    {
        let mut acc: Vec<Match> = Vec::new();
        let mut line_num: usize = first_line;
        let mut ls: usize = 0;
        let mut i: usize = 0;
        let ghost mut done: Seq<Seq<u8>> = Seq::empty();
        assert(data@.skip(0) =~= data@);
        assert(data@.subrange(0, 0) =~= Seq::<u8>::empty());
        assert(matches_of_lines(self.matcher, done, first_line as int) =~= Seq::<
            MatchRec,
        >::empty());
        assert(match_recs(acc@) =~= Seq::<MatchRec>::empty());
        while i < data.len()
            invariant
                self.matcher.matcher_wf(),
                0 <= ls <= i <= data@.len(),
                first_line >= 1,
                first_line + data@.len() <= usize::MAX,
                done.len() <= ls,
                line_num as int == first_line + done.len(),
                lines_of(data@) == done + split_lines(
                    data@.skip(i as int),
                    data@.subrange(ls as int, i as int),
                ),
                match_recs(acc@) == matches_of_lines(self.matcher, done, first_line as int),
                scan_results_wf(match_recs(acc@)),
                forall|k: int|
                    0 <= k < match_recs(acc@).len() ==> first_line <= (#[trigger] match_recs(
                        acc@,
                    )[k]).line < line_num,
                forall|k: int| ls <= k < i ==> data@[k] != 10,
            decreases data@.len() - i,
        {
            let ghost rest = data@.skip(i as int);
            let ghost cur = data@.subrange(ls as int, i as int);
            let b = data[i];
            assert(rest[0] == b);
            if b == 10 {
                assert(split_lines(rest, cur) == seq![cur] + split_lines(
                    rest.skip(1),
                    Seq::empty(),
                ));
                let line = slice_subrange(data, ls, i);
                let mut found = self.scan_line(line, line_num);
                let ghost blk = match_recs(found@);
                let ghost old_acc = acc@;
                acc.append(&mut found);
                proof {
                    assert(match_recs(acc@) =~= match_recs(old_acc) + blk);
                    assert(match_recs(acc@) =~= match_recs(old_acc) + line_scan(
                        self.matcher,
                        cur,
                        line_num as int,
                    ));
                    lemma_matches_push(self.matcher, done, cur, first_line as int);
                    done = done.push(cur);
                    lemma_results_append(match_recs(old_acc), blk, line_num as int);
                }
                ls = i + 1;
                assert(rest.skip(1) =~= data@.skip(i + 1));
                assert(data@.subrange(ls as int, ls as int) =~= Seq::<u8>::empty());
                line_num = line_num + 1;
            } else {
                assert(split_lines(rest, cur) == split_lines(rest.skip(1), cur.push(b)));
                assert(rest.skip(1) =~= data@.skip(i + 1));
                assert(cur.push(b) =~= data@.subrange(ls as int, i + 1));
            }
            i = i + 1;
        }
        let ghost frag = data@.subrange(ls as int, data@.len() as int);
        assert(data@.skip(i as int) =~= Seq::<u8>::empty());
        if ls < data.len() {
            assert(frag.len() > 0);
            assert(split_lines(Seq::<u8>::empty(), frag) == seq![frag]);
            let line = slice_subrange(data, ls, data.len());
            let mut found = self.scan_line(line, line_num);
            let ghost blk = match_recs(found@);
            let ghost old_acc = acc@;
            acc.append(&mut found);
            proof {
                assert(match_recs(acc@) =~= match_recs(old_acc) + blk);
                assert(match_recs(acc@) =~= match_recs(old_acc) + line_scan(
                    self.matcher,
                    frag,
                    line_num as int,
                ));
                lemma_matches_push(self.matcher, done, frag, first_line as int);
                lemma_results_append(match_recs(old_acc), blk, line_num as int);
            }
            assert(lines_of(data@) == done.push(frag));
            (acc, line_num)
        } else {
            assert(frag.len() == 0);
            assert(split_lines(Seq::<u8>::empty(), frag) =~= Seq::<Seq<u8>>::empty());
            assert(done + Seq::<Seq<u8>>::empty() =~= done);
            (acc, line_num)
        }
    }

    /// Scans a whole buffer at once: the memory-mapped strategy, the caller
    /// having mapped the file and handed its bytes in.
    pub fn scan_mapped(&self, data: &[u8]) -> (r: Vec<Match>)
        requires
            self.matcher.matcher_wf(),
            data@.len() < usize::MAX,
        ensures
            match_recs(r@) == scan_spec(self.matcher, data@),
            scan_results_wf(match_recs(r@)),
    {
        let (acc, _) = self.scan_region(data, 1);
        acc
    }

    /// Opens an incremental scan with nothing consumed yet.
    pub fn begin_scan(&self) -> (st: ScanState)
        requires
            self.matcher.matcher_wf(),
        ensures
            scan_wf(st, self.matcher),
            st.consumed@ == Seq::<u8>::empty(),
    {
        let st = ScanState {
            carryover: Vec::new(),
            next_line: 1,
            found: Vec::new(),
            consumed: Ghost(Seq::empty()),
        };
        proof {
            assert(scan_done(st) =~= Seq::<u8>::empty());
            assert(lines_of(scan_done(st)) =~= Seq::<Seq<u8>>::empty());
            assert(matches_of_lines(self.matcher, lines_of(scan_done(st)), 1) =~= Seq::<
                MatchRec,
            >::empty());
            assert(match_recs(st.found@) =~= Seq::<MatchRec>::empty());
        }
        st
    }

    /// Consumes one chunk: every line completed by it (including the
    /// carried-over partial line) is matched now; the bytes after its last
    /// newline become the new carryover.
    pub fn push_chunk(&self, st: &mut ScanState, chunk: &[u8])
        requires
            self.matcher.matcher_wf(),
            scan_wf(*old(st), self.matcher),
            old(st).next_line + old(st).carryover@.len() + chunk@.len() <= usize::MAX,
        ensures
            scan_wf(*final(st), self.matcher),
            final(st).consumed@ == old(st).consumed@ + chunk@,
    {
        let ghost d = scan_done(*st);
        let ghost c = st.carryover@;
        let mut buf: Vec<u8> = Vec::new();
        let mut k: usize = 0;
        while k < st.carryover.len()
            invariant
                0 <= k <= st.carryover@.len(),
                buf@ == st.carryover@.subrange(0, k as int),
                st == old(st),
            decreases st.carryover@.len() - k,
        {
            let b = st.carryover[k];
            buf.push(b);
            assert(buf@ =~= st.carryover@.subrange(0, k + 1));
            k = k + 1;
        }
        assert(buf@ =~= c);
        let mut k2: usize = 0;
        while k2 < chunk.len()
            invariant
                0 <= k2 <= chunk@.len(),
                buf@ == c + chunk@.subrange(0, k2 as int),
                st == old(st),
            decreases chunk@.len() - k2,
        {
            let b = chunk[k2];
            buf.push(b);
            assert(buf@ =~= c + chunk@.subrange(0, k2 + 1));
            k2 = k2 + 1;
        }
        assert(buf@ =~= c + chunk@);
        // Find the last newline of the combined buffer.
        let mut has_nl = false;
        let mut j: usize = 0;
        let mut t: usize = 0;
        while t < buf.len()
            invariant
                0 <= t <= buf@.len(),
                has_nl ==> j < t && buf@[j as int] == 10 && forall|q: int|
                    j < q < t ==> buf@[q] != 10,
                !has_nl ==> forall|q: int| 0 <= q < t ==> buf@[q] != 10,
                st == old(st),
            decreases buf@.len() - t,
        {
            if buf[t] == 10 {
                j = t;
                has_nl = true;
            }
            t = t + 1;
        }
        if has_nl {
            let head = slice_subrange(buf.as_slice(), 0, j + 1);
            assert(head@ =~= buf@.subrange(0, j + 1));
            assert(head@.last() == 10);
            let (mut new_found, nl) = self.scan_region(head, st.next_line);
            let mut carry2: Vec<u8> = Vec::new();
            let mut q: usize = j + 1;
            while q < buf.len()
                invariant
                    j + 1 <= q <= buf@.len(),
                    carry2@ == buf@.subrange(j + 1, q as int),
                    st == old(st),
                decreases buf@.len() - q,
            {
                let b = buf[q];
                carry2.push(b);
                assert(carry2@ =~= buf@.subrange(j + 1, q + 1));
                q = q + 1;
            }
            assert(carry2@ =~= buf@.subrange(j + 1, buf@.len() as int));
            let ghost old_found = st.found@;
            let ghost blk = match_recs(new_found@);
            let ghost old_next = st.next_line;
            st.found.append(&mut new_found);
            st.next_line = nl;
            st.carryover = carry2;
            proof {
                st.consumed@ = st.consumed@ + chunk@;
            }
            proof {
                let d2 = d + head@;
                assert(st.consumed@ =~= d2 + st.carryover@);
                assert(scan_done(*st) =~= d2);
                if d.len() == 0 {
                    assert(d2 =~= head@);
                    assert(lines_of(d) =~= Seq::<Seq<u8>>::empty());
                    assert(matches_of_lines(self.matcher, lines_of(d), 1) =~= Seq::<
                        MatchRec,
                    >::empty());
                    assert(lines_of(d2) == lines_of(head@));
                    assert(match_recs(st.found@) =~= match_recs(old_found) + matches_of_lines(
                        self.matcher,
                        lines_of(head@),
                        old(st).next_line as int,
                    ));
                } else {
                    lemma_split_append(d, head@, Seq::empty());
                    assert(lines_of(d2) == lines_of(d) + lines_of(head@));
                    lemma_matches_concat(self.matcher, lines_of(d), lines_of(head@), 1);
                    assert(match_recs(st.found@) =~= match_recs(old_found) + matches_of_lines(
                        self.matcher,
                        lines_of(head@),
                        old(st).next_line as int,
                    ));
                }
                assert(match_recs(st.found@) =~= match_recs(old_found) + blk);
                lemma_results_append(match_recs(old_found), blk, old_next as int);
                assert forall|k: int|
                    0 <= k < match_recs(st.found@).len() implies (#[trigger] match_recs(
                    st.found@,
                )[k]).line < st.next_line by {
                    let cc = match_recs(old_found) + blk;
                    assert(match_recs(st.found@)[k] == cc[k]);
                    if k < match_recs(old_found).len() {
                        assert(cc[k] == match_recs(old_found)[k]);
                    } else {
                        assert(cc[k] == blk[k - match_recs(old_found).len()]);
                    }
                }
            }
        } else {
            st.carryover = buf;
            proof {
                st.consumed@ = st.consumed@ + chunk@;
            }
            proof {
                assert(st.consumed@ =~= d + st.carryover@);
                assert(scan_done(*st) =~= d);
            }
        }
    }

    /// Closes an incremental scan: a nonempty carryover is the file's final,
    /// separator-less line. Returns every match of the consumed bytes.
    pub fn finish_scan(&self, st: ScanState) -> (r: Vec<Match>)
        requires
            self.matcher.matcher_wf(),
            scan_wf(st, self.matcher),
        ensures
            match_recs(r@) == scan_spec(self.matcher, st.consumed@),
            scan_results_wf(match_recs(r@)),
    {
        let ghost d = scan_done(st);
        let ghost c = st.carryover@;
        let mut found = st.found;
        if st.carryover.len() > 0 {
            let mut last = self.scan_line(st.carryover.as_slice(), st.next_line);
            let ghost blk = match_recs(last@);
            let ghost old_found = found@;
            found.append(&mut last);
            proof {
                assert(match_recs(found@) =~= match_recs(old_found) + blk);
                lemma_results_append(match_recs(old_found), blk, st.next_line as int);
                lemma_split_no_nl(c, Seq::empty());
                assert(Seq::<u8>::empty() + c =~= c);
                assert(lines_of(c) == seq![c]);
                if d.len() == 0 {
                    assert(st.consumed@ =~= c);
                    assert(lines_of(d) =~= Seq::<Seq<u8>>::empty());
                    assert(matches_of_lines(self.matcher, lines_of(d), 1) =~= Seq::<
                        MatchRec,
                    >::empty());
                    assert(lines_of(st.consumed@) =~= seq![c]);
                    assert(seq![c] =~= lines_of(d).push(c));
                } else {
                    lemma_split_append(d, c, Seq::empty());
                    assert(st.consumed@ =~= d + c);
                    assert(lines_of(st.consumed@) == lines_of(d) + lines_of(c));
                    assert(lines_of(d) + seq![c] =~= lines_of(d).push(c));
                }
                lemma_matches_push(self.matcher, lines_of(d), c, 1);
                assert(match_recs(found@) =~= match_recs(old_found) + line_scan(
                    self.matcher,
                    c,
                    st.next_line as int,
                ));
            }
        } else {
            proof {
                assert(st.consumed@ =~= d);
            }
        }
        found
    }

    /// Scans a buffer in fixed-size chunks with carryover: the buffered
    /// strategy. The result is the same as scanning the buffer whole.
    pub fn scan_chunked(&self, data: &[u8], chunk_size: usize) -> (r: Vec<Match>)
        requires
            self.matcher.matcher_wf(),
            chunk_size >= 1,
            data@.len() < usize::MAX,
        ensures
            match_recs(r@) == scan_spec(self.matcher, data@),
            scan_results_wf(match_recs(r@)),
    {
        let mut st = self.begin_scan();
        let mut pos: usize = 0;
        assert(data@.take(0) =~= Seq::<u8>::empty());
        while pos < data.len()
            invariant
                self.matcher.matcher_wf(),
                chunk_size >= 1,
                data@.len() < usize::MAX,
                0 <= pos <= data@.len(),
                scan_wf(st, self.matcher),
                st.consumed@ == data@.take(pos as int),
            decreases data@.len() - pos,
        {
            let end = if data.len() - pos > chunk_size {
                pos + chunk_size
            } else {
                data.len()
            };
            let chunk = slice_subrange(data, pos, end);
            proof {
                lemma_lines_count(scan_done(st), Seq::empty());
                assert(scan_done(st).len() + st.carryover@.len() == pos);
            }
            self.push_chunk(&mut st, chunk);
            assert(st.consumed@ =~= data@.take(end as int));
            pos = end;
        }
        assert(st.consumed@ =~= data@);
        self.finish_scan(st)
    }

    /// Scans one file's content, choosing the strategy by size: content over
    /// the threshold goes through the memory-mapped path, the rest through
    /// the chunked-buffered path. Both yield the matches of `scan_spec`.
    pub fn search_file(&self, data: &[u8]) -> (r: Vec<Match>)
        requires
            self.matcher.matcher_wf(),
            data@.len() < usize::MAX,
        ensures
            match_recs(r@) == scan_spec(self.matcher, data@),
            scan_results_wf(match_recs(r@)),
    {
        if should_use_mmap(data.len() as u64) {
            self.scan_mapped(data)
        } else {
            self.scan_chunked(data, BUFFER_SIZE)
        }
    }
}

// ---------------------------------------------------------------------------
// Incremental scan state
// ---------------------------------------------------------------------------

/// The state of an incremental (chunked) scan: the bytes after the last
/// newline seen so far, the next line number, and the matches of every
/// completed line. `consumed` records, for specification purposes alone,
/// everything fed so far.
pub struct ScanState {
    /// Bytes after the last newline consumed so far: the partial final line.
    pub carryover: Vec<u8>,
    /// The 1-based number of the line the carryover begins.
    pub next_line: usize,
    /// The matches of every line completed so far, in line order.
    pub found: Vec<Match>,
    /// Everything consumed so far.
    pub consumed: Ghost<Seq<u8>>,
}

/// The consumed bytes up to and including the last newline.
pub open spec fn scan_done(st: ScanState) -> Seq<u8> {
    st.consumed@.take(st.consumed@.len() - st.carryover@.len())
}

/// The incremental scan invariant: the carryover is exactly the consumed
/// bytes after the last newline, the line counter stands past the completed
/// lines, and the matches found are those of the completed lines.
pub open spec fn scan_wf<M: Matcher>(st: ScanState, m: M) -> bool {
    &&& st.carryover@.len() <= st.consumed@.len()
    &&& st.consumed@ == scan_done(st) + st.carryover@
    &&& (scan_done(st).len() == 0 || scan_done(st).last() == 10)
    &&& forall|k: int| 0 <= k < st.carryover@.len() ==> st.carryover@[k] != 10
    &&& st.next_line as int == 1 + lines_of(scan_done(st)).len()
    &&& match_recs(st.found@) == matches_of_lines(m, lines_of(scan_done(st)), 1)
    &&& scan_results_wf(match_recs(st.found@))
    &&& forall|k: int|
        0 <= k < match_recs(st.found@).len() ==> (#[trigger] match_recs(st.found@)[k]).line
            < st.next_line
}

// ---------------------------------------------------------------------------
// Agreement and idempotence
// ---------------------------------------------------------------------------

/// The two scanning strategies agree: on any content, results pinned to
/// `scan_spec` — as both `scan_mapped`'s and `scan_chunked`'s are, whatever
/// the chunk size and wherever the size stands against the threshold —
/// coincide match for match (offsets, line numbers and content).
pub proof fn lemma_scan_strategies_agree<M: Matcher>(
    m: M,
    data: Seq<u8>,
    whole: Seq<MatchRec>,
    chunked: Seq<MatchRec>,
)
    requires
        whole == scan_spec(m, data),
        chunked == scan_spec(m, data),
    ensures
        whole == chunked,
{
}

proof fn lemma_matches_of_lines_congruence<M: Matcher>(
    m1: M,
    m2: M,
    lines: Seq<Seq<u8>>,
    first: int,
)
    requires
        forall|l: Seq<u8>| m1.find_spec(l) == m2.find_spec(l),
    ensures
        matches_of_lines(m1, lines, first) == matches_of_lines(m2, lines, first),
    decreases lines.len(),
{
    if lines.len() != 0 {
        assert(m1.find_spec(lines[0]) == m2.find_spec(lines[0]));
        lemma_matches_of_lines_congruence(m1, m2, lines.skip(1), first + 1);
    }
}

/// Idempotence: matchers compiled from the same pattern text scan unchanged
/// content to identical results, so running the same search twice yields
/// identical output.
pub proof fn lemma_scan_idempotent(
    m1: crate::matcher::RegexMatcher,
    m2: crate::matcher::RegexMatcher,
    data: Seq<u8>,
)
    requires
        m1.wf(),
        m2.wf(),
        m1.pattern@ == m2.pattern@,
    ensures
        scan_spec(m1, data) == scan_spec(m2, data),
{
    assert forall|l: Seq<u8>| m1.find_spec(l) == m2.find_spec(l) by {
        crate::matcher::lemma_same_pattern_same_matches(m1, m2, l);
    }
    lemma_matches_of_lines_congruence(m1, m2, lines_of(data), 1);
}

} // verus!
