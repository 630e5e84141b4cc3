//! The word scanner: walks each document's merged visible ranges, collects
//! the distinct word-like tokens whose length reaches the minimum, and
//! excludes the word presently being typed.

use vstd::prelude::*;
use crate::chars::{word_char, ws_char, is_word_char, is_ws_char};
use crate::collect::DocRanges;
use crate::motion::{Cursor, next_word_end, next_word_end_spec, run_end_from, run_start_from};
use crate::motion::{lemma_next_word_end_advances, lemma_run_end_from_bounds, lemma_run_end_from_content, lemma_run_end_from_exact};
use crate::range::{CharRange, range_overlaps};
use crate::chars::{CharClass, class_of};
use crate::snapshot::{Snapshot, line_start, lemma_line_start_bounds};
use crate::words::{insert_word, insert_word_spec, sorted_unique};
use crate::words::{lemma_insert_word_sorted, lemma_insert_word_contains, lemma_sorted_unique_distinct};

verus! {

/// Whether the `min_len` characters ending at `head` are all word
/// characters: the position then closes a word of sufficient length.
pub open spec fn qualifies(t: Seq<char>, head: int, min_len: nat) -> bool {
    head >= min_len && (forall|k: int| head - min_len <= k < head ==> word_char(t[k]))
}

/// The first position at or after `i` holding a word character, or the
/// text length.
pub open spec fn next_word_char(t: Seq<char>, i: int) -> int
    decreases t.len() - i,
{
    if i < 0 || i >= t.len() {
        t.len() as int
    } else if word_char(t[i]) {
        i
    } else {
        next_word_char(t, i + 1)
    }
}

/// Where the candidate word ending at `h` starts: the cursor anchor moved
/// forward past leading non-word characters, clamped at `h`.
pub open spec fn word_start_at(t: Seq<char>, a: int, h: int) -> int {
    let e = next_word_char(t, a);
    if e > h {
        h
    } else {
        e
    }
}

/// Whether the half-open range `ws..h` overlaps the typed-word range under
/// the engine's overlap predicate.
pub open spec fn overlaps_typed(typed: CharRange, ws: int, h: int) -> bool {
    typed.start == ws || (typed.end > ws && h > typed.start)
}

/// One scan step: when the position ending at `h` qualifies and its word
/// lies inside the scanned region without overlapping the typed range, the
/// word joins the candidate set.
pub open spec fn scan_step(
    t: Seq<char>,
    typed: CharRange,
    min_len: nat,
    rs: int,
    a: int,
    h: int,
    acc: Seq<Seq<char>>,
) -> Seq<Seq<char>> {
    if qualifies(t, h, min_len) {
        let ws = word_start_at(t, a, h);
        if rs <= ws && ws < h && !overlaps_typed(typed, ws, h) {
            insert_word_spec(acc, t.subrange(ws, h))
        } else {
            acc
        }
    } else {
        acc
    }
}

/// The scan loop from cursor `(a, h)`: steps from word end to word end
/// until the head leaves the region `rs..re`.
pub open spec fn scan_from(
    t: Seq<char>,
    typed: CharRange,
    min_len: nat,
    rs: int,
    re: int,
    a: int,
    h: int,
    acc: Seq<Seq<char>>,
) -> Seq<Seq<char>>
    decreases (if h < re { re - h } else { 0 }),
    via scan_from_decreases
{
    if !(0 <= h < re && re <= t.len()) {
        acc
    } else {
        let acc2 = scan_step(t, typed, min_len, rs, a, h, acc);
        let (a2, h2) = next_word_end_spec(t, a, h);
        scan_from(t, typed, min_len, rs, re, a2, h2, acc2)
    }
}

#[via_fn]
proof fn scan_from_decreases(
    t: Seq<char>,
    typed: CharRange,
    min_len: nat,
    rs: int,
    re: int,
    a: int,
    h: int,
    acc: Seq<Seq<char>>,
) {
    if 0 <= h < re && re <= t.len() {
        lemma_next_word_end_advances(t, a, h);
    }
}

/// Scanning one region `rs..re`: a zero-width cursor at the region start is
/// advanced over the word there only when the region starts exactly at a
/// word start, so a word truncated by the region's edge is never offered.
pub open spec fn scan_range_spec(
    t: Seq<char>,
    typed: CharRange,
    min_len: nat,
    rs: int,
    re: int,
    acc: Seq<Seq<char>>,
) -> Seq<Seq<char>> {
    if 0 <= rs < t.len() && !ws_char(t[rs]) {
        let (a1, h1) = next_word_end_spec(t, rs, rs);
        if a1 == rs {
            scan_from(t, typed, min_len, rs, re, a1, h1, acc)
        } else {
            scan_from(t, typed, min_len, rs, re, rs, rs, acc)
        }
    } else {
        scan_from(t, typed, min_len, rs, re, rs, rs, acc)
    }
}

/// Scanning all of one document's visible line ranges, in order, after
/// converting each to character bounds.
pub open spec fn scan_doc_spec(
    t: Seq<char>,
    typed: CharRange,
    min_len: nat,
    lines: Seq<CharRange>,
    acc: Seq<Seq<char>>,
) -> Seq<Seq<char>>
    decreases lines.len(),
{
    if lines.len() == 0 {
        acc
    } else {
        let rs = line_start(t, lines[0].start as nat);
        let re = line_start(t, lines[0].end as nat);
        scan_doc_spec(
            t,
            typed,
            min_len,
            lines.skip(1),
            scan_range_spec(t, typed, min_len, rs, re, acc),
        )
    }
}

/// Scanning every collected document, in order.
pub open spec fn scan_docs_spec(
    docs: Seq<DocRanges>,
    typed: CharRange,
    min_len: nat,
    acc: Seq<Seq<char>>,
) -> Seq<Seq<char>>
    decreases docs.len(),
{
    if docs.len() == 0 {
        acc
    } else {
        scan_docs_spec(
            docs.skip(1),
            typed,
            min_len,
            scan_doc_spec(docs[0].snap@, typed, min_len, docs[0].ranges@, acc),
        )
    }
}

/// Whether the `min_len` characters before `head` are all word characters.
fn qualifies_at(snap: &Snapshot, head: usize, min_len: usize) -> (r: bool)
    requires
        head <= snap@.len(),
    ensures
        r == qualifies(snap@, head as int, min_len as nat),
{
    if head < min_len {
        return false;
    }
    let start = head - min_len;
    let mut k = start;
    let mut ok: bool = true;
    while k < head
        invariant_except_break
            ok,
        invariant
            start <= k <= head,
            head <= snap@.len(),
            ok ==> forall|j: int| start <= j < k ==> word_char(snap@[j]),
        ensures
            start <= k <= head,
            ok ==> k == head,
            ok ==> forall|j: int| start <= j < k ==> word_char(snap@[j]),
            !ok ==> start <= k < head && !word_char(snap@[k as int]),
        decreases head - k,
    {
        if !is_word_char(snap.char_at(k)) {
            ok = false;
            break ;
        }
        k += 1;
    }
    ok
}

/// Walks forward from `i` to the first word character.
fn next_word_char_exec(snap: &Snapshot, i: usize) -> (res: usize)
    requires
        i <= snap@.len(),
    ensures
        res == next_word_char(snap@, i as int),
        i <= res <= snap@.len(),
{
    let n = snap.len();
    let mut s = i;
    while s < n
        invariant
            i <= s <= n,
            n == snap@.len(),
            next_word_char(snap@, s as int) == next_word_char(snap@, i as int),
        ensures
            i <= s <= n,
            next_word_char(snap@, s as int) == next_word_char(snap@, i as int),
            s == n || word_char(snap@[s as int]),
        decreases n - s,
    {
        if is_word_char(snap.char_at(s)) {
            break ;
        }
        s += 1;
    }
    s
}

/// Scans one region of one document, growing the sorted candidate set.
pub fn scan_one_range(
    snap: &Snapshot,
    typed: CharRange,
    min_len: usize,
    rs: usize,
    re: usize,
    acc: Vec<Vec<char>>,
) -> (res: Vec<Vec<char>>)
    requires
        rs <= snap@.len(),
        re <= snap@.len(),
    ensures
        res.deep_view() == scan_range_spec(
            snap@,
            typed,
            min_len as nat,
            rs as int,
            re as int,
            acc.deep_view(),
        ),
{
    let ghost t = snap@;
    let ghost goal = scan_range_spec(t, typed, min_len as nat, rs as int, re as int, acc.deep_view());
    let n = snap.len();
    let mut cur = Cursor { anchor: rs, head: rs };
    if rs < n && !is_ws_char(snap.char_at(rs)) {
        let adv = next_word_end(snap, cur);
        if adv.anchor == rs {
            cur = adv;
        }
    }
    let mut words = acc;
    proof {
        assert(scan_from(
            t,
            typed,
            min_len as nat,
            rs as int,
            re as int,
            cur.anchor as int,
            cur.head as int,
            words.deep_view(),
        ) == goal);
    }
    while cur.head < re
        invariant
            cur.head <= t.len(),
            cur.anchor <= t.len(),
            re <= t.len(),
            t == snap@,
            scan_from(
                t,
                typed,
                min_len as nat,
                rs as int,
                re as int,
                cur.anchor as int,
                cur.head as int,
                words.deep_view(),
            ) == goal,
        decreases (if cur.head < re { re - cur.head } else { 0int }),
    {
        let ghost pre = words.deep_view();
        let q = qualifies_at(snap, cur.head, min_len);
        if q {
            let e = next_word_char_exec(snap, cur.anchor);
            let ws = if e > cur.head {
                cur.head
            } else {
                e
            };
            let wr = CharRange { start: ws, end: cur.head };
            if rs <= ws && ws < cur.head && !range_overlaps(&typed, &wr) {
                let w = snap.copy_range(ws, cur.head);
                words = insert_word(words, w);
            }
        }
        proof {
            assert(words.deep_view() == scan_step(
                t,
                typed,
                min_len as nat,
                rs as int,
                cur.anchor as int,
                cur.head as int,
                pre,
            ));
        }
        let ghost a_old = cur.anchor as int;
        let ghost h_old = cur.head as int;
        cur = next_word_end(snap, cur);
        proof {
            assert(scan_from(t, typed, min_len as nat, rs as int, re as int, a_old, h_old, pre)
                == scan_from(
                t,
                typed,
                min_len as nat,
                rs as int,
                re as int,
                cur.anchor as int,
                cur.head as int,
                words.deep_view(),
            ));
        }
    }
    words
}

/// Scans all of one document's collected ranges.
pub fn scan_one_doc(doc: &DocRanges, typed: CharRange, min_len: usize, acc: Vec<Vec<char>>) -> (res:
    Vec<Vec<char>>)
    ensures
        res.deep_view() == scan_doc_spec(
            doc.snap@,
            typed,
            min_len as nat,
            doc.ranges@,
            acc.deep_view(),
        ),
{
    let ghost t = doc.snap@;
    let ghost lines = doc.ranges@;
    let ghost goal = scan_doc_spec(t, typed, min_len as nat, lines, acc.deep_view());
    let mut words = acc;
    proof {
        assert(lines.skip(0) =~= lines);
    }
    let nr = doc.ranges.len();
    let mut i: usize = 0;
    while i < nr
        invariant
            i <= nr,
            nr == lines.len(),
            lines == doc.ranges@,
            t == doc.snap@,
            scan_doc_spec(t, typed, min_len as nat, lines.skip(i as int), words.deep_view())
                == goal,
        decreases nr - i,
    {
        let lr = doc.ranges[i];
        let rs = doc.snap.line_to_char(lr.start);
        let re = doc.snap.line_to_char(lr.end);
        let ghost pre = words.deep_view();
        words = scan_one_range(&doc.snap, typed, min_len, rs, re, words);
        proof {
            assert(lines.skip(i as int)[0] == lines[i as int]);
            assert(lines.skip(i as int).skip(1) =~= lines.skip(i as int + 1));
            assert(scan_doc_spec(t, typed, min_len as nat, lines.skip(i as int), pre)
                == scan_doc_spec(
                t,
                typed,
                min_len as nat,
                lines.skip(i as int + 1),
                words.deep_view(),
            ));
        }
        i += 1;
    }
    proof {
        assert(lines.skip(nr as int) =~= Seq::<CharRange>::empty());
    }
    words
}

/// Scans every collected document and returns the candidate words, sorted
/// and deduplicated.
pub fn scan_words(docs: &Vec<DocRanges>, typed: CharRange, min_len: usize) -> (res: Vec<Vec<char>>)
    ensures
        res.deep_view() == scan_docs_spec(
            docs@,
            typed,
            min_len as nat,
            Seq::<Seq<char>>::empty(),
        ),
{
    let ghost ds = docs@;
    let ghost goal = scan_docs_spec(ds, typed, min_len as nat, Seq::<Seq<char>>::empty());
    let mut words: Vec<Vec<char>> = Vec::new();
    proof {
        assert(words.deep_view() =~= Seq::<Seq<char>>::empty());
        assert(ds.skip(0) =~= ds);
    }
    let nd = docs.len();
    let mut d: usize = 0;
    while d < nd
        invariant
            d <= nd,
            nd == ds.len(),
            ds == docs@,
            scan_docs_spec(ds.skip(d as int), typed, min_len as nat, words.deep_view()) == goal,
        decreases nd - d,
    {
        let ghost pre = words.deep_view();
        words = scan_one_doc(&docs[d], typed, min_len, words);
        proof {
            assert(ds.skip(d as int)[0] == ds[d as int]);
            assert(ds.skip(d as int).skip(1) =~= ds.skip(d as int + 1));
            assert(scan_docs_spec(ds.skip(d as int), typed, min_len as nat, pre)
                == scan_docs_spec(ds.skip(d as int + 1), typed, min_len as nat, words.deep_view()));
        }
        d += 1;
    }
    proof {
        assert(ds.skip(nd as int) =~= Seq::<DocRanges>::empty());
    }
    words
}

/// Every scan step keeps the candidate set sorted and duplicate-free.
proof fn lemma_scan_from_sorted(
    t: Seq<char>,
    typed: CharRange,
    min_len: nat,
    rs: int,
    re: int,
    a: int,
    h: int,
    acc: Seq<Seq<char>>,
)
    requires
        sorted_unique(acc),
    ensures
        sorted_unique(scan_from(t, typed, min_len, rs, re, a, h, acc)),
    decreases (if h < re { re - h } else { 0 }),
{
    if 0 <= h < re && re <= t.len() {
        let acc2 = scan_step(t, typed, min_len, rs, a, h, acc);
        assert(sorted_unique(acc2)) by {
            if qualifies(t, h, min_len) {
                let ws = word_start_at(t, a, h);
                if rs <= ws && ws < h && !overlaps_typed(typed, ws, h) {
                    lemma_insert_word_sorted(acc, t.subrange(ws, h));
                }
            }
        }
        let (a2, h2) = next_word_end_spec(t, a, h);
        lemma_next_word_end_advances(t, a, h);
        lemma_scan_from_sorted(t, typed, min_len, rs, re, a2, h2, acc2);
    }
}

/// Scanning a region keeps the candidate set sorted and duplicate-free.
proof fn lemma_scan_range_sorted(
    t: Seq<char>,
    typed: CharRange,
    min_len: nat,
    rs: int,
    re: int,
    acc: Seq<Seq<char>>,
)
    requires
        sorted_unique(acc),
    ensures
        sorted_unique(scan_range_spec(t, typed, min_len, rs, re, acc)),
{
    if 0 <= rs < t.len() && !ws_char(t[rs]) {
        let (a1, h1) = next_word_end_spec(t, rs, rs);
        if a1 == rs {
            lemma_scan_from_sorted(t, typed, min_len, rs, re, a1, h1, acc);
        } else {
            lemma_scan_from_sorted(t, typed, min_len, rs, re, rs, rs, acc);
        }
    } else {
        lemma_scan_from_sorted(t, typed, min_len, rs, re, rs, rs, acc);
    }
}

/// Scanning a document keeps the candidate set sorted and duplicate-free.
proof fn lemma_scan_doc_sorted(
    t: Seq<char>,
    typed: CharRange,
    min_len: nat,
    lines: Seq<CharRange>,
    acc: Seq<Seq<char>>,
)
    requires
        sorted_unique(acc),
    ensures
        sorted_unique(scan_doc_spec(t, typed, min_len, lines, acc)),
    decreases lines.len(),
{
    if lines.len() > 0 {
        let rs = line_start(t, lines[0].start as nat);
        let re = line_start(t, lines[0].end as nat);
        lemma_scan_range_sorted(t, typed, min_len, rs, re, acc);
        lemma_scan_doc_sorted(
            t,
            typed,
            min_len,
            lines.skip(1),
            scan_range_spec(t, typed, min_len, rs, re, acc),
        );
    }
}

/// The scan's whole output is sorted and holds each word at most once:
/// however many visible ranges and documents a word appears in, it appears
/// exactly once among the candidates.
pub proof fn lemma_scan_output_distinct(docs: Seq<DocRanges>, typed: CharRange, min_len: nat)
    ensures
        sorted_unique(scan_docs_spec(docs, typed, min_len, Seq::<Seq<char>>::empty())),
        forall|i: int, j: int|
            0 <= i < j < scan_docs_spec(docs, typed, min_len, Seq::<Seq<char>>::empty()).len()
                ==> scan_docs_spec(docs, typed, min_len, Seq::<Seq<char>>::empty())[i]
                != scan_docs_spec(docs, typed, min_len, Seq::<Seq<char>>::empty())[j],
{
    lemma_scan_docs_sorted(docs, typed, min_len, Seq::<Seq<char>>::empty());
    lemma_sorted_unique_distinct(scan_docs_spec(docs, typed, min_len, Seq::<Seq<char>>::empty()));
}

/// Scanning every document keeps the candidate set sorted.
proof fn lemma_scan_docs_sorted(
    docs: Seq<DocRanges>,
    typed: CharRange,
    min_len: nat,
    acc: Seq<Seq<char>>,
)
    requires
        sorted_unique(acc),
    ensures
        sorted_unique(scan_docs_spec(docs, typed, min_len, acc)),
    decreases docs.len(),
{
    if docs.len() > 0 {
        lemma_scan_doc_sorted(docs[0].snap@, typed, min_len, docs[0].ranges@, acc);
        lemma_scan_docs_sorted(
            docs.skip(1),
            typed,
            min_len,
            scan_doc_spec(docs[0].snap@, typed, min_len, docs[0].ranges@, acc),
        );
    }
}

/// Any word the scan of one region adds beyond `acc` is witnessed by an
/// occurrence inside the region whose range does not overlap the
/// typed-word range.
proof fn lemma_scan_from_excludes(
    t: Seq<char>,
    typed: CharRange,
    min_len: nat,
    rs: int,
    re: int,
    a: int,
    h: int,
    acc: Seq<Seq<char>>,
    x: Seq<char>,
)
    requires
        scan_from(t, typed, min_len, rs, re, a, h, acc).contains(x),
        !acc.contains(x),
    ensures
        exists|ws: int, he: int|
            ws < he && !overlaps_typed(typed, ws, he) && x == t.subrange(ws, he),
    decreases (if h < re { re - h } else { 0 }),
{
    if !(0 <= h < re && re <= t.len()) {
        assert(false);
    } else {
        let acc2 = scan_step(t, typed, min_len, rs, a, h, acc);
        lemma_next_word_end_advances(t, a, h);
        let (a2, h2) = next_word_end_spec(t, a, h);
        if acc2.contains(x) {
            assert(qualifies(t, h, min_len));
            let ws = word_start_at(t, a, h);
            assert(rs <= ws && ws < h && !overlaps_typed(typed, ws, h)) by {
                if !(rs <= ws && ws < h && !overlaps_typed(typed, ws, h)) {
                    assert(acc2 == acc);
                }
            }
            lemma_insert_word_contains(acc, t.subrange(ws, h), x);
            assert(x == t.subrange(ws, h));
            assert(ws < h && !overlaps_typed(typed, ws, h) && x == t.subrange(ws, h));
        } else {
            lemma_scan_from_excludes(t, typed, min_len, rs, re, a2, h2, acc2, x);
        }
    }
}

/// The same statement for a whole region scan.
proof fn lemma_scan_range_excludes(
    t: Seq<char>,
    typed: CharRange,
    min_len: nat,
    rs: int,
    re: int,
    acc: Seq<Seq<char>>,
    x: Seq<char>,
)
    requires
        scan_range_spec(t, typed, min_len, rs, re, acc).contains(x),
        !acc.contains(x),
    ensures
        exists|ws: int, he: int|
            ws < he && !overlaps_typed(typed, ws, he) && x == t.subrange(ws, he),
{
    if 0 <= rs < t.len() && !ws_char(t[rs]) {
        let (a1, h1) = next_word_end_spec(t, rs, rs);
        if a1 == rs {
            lemma_scan_from_excludes(t, typed, min_len, rs, re, a1, h1, acc, x);
        } else {
            lemma_scan_from_excludes(t, typed, min_len, rs, re, rs, rs, acc, x);
        }
    } else {
        lemma_scan_from_excludes(t, typed, min_len, rs, re, rs, rs, acc, x);
    }
}

/// The same statement for a whole document scan.
proof fn lemma_scan_doc_excludes(
    t: Seq<char>,
    typed: CharRange,
    min_len: nat,
    lines: Seq<CharRange>,
    acc: Seq<Seq<char>>,
    x: Seq<char>,
)
    requires
        scan_doc_spec(t, typed, min_len, lines, acc).contains(x),
        !acc.contains(x),
    ensures
        exists|ws: int, he: int|
            ws < he && !overlaps_typed(typed, ws, he) && x == t.subrange(ws, he),
    decreases lines.len(),
{
    if lines.len() == 0 {
        assert(false);
    } else {
        let rs = line_start(t, lines[0].start as nat);
        let re = line_start(t, lines[0].end as nat);
        let acc2 = scan_range_spec(t, typed, min_len, rs, re, acc);
        if acc2.contains(x) {
            lemma_scan_range_excludes(t, typed, min_len, rs, re, acc, x);
        } else {
            lemma_scan_doc_excludes(t, typed, min_len, lines.skip(1), acc2, x);
        }
    }
}

/// The typed word is excluded verbatim: every candidate word the scan
/// produces is witnessed by an occurrence, in some scanned document, whose
/// range does not overlap the typed-word range.  In particular no candidate
/// stems from the fragment being typed itself.
pub proof fn lemma_typed_word_excluded(
    docs: Seq<DocRanges>,
    typed: CharRange,
    min_len: nat,
    x: Seq<char>,
)
    requires
        scan_docs_spec(docs, typed, min_len, Seq::<Seq<char>>::empty()).contains(x),
    ensures
        exists|d: int, ws: int, he: int|
            0 <= d < docs.len() && ws < he && !overlaps_typed(typed, ws, he) && x
                == docs[d].snap@.subrange(ws, he),
{
    lemma_scan_docs_excludes(docs, typed, min_len, Seq::<Seq<char>>::empty(), x);
}

/// The witness statement lifted over every document.
proof fn lemma_scan_docs_excludes(
    docs: Seq<DocRanges>,
    typed: CharRange,
    min_len: nat,
    acc: Seq<Seq<char>>,
    x: Seq<char>,
)
    requires
        scan_docs_spec(docs, typed, min_len, acc).contains(x),
        !acc.contains(x),
    ensures
        exists|d: int, ws: int, he: int|
            0 <= d < docs.len() && ws < he && !overlaps_typed(typed, ws, he) && x
                == docs[d].snap@.subrange(ws, he),
    decreases docs.len(),
{
    if docs.len() == 0 {
        assert(false);
    } else {
        let acc2 = scan_doc_spec(docs[0].snap@, typed, min_len, docs[0].ranges@, acc);
        if acc2.contains(x) {
            lemma_scan_doc_excludes(docs[0].snap@, typed, min_len, docs[0].ranges@, acc, x);
            let (ws, he) = choose|ws: int, he: int|
                ws < he && !overlaps_typed(typed, ws, he) && x == docs[0].snap@.subrange(ws, he);
            assert(0 <= 0 < docs.len() && ws < he && !overlaps_typed(typed, ws, he) && x
                == docs[0].snap@.subrange(ws, he));
        } else {
            lemma_scan_docs_excludes(docs.skip(1), typed, min_len, acc2, x);
            let (d, ws, he) = choose|d: int, ws: int, he: int|
                0 <= d < docs.skip(1).len() && ws < he && !overlaps_typed(typed, ws, he) && x
                    == docs.skip(1)[d].snap@.subrange(ws, he);
            assert(docs.skip(1)[d] == docs[d + 1]);
            assert(0 <= d + 1 < docs.len() && ws < he && !overlaps_typed(typed, ws, he) && x
                == docs[d + 1].snap@.subrange(ws, he));
        }
    }
}

/// No character is both whitespace and a word character.  Every real
/// classification keeps the two classes apart, but the two predicates are
/// independent names here, so lemmas that lean on the separation take it
/// as a premise on the text.
pub open spec fn classes_consistent(t: Seq<char>) -> bool {
    forall|k: int| 0 <= k < t.len() ==> !(ws_char(t[k]) && word_char(t[k]))
}

/// A maximal run of word-class characters: a word occurrence with its
/// exact bounds.
pub open spec fn word_run(t: Seq<char>, s: int, e: int) -> bool {
    &&& 0 <= s < e <= t.len()
    &&& (forall|k: int| s <= k < e ==> class_of(t[k]) == CharClass::Word)
    &&& (s == 0 || class_of(t[s - 1]) != CharClass::Word)
    &&& (e == t.len() || class_of(t[e]) != CharClass::Word)
}

/// When no word character stands in `[i, s)` and one stands at `s`, the
/// forward search lands exactly on `s`.
proof fn lemma_next_word_char_exact(t: Seq<char>, i: int, s: int)
    requires
        0 <= i <= s < t.len(),
        forall|k: int| i <= k < s ==> !word_char(t[k]),
        word_char(t[s]),
    ensures
        next_word_char(t, i) == s,
    decreases s - i,
{
    if i < s {
        lemma_next_word_char_exact(t, i + 1, s);
    }
}

/// One motion step from a head at or before a word run never jumps past
/// it: the new head stays at or before the run's start, or lands exactly
/// on the run's end — and then the anchor extension finds the run's start.
proof fn lemma_step_toward(t: Seq<char>, a: int, h: int, s: int, e: int)
    requires
        classes_consistent(t),
        word_run(t, s, e),
        0 <= h <= s,
    ensures
        next_word_end_spec(t, a, h).1 <= s || (next_word_end_spec(t, a, h).1 == e
            && word_start_at(t, next_word_end_spec(t, a, h).0, e) == s),
{
    let a2 = next_word_end_spec(t, a, h).0;
    let h2 = next_word_end_spec(t, a, h).1;
    assert(h < t.len());
    assert(class_of(t[s]) == CharClass::Word);
    assert(!ws_char(t[s]) && word_char(t[s]));
    if ws_char(t[h]) {
        assert(h < s);
        let sp = run_end_from(t, h, CharClass::Whitespace);
        lemma_run_end_from_bounds(t, h, CharClass::Whitespace);
        lemma_run_end_from_content(t, h, CharClass::Whitespace);
        assert(sp <= s) by {
            if sp > s {
                assert(class_of(t[s]) == CharClass::Whitespace);
            }
        }
        assert(sp < t.len());
        let cl = class_of(t[sp]);
        let end2 = run_end_from(t, sp, cl);
        lemma_run_end_from_content(t, sp, cl);
        lemma_run_end_from_bounds(t, sp, cl);
        assert(a2 == h && h2 == end2);
        if sp == s {
            assert(cl == CharClass::Word);
            lemma_run_end_from_exact(t, s, e, CharClass::Word);
            assert(h2 == e);
            assert(forall|k: int| h <= k < s ==> class_of(t[k]) == CharClass::Whitespace);
            assert forall|k: int| h <= k < s implies !word_char(t[k]) by {
                assert(class_of(t[k]) == CharClass::Whitespace);
                assert(ws_char(t[k]));
            }
            lemma_next_word_char_exact(t, h, s);
            assert(word_start_at(t, h, e) == s);
        } else {
            assert(end2 <= s) by {
                if end2 > s {
                    assert(class_of(t[s]) == cl);
                    assert(class_of(t[s - 1]) == cl);
                }
            }
        }
    } else {
        let cl = class_of(t[h]);
        let end2 = run_end_from(t, h, cl);
        lemma_run_end_from_content(t, h, cl);
        assert(h2 == end2 && a2 == run_start_from(t, h, cl));
        if h == s {
            assert(cl == CharClass::Word);
            lemma_run_end_from_exact(t, s, e, CharClass::Word);
            assert(h2 == e);
            assert(run_start_from(t, s, CharClass::Word) == s);
            assert(next_word_char(t, s) == s);
            assert(word_start_at(t, s, e) == s);
        } else {
            assert(end2 <= s) by {
                if end2 > s {
                    assert(class_of(t[s]) == cl);
                    assert(class_of(t[s - 1]) == cl);
                }
            }
        }
    }
}

/// The scan loop never loses a collected word.
proof fn lemma_scan_from_preserves(
    t: Seq<char>,
    typed: CharRange,
    min_len: nat,
    rs: int,
    re: int,
    a: int,
    h: int,
    acc: Seq<Seq<char>>,
    x: Seq<char>,
)
    requires
        acc.contains(x),
    ensures
        scan_from(t, typed, min_len, rs, re, a, h, acc).contains(x),
    decreases (if h < re { re - h } else { 0 }),
{
    if 0 <= h < re && re <= t.len() {
        let acc2 = scan_step(t, typed, min_len, rs, a, h, acc);
        assert(acc2.contains(x)) by {
            if qualifies(t, h, min_len) {
                let ws = word_start_at(t, a, h);
                if rs <= ws && ws < h && !overlaps_typed(typed, ws, h) {
                    lemma_insert_word_contains(acc, t.subrange(ws, h), x);
                }
            }
        }
        lemma_next_word_end_advances(t, a, h);
        let (a2, h2) = next_word_end_spec(t, a, h);
        lemma_scan_from_preserves(t, typed, min_len, rs, re, a2, h2, acc2, x);
    }
}

/// A region scan never loses a collected word.
proof fn lemma_scan_range_preserves(
    t: Seq<char>,
    typed: CharRange,
    min_len: nat,
    rs: int,
    re: int,
    acc: Seq<Seq<char>>,
    x: Seq<char>,
)
    requires
        acc.contains(x),
    ensures
        scan_range_spec(t, typed, min_len, rs, re, acc).contains(x),
{
    if 0 <= rs < t.len() && !ws_char(t[rs]) {
        let (a1, h1) = next_word_end_spec(t, rs, rs);
        if a1 == rs {
            lemma_scan_from_preserves(t, typed, min_len, rs, re, a1, h1, acc, x);
        } else {
            lemma_scan_from_preserves(t, typed, min_len, rs, re, rs, rs, acc, x);
        }
    } else {
        lemma_scan_from_preserves(t, typed, min_len, rs, re, rs, rs, acc, x);
    }
}

/// A document scan never loses a collected word.
proof fn lemma_scan_doc_preserves(
    t: Seq<char>,
    typed: CharRange,
    min_len: nat,
    lines: Seq<CharRange>,
    acc: Seq<Seq<char>>,
    x: Seq<char>,
)
    requires
        acc.contains(x),
    ensures
        scan_doc_spec(t, typed, min_len, lines, acc).contains(x),
    decreases lines.len(),
{
    if lines.len() > 0 {
        let rs = line_start(t, lines[0].start as nat);
        let re = line_start(t, lines[0].end as nat);
        lemma_scan_range_preserves(t, typed, min_len, rs, re, acc, x);
        lemma_scan_doc_preserves(
            t,
            typed,
            min_len,
            lines.skip(1),
            scan_range_spec(t, typed, min_len, rs, re, acc),
            x,
        );
    }
}

/// The whole scan never loses a collected word.
proof fn lemma_scan_docs_preserves(
    docs: Seq<DocRanges>,
    typed: CharRange,
    min_len: nat,
    acc: Seq<Seq<char>>,
    x: Seq<char>,
)
    requires
        acc.contains(x),
    ensures
        scan_docs_spec(docs, typed, min_len, acc).contains(x),
    decreases docs.len(),
{
    if docs.len() > 0 {
        lemma_scan_doc_preserves(docs[0].snap@, typed, min_len, docs[0].ranges@, acc, x);
        lemma_scan_docs_preserves(
            docs.skip(1),
            typed,
            min_len,
            scan_doc_spec(docs[0].snap@, typed, min_len, docs[0].ranges@, acc),
            x,
        );
    }
}

/// The step at the run's end inserts the run's word, and it survives to
/// the end of the region scan.
proof fn lemma_scan_from_take_word(
    t: Seq<char>,
    typed: CharRange,
    min_len: nat,
    rs: int,
    re: int,
    a: int,
    acc: Seq<Seq<char>>,
    s: int,
    e: int,
)
    requires
        word_run(t, s, e),
        e - s >= min_len,
        rs <= s,
        e < re <= t.len(),
        !overlaps_typed(typed, s, e),
        word_start_at(t, a, e) == s,
    ensures
        scan_from(t, typed, min_len, rs, re, a, e, acc).contains(t.subrange(s, e)),
{
    let w = t.subrange(s, e);
    assert(0 <= e < re && re <= t.len());
    assert(qualifies(t, e, min_len)) by {
        assert forall|k: int| e - min_len <= k < e implies word_char(t[k]) by {
            assert(s <= k < e);
            assert(class_of(t[k]) == CharClass::Word);
        }
    }
    let acc2 = scan_step(t, typed, min_len, rs, a, e, acc);
    assert(acc2 == insert_word_spec(acc, w));
    lemma_insert_word_contains(acc, w, w);
    lemma_next_word_end_advances(t, a, e);
    let (a2, h2) = next_word_end_spec(t, a, e);
    lemma_scan_from_preserves(t, typed, min_len, rs, re, a2, h2, acc2, w);
}

/// The scan loop reaches every word run ahead of its head: a maximal word
/// run of sufficient length inside the region, not overlapping the typed
/// range, is collected.
proof fn lemma_scan_from_reaches(
    t: Seq<char>,
    typed: CharRange,
    min_len: nat,
    rs: int,
    re: int,
    a: int,
    h: int,
    acc: Seq<Seq<char>>,
    s: int,
    e: int,
)
    requires
        classes_consistent(t),
        word_run(t, s, e),
        e - s >= min_len,
        0 <= h <= s,
        rs <= s,
        e < re <= t.len(),
        !overlaps_typed(typed, s, e),
    ensures
        scan_from(t, typed, min_len, rs, re, a, h, acc).contains(t.subrange(s, e)),
    decreases (if h < re { re - h } else { 0 }),
{
    assert(0 <= h < re && re <= t.len());
    let acc2 = scan_step(t, typed, min_len, rs, a, h, acc);
    let (a2, h2) = next_word_end_spec(t, a, h);
    lemma_next_word_end_advances(t, a, h);
    lemma_step_toward(t, a, h, s, e);
    if h2 == e && word_start_at(t, a2, e) == s {
        lemma_scan_from_take_word(t, typed, min_len, rs, re, a2, acc2, s, e);
    } else {
        assert(h2 <= s);
        lemma_scan_from_reaches(t, typed, min_len, rs, re, a2, h2, acc2, s, e);
    }
}

/// A region scan collects every maximal word run of sufficient length
/// that starts at or after the region's start, ends before the region's
/// end, and does not overlap the typed-word range.
pub proof fn lemma_scan_range_reaches(
    t: Seq<char>,
    typed: CharRange,
    min_len: nat,
    rs: int,
    re: int,
    acc: Seq<Seq<char>>,
    s: int,
    e: int,
)
    requires
        classes_consistent(t),
        word_run(t, s, e),
        e - s >= min_len,
        0 <= rs <= s,
        e < re <= t.len(),
        !overlaps_typed(typed, s, e),
    ensures
        scan_range_spec(t, typed, min_len, rs, re, acc).contains(t.subrange(s, e)),
{
    if 0 <= rs < t.len() && !ws_char(t[rs]) {
        let (a1, h1) = next_word_end_spec(t, rs, rs);
        if a1 == rs {
            lemma_step_toward(t, rs, rs, s, e);
            if h1 == e && word_start_at(t, a1, e) == s {
                lemma_scan_from_take_word(t, typed, min_len, rs, re, a1, acc, s, e);
            } else {
                assert(h1 <= s);
                lemma_next_word_end_advances(t, rs, rs);
                lemma_scan_from_reaches(t, typed, min_len, rs, re, a1, h1, acc, s, e);
            }
        } else {
            lemma_scan_from_reaches(t, typed, min_len, rs, re, rs, rs, acc, s, e);
        }
    } else {
        lemma_scan_from_reaches(t, typed, min_len, rs, re, rs, rs, acc, s, e);
    }
}

/// A document scan collects every such word run of one of its ranges.
proof fn lemma_scan_doc_reaches(
    t: Seq<char>,
    typed: CharRange,
    min_len: nat,
    lines: Seq<CharRange>,
    acc: Seq<Seq<char>>,
    j: int,
    s: int,
    e: int,
)
    requires
        classes_consistent(t),
        word_run(t, s, e),
        e - s >= min_len,
        0 <= j < lines.len(),
        line_start(t, lines[j].start as nat) <= s,
        e < line_start(t, lines[j].end as nat),
        !overlaps_typed(typed, s, e),
    ensures
        scan_doc_spec(t, typed, min_len, lines, acc).contains(t.subrange(s, e)),
    decreases lines.len(),
{
    let rs = line_start(t, lines[0].start as nat);
    let re = line_start(t, lines[0].end as nat);
    let acc2 = scan_range_spec(t, typed, min_len, rs, re, acc);
    if j == 0 {
        lemma_line_start_bounds(t, lines[0].start as nat);
        lemma_line_start_bounds(t, lines[0].end as nat);
        lemma_scan_range_reaches(t, typed, min_len, rs, re, acc, s, e);
        lemma_scan_doc_preserves(t, typed, min_len, lines.skip(1), acc2, t.subrange(s, e));
    } else {
        assert(lines.skip(1)[j - 1] == lines[j]);
        lemma_scan_doc_reaches(t, typed, min_len, lines.skip(1), acc2, j - 1, s, e);
    }
}

/// The docs-level statement, threading any accumulator.
proof fn lemma_scan_docs_reaches_acc(
    docs: Seq<DocRanges>,
    typed: CharRange,
    min_len: nat,
    acc: Seq<Seq<char>>,
    d: int,
    j: int,
    s: int,
    e: int,
)
    requires
        0 <= d < docs.len(),
        classes_consistent(docs[d].snap@),
        word_run(docs[d].snap@, s, e),
        e - s >= min_len,
        0 <= j < docs[d].ranges@.len(),
        line_start(docs[d].snap@, docs[d].ranges@[j].start as nat) <= s,
        e < line_start(docs[d].snap@, docs[d].ranges@[j].end as nat),
        !overlaps_typed(typed, s, e),
    ensures
        scan_docs_spec(docs, typed, min_len, acc).contains(docs[d].snap@.subrange(s, e)),
    decreases docs.len(),
{
    let acc2 = scan_doc_spec(docs[0].snap@, typed, min_len, docs[0].ranges@, acc);
    if d == 0 {
        lemma_scan_doc_reaches(docs[0].snap@, typed, min_len, docs[0].ranges@, acc, j, s, e);
        lemma_scan_docs_preserves(
            docs.skip(1),
            typed,
            min_len,
            acc2,
            docs[0].snap@.subrange(s, e),
        );
    } else {
        assert(docs.skip(1)[d - 1] == docs[d]);
        lemma_scan_docs_reaches_acc(docs.skip(1), typed, min_len, acc2, d - 1, j, s, e);
    }
}

/// Candidate completeness, the at-least-once half of deduplication: a
/// maximal word run of at least the minimum length, lying inside one of a
/// scanned document's regions at or after the region's start, and not
/// overlapping the typed-word range, appears in the scan's output — and by
/// the output's distinctness, exactly once.
pub proof fn lemma_scan_docs_reaches(
    docs: Seq<DocRanges>,
    typed: CharRange,
    min_len: nat,
    d: int,
    j: int,
    s: int,
    e: int,
)
    requires
        0 <= d < docs.len(),
        classes_consistent(docs[d].snap@),
        word_run(docs[d].snap@, s, e),
        e - s >= min_len,
        0 <= j < docs[d].ranges@.len(),
        line_start(docs[d].snap@, docs[d].ranges@[j].start as nat) <= s,
        e < line_start(docs[d].snap@, docs[d].ranges@[j].end as nat),
        !overlaps_typed(typed, s, e),
    ensures
        scan_docs_spec(docs, typed, min_len, Seq::<Seq<char>>::empty()).contains(
            docs[d].snap@.subrange(s, e),
        ),
{
    lemma_scan_docs_reaches_acc(docs, typed, min_len, Seq::<Seq<char>>::empty(), d, j, s, e);
}

/// Candidate deduplication, both halves at once: such a word run stands at
/// some position of the scan's output, and no word stands at two.
pub proof fn lemma_scan_docs_exactly_once(
    docs: Seq<DocRanges>,
    typed: CharRange,
    min_len: nat,
    d: int,
    j: int,
    s: int,
    e: int,
)
    requires
        0 <= d < docs.len(),
        classes_consistent(docs[d].snap@),
        word_run(docs[d].snap@, s, e),
        e - s >= min_len,
        0 <= j < docs[d].ranges@.len(),
        line_start(docs[d].snap@, docs[d].ranges@[j].start as nat) <= s,
        e < line_start(docs[d].snap@, docs[d].ranges@[j].end as nat),
        !overlaps_typed(typed, s, e),
    ensures
        exists|i: int|
            0 <= i < scan_docs_spec(docs, typed, min_len, Seq::<Seq<char>>::empty()).len()
                && scan_docs_spec(docs, typed, min_len, Seq::<Seq<char>>::empty())[i]
                == docs[d].snap@.subrange(s, e),
        forall|i1: int, i2: int|
            0 <= i1 < i2 < scan_docs_spec(docs, typed, min_len, Seq::<Seq<char>>::empty()).len()
                ==> scan_docs_spec(docs, typed, min_len, Seq::<Seq<char>>::empty())[i1]
                != scan_docs_spec(docs, typed, min_len, Seq::<Seq<char>>::empty())[i2],
{
    lemma_scan_docs_reaches(docs, typed, min_len, d, j, s, e);
    lemma_scan_output_distinct(docs, typed, min_len);
}

} // verus!
