//! The viewport range collector: aggregates, per open document, the visible
//! line ranges of every open view, folding each view's span into the
//! document's list with merge-on-insert semantics.

use vstd::prelude::*;
use crate::range::{CharRange, insert_range, insert_range_spec};
use crate::snapshot::{Snapshot, newlines_before, lemma_newlines_le};

verus! {

/// An open document: a stable identifier and its text snapshot.
pub struct Doc {
    pub id: u64,
    pub snap: Snapshot,
}

impl View for Doc {
    type V = (u64, Seq<char>);

    open spec fn view(&self) -> (u64, Seq<char>) {
        (self.id, self.snap@)
    }
}

/// What one open view shows: its document, the character offset of its
/// scroll anchor, and an estimate of the last document line it displays.
#[derive(Clone, Copy, PartialEq, Eq, Structural, Debug)]
pub struct ViewInfo {
    pub doc_id: u64,
    pub anchor: usize,
    pub last_line: usize,
}

/// One document's collected state: its snapshot and the visible line ranges
/// folded in so far.
pub struct DocRanges {
    pub id: u64,
    pub snap: Snapshot,
    pub ranges: Vec<CharRange>,
}

impl View for DocRanges {
    type V = (u64, Seq<char>, Seq<CharRange>);

    open spec fn view(&self) -> (u64, Seq<char>, Seq<CharRange>) {
        (self.id, self.snap@, self.ranges@)
    }
}

/// The views of a list of open documents.
pub open spec fn docs_view(docs: Seq<Doc>) -> Seq<(u64, Seq<char>)> {
    docs.map_values(|d: Doc| d@)
}

/// The views of a list of collected per-document ranges.
pub open spec fn collected_view(s: Seq<DocRanges>) -> Seq<(u64, Seq<char>, Seq<CharRange>)> {
    s.map_values(|d: DocRanges| d@)
}

/// The visible line span of a view over text `t`: from the line holding the
/// scroll anchor (clamped to the text) to one past the estimated last
/// visible line (saturating).
pub open spec fn view_span(t: Seq<char>, v: ViewInfo) -> CharRange {
    let a = if v.anchor <= t.len() {
        v.anchor as int
    } else {
        t.len() as int
    };
    let end = if v.last_line == usize::MAX {
        usize::MAX
    } else {
        (v.last_line + 1) as usize
    };
    CharRange { start: newlines_before(t, a) as usize, end }
}

/// The position of the first collected entry for document `id`, or `-1`.
pub open spec fn find_entry(s: Seq<(u64, Seq<char>, Seq<CharRange>)>, id: u64) -> int
    decreases s.len(),
{
    if s.len() == 0 {
        -1
    } else if s[0].0 == id {
        0
    } else {
        let r = find_entry(s.skip(1), id);
        if r < 0 {
            -1
        } else {
            r + 1
        }
    }
}

/// The position of the first open document with identifier `id`, or `-1`.
pub open spec fn find_doc(s: Seq<(u64, Seq<char>)>, id: u64) -> int
    decreases s.len(),
{
    if s.len() == 0 {
        -1
    } else if s[0].0 == id {
        0
    } else {
        let r = find_doc(s.skip(1), id);
        if r < 0 {
            -1
        } else {
            r + 1
        }
    }
}

/// Folding one view into the per-document lists: a view over an unknown
/// document contributes nothing; the first view of a document starts its
/// entry; later views insert their span with merge-on-insert.
pub open spec fn fold_view(
    acc: Seq<(u64, Seq<char>, Seq<CharRange>)>,
    docs: Seq<(u64, Seq<char>)>,
    v: ViewInfo,
) -> Seq<(u64, Seq<char>, Seq<CharRange>)> {
    let di = find_doc(docs, v.doc_id);
    if di < 0 {
        acc
    } else {
        let text = docs[di].1;
        let lr = view_span(text, v);
        let ai = find_entry(acc, v.doc_id);
        if ai < 0 {
            acc.push((v.doc_id, text, seq![lr]))
        } else {
            acc.update(ai, (acc[ai].0, acc[ai].1, insert_range_spec(acc[ai].2, lr)))
        }
    }
}

/// The whole collection pass: a pure fold of every open view, in order,
/// into an empty per-document mapping.
pub open spec fn collect_spec(
    acc: Seq<(u64, Seq<char>, Seq<CharRange>)>,
    docs: Seq<(u64, Seq<char>)>,
    views: Seq<ViewInfo>,
) -> Seq<(u64, Seq<char>, Seq<CharRange>)>
    decreases views.len(),
{
    if views.len() == 0 {
        acc
    } else {
        collect_spec(fold_view(acc, docs, views[0]), docs, views.skip(1))
    }
}

/// When no collected entry before position `j` carries `id`, the first
/// match at `j` (or the lack of any) settles what `find_entry` returns.
proof fn lemma_find_entry_from(s: Seq<(u64, Seq<char>, Seq<CharRange>)>, id: u64, j: int)
    requires
        0 <= j <= s.len(),
        forall|k: int| 0 <= k < j ==> s[k].0 != id,
    ensures
        j == s.len() ==> find_entry(s, id) == -1,
        j < s.len() && s[j].0 == id ==> find_entry(s, id) == j,
    decreases j,
{
    if j == 0 {
    } else {
        assert(s[0].0 != id);
        lemma_find_entry_from(s.skip(1), id, j - 1);
        assert(forall|k: int| 0 <= k < j - 1 ==> s.skip(1)[k] == s[k + 1]);
        if j < s.len() && s[j].0 == id {
            assert(s.skip(1)[j - 1] == s[j]);
        }
    }
}

/// The matching statement for the list of open documents.
proof fn lemma_find_doc_from(s: Seq<(u64, Seq<char>)>, id: u64, j: int)
    requires
        0 <= j <= s.len(),
        forall|k: int| 0 <= k < j ==> s[k].0 != id,
    ensures
        j == s.len() ==> find_doc(s, id) == -1,
        j < s.len() && s[j].0 == id ==> find_doc(s, id) == j,
    decreases j,
{
    if j == 0 {
    } else {
        assert(s[0].0 != id);
        lemma_find_doc_from(s.skip(1), id, j - 1);
        assert(forall|k: int| 0 <= k < j - 1 ==> s.skip(1)[k] == s[k + 1]);
        if j < s.len() && s[j].0 == id {
            assert(s.skip(1)[j - 1] == s[j]);
        }
    }
}

/// Finds the collected entry for document `id`.
fn find_entry_exec(res: &Vec<DocRanges>, id: u64) -> (r: Option<usize>)
    ensures
        match r {
            Some(i) => i < res@.len() && find_entry(collected_view(res@), id) == i as int,
            None => find_entry(collected_view(res@), id) == -1,
        },
{
    let ghost s = collected_view(res@);
    let n = res.len();
    let mut i: usize = 0;
    let mut hit: bool = false;
    while i < n
        invariant_except_break
            !hit,
        invariant
            i <= n,
            n == res@.len(),
            s == collected_view(res@),
            forall|k: int| 0 <= k < i ==> s[k].0 != id,
        ensures
            i <= n,
            s == collected_view(res@),
            forall|k: int| 0 <= k < i ==> s[k].0 != id,
            hit ==> i < n && s[i as int].0 == id,
            !hit ==> i == n,
        decreases n - i,
    {
        proof {
            assert(s[i as int] == res@[i as int]@);
        }
        if res[i].id == id {
            hit = true;
            break ;
        }
        i += 1;
    }
    proof {
        lemma_find_entry_from(s, id, i as int);
    }
    if hit {
        Some(i)
    } else {
        None
    }
}

/// Finds the open document with identifier `id`.
fn find_doc_exec(docs: &Vec<Doc>, id: u64) -> (r: Option<usize>)
    ensures
        match r {
            Some(i) => i < docs@.len() && find_doc(docs_view(docs@), id) == i as int,
            None => find_doc(docs_view(docs@), id) == -1,
        },
{
    let ghost s = docs_view(docs@);
    let n = docs.len();
    let mut i: usize = 0;
    let mut hit: bool = false;
    while i < n
        invariant_except_break
            !hit,
        invariant
            i <= n,
            n == docs@.len(),
            s == docs_view(docs@),
            forall|k: int| 0 <= k < i ==> s[k].0 != id,
        ensures
            i <= n,
            s == docs_view(docs@),
            forall|k: int| 0 <= k < i ==> s[k].0 != id,
            hit ==> i < n && s[i as int].0 == id,
            !hit ==> i == n,
        decreases n - i,
    {
        proof {
            assert(s[i as int] == docs@[i as int]@);
        }
        if docs[i].id == id {
            hit = true;
            break ;
        }
        i += 1;
    }
    proof {
        lemma_find_doc_from(s, id, i as int);
    }
    if hit {
        Some(i)
    } else {
        None
    }
}

/// Collects, per open document, the visible line ranges of every open view,
/// merging overlapping ranges as each view is folded in.  Documents appear
/// in order of their first visible view.
pub fn collect_ranges(docs: &Vec<Doc>, views: &Vec<ViewInfo>) -> (res: Vec<DocRanges>)
    ensures
        collected_view(res@) == collect_spec(
            Seq::<(u64, Seq<char>, Seq<CharRange>)>::empty(),
            docs_view(docs@),
            views@,
        ),
{
    let ghost dv = docs_view(docs@);
    let ghost goal = collect_spec(Seq::<(u64, Seq<char>, Seq<CharRange>)>::empty(), dv, views@);
    let mut res: Vec<DocRanges> = Vec::new();
    proof {
        assert(collected_view(res@) =~= Seq::<(u64, Seq<char>, Seq<CharRange>)>::empty());
        assert(views@.skip(0) =~= views@);
    }
    let nv = views.len();
    let mut i: usize = 0;
    while i < nv
        invariant
            i <= nv,
            nv == views@.len(),
            dv == docs_view(docs@),
            collect_spec(collected_view(res@), dv, views@.skip(i as int)) == goal,
        decreases nv - i,
    {
        let v = views[i];
        let ghost pre = collected_view(res@);
        match find_doc_exec(docs, v.doc_id) {
            None => {
                proof {
                    assert(fold_view(pre, dv, v) == pre);
                }
            },
            Some(dx) => {
                let ghost text = dv[dx as int].1;
                proof {
                    assert(dv[dx as int] == docs@[dx as int]@);
                }
                let start_line = docs[dx].snap.char_to_line(v.anchor);
                let end_line = if v.last_line == usize::MAX {
                    usize::MAX
                } else {
                    v.last_line + 1
                };
                let lr = CharRange { start: start_line, end: end_line };
                proof {
                    lemma_newlines_le(
                        text,
                        if v.anchor <= text.len() {
                            v.anchor as int
                        } else {
                            text.len() as int
                        },
                    );
                    assert(lr == view_span(text, v));
                }
                match find_entry_exec(&res, v.doc_id) {
                    None => {
                        let mut rv: Vec<CharRange> = Vec::new();
                        rv.push(lr);
                        let entry = DocRanges { id: v.doc_id, snap: docs[dx].snap.duplicate(), ranges: rv };
                        res.push(entry);
                        proof {
                            assert(rv@ =~= seq![lr]);
                            assert(collected_view(res@) =~= pre.push((v.doc_id, text, seq![lr])));
                            assert(collected_view(res@) == fold_view(pre, dv, v));
                        }
                    },
                    Some(ax) => {
                        let ghost old_entry = pre[ax as int];
                        let mut e = res.remove(ax);
                        proof {
                            assert(e@ == old_entry);
                        }
                        e.ranges = insert_range(e.ranges, lr);
                        res.insert(ax, e);
                        proof {
                            assert(collected_view(res@) =~= pre.update(
                                ax as int,
                                (old_entry.0, old_entry.1, insert_range_spec(old_entry.2, lr)),
                            ));
                            assert(collected_view(res@) == fold_view(pre, dv, v));
                        }
                    },
                }
            },
        }
        proof {
            assert(views@.skip(i as int)[0] == views@[i as int]);
            assert(views@.skip(i as int).skip(1) =~= views@.skip(i as int + 1));
            assert(collect_spec(pre, dv, views@.skip(i as int)) == collect_spec(
                collected_view(res@),
                dv,
                views@.skip(i as int + 1),
            ));
        }
        i += 1;
    }
    proof {
        assert(views@.skip(nv as int) =~= Seq::<ViewInfo>::empty());
    }
    res
}

} // verus!
