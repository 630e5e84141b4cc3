//! Half-open ranges of positions, the overlap predicate used throughout the
//! engine, and merge-on-insert aggregation of range lists.
//!
//! Two ranges overlap when they share a start (even if one is empty) or when
//! they strictly interpenetrate.  Ranges that merely touch at an endpoint are
//! deliberately not considered overlapping.

use vstd::prelude::*;
use vstd::seq_lib::*;

verus! {

/// A half-open range `start..end` of character or line positions.
#[derive(Clone, Copy, PartialEq, Eq, Structural, Debug)]
pub struct CharRange {
    pub start: usize,
    pub end: usize,
}

/// The overlap predicate: equal starts always overlap (including zero-width
/// coincidence); otherwise the ranges must strictly interpenetrate.  Touching
/// at an endpoint alone does not overlap.
pub open spec fn overlaps(a: CharRange, b: CharRange) -> bool {
    a.start == b.start || (a.end > b.start && b.end > a.start)
}

/// The union hull of two ranges: least start to greatest end.
pub open spec fn union_of(a: CharRange, b: CharRange) -> CharRange {
    CharRange {
        start: if a.start <= b.start {
            a.start
        } else {
            b.start
        },
        end: if a.end >= b.end {
            a.end
        } else {
            b.end
        },
    }
}

/// Whether two ranges overlap: equal starts, or strict interpenetration.
pub fn range_overlaps(a: &CharRange, b: &CharRange) -> (r: bool)
    ensures
        r == overlaps(*a, *b),
{
    a.start == b.start || (a.end > b.start && b.end > a.start)
}

/// The union hull of two ranges.
pub fn range_union(a: &CharRange, b: &CharRange) -> (r: CharRange)
    ensures
        r == union_of(*a, *b),
{
    let start = if a.start <= b.start {
        a.start
    } else {
        b.start
    };
    let end = if a.end >= b.end {
        a.end
    } else {
        b.end
    };
    CharRange { start, end }
}

/// Merge-on-insert: the first range of the list that overlaps `r` is replaced
/// by its union with `r`; when none overlaps, `r` is appended.
pub open spec fn insert_range_spec(s: Seq<CharRange>, r: CharRange) -> Seq<CharRange>
    decreases s.len(),
{
    if s.len() == 0 {
        seq![r]
    } else if overlaps(s[0], r) {
        seq![union_of(s[0], r)] + s.skip(1)
    } else {
        seq![s[0]] + insert_range_spec(s.skip(1), r)
    }
}

/// Inserts a visible range into a document's range list, merging it into the
/// first overlapping range when one exists and appending it otherwise.
pub fn insert_range(ranges: Vec<CharRange>, r: CharRange) -> (res: Vec<CharRange>)
    ensures
        res@ == insert_range_spec(ranges@, r),
{
    let ghost s = ranges@;
    let mut list = ranges;
    let n = list.len();
    let mut found: usize = n;
    let mut i: usize = 0;
    while i < n
        invariant_except_break
            found == n,
        invariant
            i <= n,
            n == s.len(),
            list@ == s,
            forall|k: int| 0 <= k < i ==> !overlaps(s[k], r),
        ensures
            n == s.len(),
            list@ == s,
            found <= n,
            found == n ==> forall|k: int| 0 <= k < n ==> !overlaps(s[k], r),
            found < n ==> overlaps(s[found as int], r) && (forall|k: int|
                0 <= k < found ==> !overlaps(s[k], r)),
        decreases n - i,
    {
        if range_overlaps(&list[i], &r) {
            found = i;
            break ;
        }
        i += 1;
    }
    if found < n {
        let u = range_union(&list[found], &r);
        list.set(found, u);
        proof {
            lemma_insert_prefix(s, r, found as int);
            assert(s.skip(found as int)[0] == s[found as int]);
            assert(s.skip(found as int).skip(1) =~= s.skip(found as int + 1));
            assert(insert_range_spec(s.skip(found as int), r) == seq![union_of(s[found as int], r)]
                + s.skip(found as int + 1));
            assert(list@ =~= s.take(found as int) + (seq![union_of(s[found as int], r)] + s.skip(
                found as int + 1,
            )));
            assert(list@ == insert_range_spec(s, r));
        }
        list
    } else {
        list.push(r);
        proof {
            lemma_insert_prefix(s, r, s.len() as int);
            assert(s.skip(s.len() as int) =~= Seq::<CharRange>::empty());
            assert(insert_range_spec(Seq::<CharRange>::empty(), r) == seq![r]);
            assert(list@ =~= s.take(s.len() as int) + seq![r]);
        }
        list
    }
}

/// When every range before position `i` misses `r`, inserting `r` leaves that
/// prefix unchanged and acts on the remainder of the list.
proof fn lemma_insert_prefix(s: Seq<CharRange>, r: CharRange, i: int)
    requires
        0 <= i <= s.len(),
        forall|k: int| 0 <= k < i ==> !overlaps(s[k], r),
    ensures
        insert_range_spec(s, r) == s.take(i) + insert_range_spec(s.skip(i), r),
    decreases i,
{
    if i == 0 {
        assert(s.skip(0) =~= s);
        assert(s.take(0) + insert_range_spec(s, r) =~= insert_range_spec(s, r));
    } else {
        assert(!overlaps(s[0], r));
        assert(insert_range_spec(s, r) == seq![s[0]] + insert_range_spec(s.skip(1), r));
        lemma_insert_prefix(s.skip(1), r, i - 1);
        assert(s.skip(1).skip(i - 1) =~= s.skip(i));
        assert(insert_range_spec(s.skip(1), r) == s.skip(1).take(i - 1) + insert_range_spec(
            s.skip(i),
            r,
        ));
        assert(seq![s[0]] + (s.skip(1).take(i - 1) + insert_range_spec(s.skip(i), r)) =~= s.take(i)
            + insert_range_spec(s.skip(i), r));
    }
}

/// A range always overlaps the union hull it was merged into.
proof fn lemma_overlaps_union(a: CharRange, b: CharRange)
    requires
        overlaps(a, b),
    ensures
        overlaps(union_of(a, b), b),
        union_of(union_of(a, b), b) == union_of(a, b),
{
}

/// Inserting the same range twice is the same as inserting it once: the
/// second insertion merges into the very range the first one produced or
/// matched, and the union absorbs it without change.
pub proof fn lemma_insert_idempotent(s: Seq<CharRange>, r: CharRange)
    ensures
        insert_range_spec(insert_range_spec(s, r), r) == insert_range_spec(s, r),
    decreases s.len(),
{
    let t = insert_range_spec(s, r);
    if s.len() == 0 {
        assert(t =~= seq![r]);
        assert(overlaps(r, r));
        assert(union_of(r, r) == r);
        assert(insert_range_spec(t, r) =~= t);
    } else if overlaps(s[0], r) {
        let u = union_of(s[0], r);
        lemma_overlaps_union(s[0], r);
        assert(t =~= seq![u] + s.skip(1));
        assert(t[0] == u);
        assert(insert_range_spec(t, r) =~= seq![union_of(u, r)] + t.skip(1));
        assert(seq![union_of(u, r)] + t.skip(1) =~= t);
    } else {
        lemma_insert_idempotent(s.skip(1), r);
        assert(t =~= seq![s[0]] + insert_range_spec(s.skip(1), r));
        assert(t[0] == s[0]);
        assert(t.skip(1) =~= insert_range_spec(s.skip(1), r));
        assert(insert_range_spec(t, r) =~= seq![s[0]] + insert_range_spec(t.skip(1), r));
        assert(insert_range_spec(t, r) =~= t);
    }
}

/// Inserting into a one-range list, written out.
proof fn lemma_insert_into_one(x: CharRange, r: CharRange)
    ensures
        overlaps(x, r) ==> insert_range_spec(seq![x], r) == seq![union_of(x, r)],
        !overlaps(x, r) ==> insert_range_spec(seq![x], r) == seq![x, r],
{
    assert(seq![x][0] == x);
    if overlaps(x, r) {
        assert(insert_range_spec(seq![x], r) == seq![union_of(x, r)] + seq![x].skip(1));
        assert(seq![union_of(x, r)] + seq![x].skip(1) =~= seq![union_of(x, r)]);
    } else {
        assert(seq![x].skip(1) =~= Seq::<CharRange>::empty());
        assert(insert_range_spec(Seq::<CharRange>::empty(), r) == seq![r]);
        assert(insert_range_spec(seq![x], r) == seq![x] + seq![r]);
        assert(seq![x] + seq![r] =~= seq![x, r]);
    }
}

/// Inserting into a two-range list, written out: the first overlapping
/// range takes the union.
proof fn lemma_insert_into_two(x: CharRange, y: CharRange, r: CharRange)
    ensures
        overlaps(x, r) ==> insert_range_spec(seq![x, y], r) == seq![union_of(x, r), y],
        !overlaps(x, r) && overlaps(y, r) ==> insert_range_spec(seq![x, y], r) == seq![
            x,
            union_of(y, r),
        ],
        !overlaps(x, r) && !overlaps(y, r) ==> insert_range_spec(seq![x, y], r) == seq![x, y, r],
{
    assert(seq![x, y][0] == x);
    assert(seq![x, y].skip(1) =~= seq![y]);
    if overlaps(x, r) {
        assert(insert_range_spec(seq![x, y], r) == seq![union_of(x, r)] + seq![x, y].skip(1));
        assert(seq![union_of(x, r)] + seq![y] =~= seq![union_of(x, r), y]);
    } else {
        lemma_insert_into_one(y, r);
        assert(insert_range_spec(seq![x, y], r) == seq![x] + insert_range_spec(seq![y], r));
        if overlaps(y, r) {
            assert(seq![x] + seq![union_of(y, r)] =~= seq![x, union_of(y, r)]);
        } else {
            assert(seq![x] + seq![y, r] =~= seq![x, y, r]);
        }
    }
}

/// Two-element lists with the same members hold the same set.
proof fn lemma_pair_set(x: CharRange, y: CharRange)
    ensures
        seq![x, y].to_set() == seq![y, x].to_set(),
{
    assert(seq![x, y].to_set() =~= seq![y, x].to_set()) by {
        assert(forall|z: CharRange| seq![x, y].contains(z) <==> seq![y, x].contains(z)) by {
            assert(seq![x, y][0] == x && seq![x, y][1] == y);
            assert(seq![y, x][0] == y && seq![y, x][1] == x);
            assert(seq![x, y].contains(x) && seq![x, y].contains(y));
            assert(seq![y, x].contains(x) && seq![y, x].contains(y));
        }
    }
}

/// The merge fold on the concrete spans `[0,5)`, `[3,8)` and `[8,10)`:
/// inserted into an empty list in any of the six orders, the result holds
/// exactly the ranges `[0,8)` and `[8,10)` — the touching pair, with its
/// different starts, stays unmerged — and the two do not overlap; `[0,5)`
/// and `[2,4)` collapse to `[0,5)` alone in either order, and re-inserting
/// the contained range changes nothing.
pub proof fn lemma_merge_fold_example(a: CharRange, b: CharRange, c: CharRange, d: CharRange)
    requires
        a == (CharRange { start: 0, end: 5 }),
        b == (CharRange { start: 3, end: 8 }),
        c == (CharRange { start: 8, end: 10 }),
        d == (CharRange { start: 2, end: 4 }),
    ensures
        ({
            let e = Seq::<CharRange>::empty();
            let u = CharRange { start: 0, end: 8 };
            let expected = seq![u, c].to_set();
            &&& insert_range_spec(insert_range_spec(insert_range_spec(e, a), b), c).to_set()
                == expected
            &&& insert_range_spec(insert_range_spec(insert_range_spec(e, a), c), b).to_set()
                == expected
            &&& insert_range_spec(insert_range_spec(insert_range_spec(e, b), a), c).to_set()
                == expected
            &&& insert_range_spec(insert_range_spec(insert_range_spec(e, b), c), a).to_set()
                == expected
            &&& insert_range_spec(insert_range_spec(insert_range_spec(e, c), a), b).to_set()
                == expected
            &&& insert_range_spec(insert_range_spec(insert_range_spec(e, c), b), a).to_set()
                == expected
            &&& !overlaps(u, c) && !overlaps(c, u)
            &&& insert_range_spec(insert_range_spec(e, a), d) == seq![a]
            &&& insert_range_spec(insert_range_spec(e, d), a) == seq![a]
            &&& insert_range_spec(seq![a], d) == seq![a]
        }),
{
    let e = Seq::<CharRange>::empty();
    let u = CharRange { start: 0, end: 8 };
    assert(union_of(a, b) == u && union_of(b, a) == u);
    assert(insert_range_spec(e, a) == seq![a]);
    assert(insert_range_spec(e, b) == seq![b]);
    assert(insert_range_spec(e, c) == seq![c]);
    assert(insert_range_spec(e, d) == seq![d]);
    lemma_insert_into_one(a, b);
    lemma_insert_into_one(a, c);
    lemma_insert_into_one(b, a);
    lemma_insert_into_one(b, c);
    lemma_insert_into_one(c, a);
    lemma_insert_into_one(c, b);
    lemma_insert_into_one(a, d);
    lemma_insert_into_one(d, a);
    // a then b merge to the hull; c then lands beside it.
    assert(insert_range_spec(seq![a], b) == seq![u]);
    lemma_insert_into_one(u, c);
    assert(insert_range_spec(seq![u], c) == seq![u, c]);
    // a then c stay apart; b then merges into a.
    assert(insert_range_spec(seq![a], c) == seq![a, c]);
    lemma_insert_into_two(a, c, b);
    assert(insert_range_spec(seq![a, c], b) == seq![u, c]);
    // b then a merge; c lands beside.
    assert(insert_range_spec(seq![b], a) == seq![u]);
    // b then c stay apart; a merges into b.
    assert(insert_range_spec(seq![b], c) == seq![b, c]);
    lemma_insert_into_two(b, c, a);
    assert(union_of(b, a) == u);
    assert(insert_range_spec(seq![b, c], a) == seq![u, c]);
    // c then a stay apart; b merges into a.
    assert(insert_range_spec(seq![c], a) == seq![c, a]);
    lemma_insert_into_two(c, a, b);
    assert(union_of(a, b) == u);
    assert(insert_range_spec(seq![c, a], b) == seq![c, u]);
    // c then b stay apart; a merges into b.
    assert(insert_range_spec(seq![c], b) == seq![c, b]);
    lemma_insert_into_two(c, b, a);
    assert(insert_range_spec(seq![c, b], a) == seq![c, u]);
    lemma_pair_set(u, c);
    // the contained pair collapses either way.
    assert(union_of(a, d) == a && union_of(d, a) == a);
    assert(insert_range_spec(seq![a], d) == seq![a]);
    assert(insert_range_spec(seq![d], a) == seq![a]);
}

/// Inserting two ranges into an empty list yields the same set of ranges in
/// either order: a single union hull when they overlap, or both ranges kept
/// separate when they do not.
pub proof fn lemma_insert_pair_order_independent(a: CharRange, b: CharRange)
    ensures
        insert_range_spec(insert_range_spec(Seq::<CharRange>::empty(), a), b).to_set()
            == insert_range_spec(insert_range_spec(Seq::<CharRange>::empty(), b), a).to_set(),
{
    let e = Seq::<CharRange>::empty();
    let ab = insert_range_spec(insert_range_spec(e, a), b);
    let ba = insert_range_spec(insert_range_spec(e, b), a);
    assert(insert_range_spec(e, a) == seq![a]);
    assert(insert_range_spec(e, b) == seq![b]);
    assert(seq![a][0] == a);
    assert(seq![b][0] == b);
    if overlaps(a, b) {
        assert(overlaps(b, a));
        assert(ab == seq![union_of(a, b)] + seq![a].skip(1));
        assert(ba == seq![union_of(b, a)] + seq![b].skip(1));
        assert(union_of(a, b) == union_of(b, a));
        assert(seq![a].skip(1) =~= seq![b].skip(1));
        assert(ab.to_set() =~= ba.to_set());
    } else {
        assert(!overlaps(b, a));
        assert(seq![a].skip(1) =~= e);
        assert(seq![b].skip(1) =~= e);
        assert(ab == seq![a] + insert_range_spec(e, b));
        assert(ba == seq![b] + insert_range_spec(e, a));
        assert(ab =~= seq![a, b]);
        assert(ba =~= seq![b, a]);
        assert(ab.to_set() =~= ba.to_set()) by {
            assert(forall|x: CharRange| ab.contains(x) <==> ba.contains(x)) by {
                assert(ab.contains(a)) by {
                    assert(ab[0] == a);
                }
                assert(ab.contains(b)) by {
                    assert(ab[1] == b);
                }
                assert(ba.contains(a)) by {
                    assert(ba[1] == a);
                }
                assert(ba.contains(b)) by {
                    assert(ba[0] == b);
                }
            }
        }
    }
}

} // verus!

