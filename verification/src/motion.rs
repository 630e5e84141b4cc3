//! Character-class word-boundary motion over a snapshot: moving to the
//! start of the previous word and to the end of the current or next word.
//! A word is a maximal run of characters of one non-whitespace class (word
//! characters, or punctuation).

use vstd::prelude::*;
use crate::chars::{CharClass, class_of, classify, is_ws_char, ws_char};
use crate::snapshot::Snapshot;

verus! {

/// A scan cursor: `anchor` marks where the current word begins or where the
/// last motion started, `head` where it ended.
#[derive(Clone, Copy, PartialEq, Eq, Structural, Debug)]
pub struct Cursor {
    pub anchor: usize,
    pub head: usize,
}

/// The first position at or after `i` whose character leaves class `cl`, or
/// the text length.
pub open spec fn run_end_from(t: Seq<char>, i: int, cl: CharClass) -> int
    decreases t.len() - i,
{
    if i < 0 || i >= t.len() {
        t.len() as int
    } else if class_of(t[i]) == cl {
        run_end_from(t, i + 1, cl)
    } else {
        i
    }
}

/// The first position at or before `i` that no character of class `cl`
/// precedes.
pub open spec fn run_start_from(t: Seq<char>, i: int, cl: CharClass) -> int
    decreases i,
{
    if i <= 0 {
        0
    } else if 0 <= i - 1 < t.len() && class_of(t[i - 1]) == cl {
        run_start_from(t, i - 1, cl)
    } else {
        i
    }
}

/// Where the "move to previous word start" motion lands from `pos`: skip
/// whitespace backward, then move to the start of the run of same-class
/// characters that ends there.  From position `0` the motion does not move.
pub open spec fn prev_word_start_spec(t: Seq<char>, pos: int) -> int {
    if pos <= 0 {
        pos
    } else {
        let j = run_start_from(t, pos, CharClass::Whitespace);
        if j == 0 {
            0
        } else {
            run_start_from(t, j, class_of(t[j - 1]))
        }
    }
}

/// Where the "move to next word end" motion lands from a cursor at `head`:
/// the head moves to the end of the current run when `head` sits in one, and
/// otherwise past whitespace to the end of the following run; the anchor
/// marks the start of that run, or the old head where whitespace was
/// skipped.  At the text's end the cursor does not move.
pub open spec fn next_word_end_spec(t: Seq<char>, anchor: int, head: int) -> (int, int) {
    if head < 0 || head >= t.len() {
        (anchor, head)
    } else if ws_char(t[head]) {
        let s = run_end_from(t, head, CharClass::Whitespace);
        if s >= t.len() {
            (head, t.len() as int)
        } else {
            (head, run_end_from(t, s, class_of(t[s])))
        }
    } else {
        let cl = class_of(t[head]);
        (run_start_from(t, head, cl), run_end_from(t, head, cl))
    }
}

/// The end of a run starting within the text lies between its start and the
/// text's end.
pub proof fn lemma_run_end_from_bounds(t: Seq<char>, i: int, cl: CharClass)
    requires
        0 <= i <= t.len(),
    ensures
        i <= run_end_from(t, i, cl) <= t.len(),
    decreases t.len() - i,
{
    if i < t.len() && class_of(t[i]) == cl {
        lemma_run_end_from_bounds(t, i + 1, cl);
    }
}

/// Every character of a run has the run's class, and the run's end is a
/// real boundary: the text's end, or a character of another class.
pub proof fn lemma_run_end_from_content(t: Seq<char>, i: int, cl: CharClass)
    requires
        0 <= i <= t.len(),
    ensures
        forall|k: int| i <= k < run_end_from(t, i, cl) ==> class_of(t[k]) == cl,
        run_end_from(t, i, cl) < t.len() ==> class_of(t[run_end_from(t, i, cl)]) != cl,
    decreases t.len() - i,
{
    if i < t.len() && class_of(t[i]) == cl {
        lemma_run_end_from_content(t, i + 1, cl);
        assert forall|k: int| i <= k < run_end_from(t, i, cl) implies class_of(t[k]) == cl by {
            if k > i {
                assert(i + 1 <= k < run_end_from(t, i + 1, cl));
            }
        }
    }
}

/// A run's end is determined: when the characters from `i` up to a
/// boundary `j` all have class `cl`, the run ends exactly at `j`.
pub proof fn lemma_run_end_from_exact(t: Seq<char>, i: int, j: int, cl: CharClass)
    requires
        0 <= i <= j <= t.len(),
        forall|k: int| i <= k < j ==> class_of(t[k]) == cl,
        j == t.len() || class_of(t[j]) != cl,
    ensures
        run_end_from(t, i, cl) == j,
    decreases j - i,
{
    if i < j {
        assert(class_of(t[i]) == cl);
        lemma_run_end_from_exact(t, i + 1, j, cl);
    }
}

/// From any position short of the text's end, the "next word end" motion
/// strictly advances the head, and never past the end.
pub proof fn lemma_next_word_end_advances(t: Seq<char>, a: int, h: int)
    requires
        0 <= h < t.len(),
    ensures
        h < next_word_end_spec(t, a, h).1 <= t.len(),
{
    if ws_char(t[h]) {
        let s = run_end_from(t, h, CharClass::Whitespace);
        assert(class_of(t[h]) == CharClass::Whitespace);
        assert(s == run_end_from(t, h + 1, CharClass::Whitespace));
        lemma_run_end_from_bounds(t, h + 1, CharClass::Whitespace);
        if s < t.len() {
            let cl = class_of(t[s]);
            assert(run_end_from(t, s, cl) == run_end_from(t, s + 1, cl));
            lemma_run_end_from_bounds(t, s + 1, cl);
        }
    } else {
        let cl = class_of(t[h]);
        assert(run_end_from(t, h, cl) == run_end_from(t, h + 1, cl));
        lemma_run_end_from_bounds(t, h + 1, cl);
    }
}

/// Walks forward to the end of the run of class `cl` characters at `i`.
fn run_end_exec(snap: &Snapshot, i: usize, cl: CharClass) -> (res: usize)
    requires
        i <= snap@.len(),
    ensures
        res == run_end_from(snap@, i as int, cl),
        i <= res <= snap@.len(),
        res == snap@.len() || class_of(snap@[res as int]) != cl,
{
    let n = snap.len();
    let mut s = i;
    while s < n
        invariant
            i <= s <= n,
            n == snap@.len(),
            run_end_from(snap@, s as int, cl) == run_end_from(snap@, i as int, cl),
        ensures
            i <= s <= n,
            run_end_from(snap@, s as int, cl) == run_end_from(snap@, i as int, cl),
            s == n || class_of(snap@[s as int]) != cl,
        decreases n - s,
    {
        if classify(snap.char_at(s)) != cl {
            break ;
        }
        s += 1;
    }
    s
}

/// Walks backward to the start of the run of class `cl` characters ending at
/// `i`.
fn run_start_exec(snap: &Snapshot, i: usize, cl: CharClass) -> (res: usize)
    requires
        i <= snap@.len(),
    ensures
        res == run_start_from(snap@, i as int, cl),
        res <= i,
        res == 0 || res > snap@.len() || class_of(snap@[res - 1]) != cl,
{
    let mut s = i;
    while s > 0
        invariant
            s <= i <= snap@.len(),
            run_start_from(snap@, s as int, cl) == run_start_from(snap@, i as int, cl),
        ensures
            s <= i,
            run_start_from(snap@, s as int, cl) == run_start_from(snap@, i as int, cl),
            s == 0 || class_of(snap@[s - 1]) != cl,
        decreases s,
    {
        if classify(snap.char_at(s - 1)) != cl {
            break ;
        }
        s -= 1;
    }
    s
}

/// The "move to previous word start" motion: lands strictly before `pos`
/// except at the very start of the text, where it does not move.
pub fn prev_word_start(snap: &Snapshot, pos: usize) -> (res: usize)
    requires
        pos <= snap@.len(),
    ensures
        res == prev_word_start_spec(snap@, pos as int),
        res <= pos,
        pos > 0 ==> res < pos,
{
    if pos == 0 {
        0
    } else {
        let j = run_start_exec(snap, pos, CharClass::Whitespace);
        if j == 0 {
            0
        } else {
            let cl = classify(snap.char_at(j - 1));
            let res = run_start_exec(snap, j, cl);
            assert(res < j) by {
                if res == j {
                    assert(class_of(snap@[j - 1]) != cl);
                }
            }
            res
        }
    }
}

/// The "move to next word end" motion: the head lands at the end of the
/// current or next word and, while any position short of the text's end
/// remains, strictly advances.
pub fn next_word_end(snap: &Snapshot, cur: Cursor) -> (res: Cursor)
    requires
        cur.head <= snap@.len(),
    ensures
        (res.anchor as int, res.head as int) == next_word_end_spec(
            snap@,
            cur.anchor as int,
            cur.head as int,
        ),
        res.head <= snap@.len(),
        cur.anchor <= snap@.len() ==> res.anchor <= snap@.len(),
        cur.head < snap@.len() ==> res.head > cur.head,
        cur.head == snap@.len() ==> res == cur,
{
    let n = snap.len();
    if cur.head >= n {
        cur
    } else {
        let c = snap.char_at(cur.head);
        if is_ws_char(c) {
            let s = run_end_exec(snap, cur.head, CharClass::Whitespace);
            assert(s > cur.head) by {
                assert(class_of(snap@[cur.head as int]) == CharClass::Whitespace);
            }
            if s >= n {
                Cursor { anchor: cur.head, head: n }
            } else {
                let cl = classify(snap.char_at(s));
                let e = run_end_exec(snap, s, cl);
                assert(e > s) by {
                    if e == s {
                        assert(class_of(snap@[s as int]) != cl);
                    }
                }
                Cursor { anchor: cur.head, head: e }
            }
        } else {
            let cl = classify(c);
            let rs = run_start_exec(snap, cur.head, cl);
            let e = run_end_exec(snap, cur.head, cl);
            assert(e > cur.head) by {
                if e == cur.head {
                    assert(class_of(snap@[cur.head as int]) != cl);
                }
            }
            Cursor { anchor: rs, head: e }
        }
    }
}

} // verus!
