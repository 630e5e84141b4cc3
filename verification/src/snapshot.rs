//! An immutable buffer snapshot: a sequence of characters with
//! line/character conversion.  Lines are separated by `'\n'`; a position's
//! line is the number of line breaks before it, and a line's start is the
//! position just after the line's preceding break.

use vstd::prelude::*;

verus! {

/// An immutable snapshot of one document's text, indexed by character.
pub struct Snapshot {
    pub text: Vec<char>,
}

impl View for Snapshot {
    type V = Seq<char>;

    open spec fn view(&self) -> Seq<char> {
        self.text@
    }
}

/// The number of line breaks strictly before position `pos`.
pub open spec fn newlines_before(t: Seq<char>, pos: int) -> nat
    decreases pos,
{
    if pos <= 0 {
        0
    } else {
        newlines_before(t, pos - 1) + if 0 <= pos - 1 < t.len() && t[pos - 1] == '\n' {
            1nat
        } else {
            0nat
        }
    }
}

/// The position of the first line break at or after `i`, or the text length
/// when the rest of the text holds none.
pub open spec fn next_newline(t: Seq<char>, i: int) -> int
    decreases t.len() - i,
{
    if i < 0 || i >= t.len() {
        t.len() as int
    } else if t[i] == '\n' {
        i
    } else {
        next_newline(t, i + 1)
    }
}

/// The character position where line `line` starts; the text length when the
/// text has fewer lines.
pub open spec fn line_start(t: Seq<char>, line: nat) -> int
    decreases line,
{
    if line == 0 {
        0
    } else {
        let j = next_newline(t, line_start(t, (line - 1) as nat));
        if j >= t.len() {
            t.len() as int
        } else {
            j + 1
        }
    }
}

impl Snapshot {
    /// The number of characters in the snapshot.
    pub fn len(&self) -> (n: usize)
        ensures
            n == self@.len(),
    {
        self.text.len()
    }

    /// The character at position `i`.
    pub fn char_at(&self, i: usize) -> (c: char)
        requires
            i < self@.len(),
        ensures
            c == self@[i as int],
    {
        self.text[i]
    }

    /// A copy of this snapshot with the same characters: snapshots are
    /// immutable handles that every view of a document shares.
    pub fn duplicate(&self) -> (r: Snapshot)
        ensures
            r@ == self@,
    {
        let n = self.text.len();
        let mut v: Vec<char> = Vec::new();
        let mut i: usize = 0;
        proof {
            assert(v@ =~= self@.take(0));
        }
        while i < n
            invariant
                i <= n,
                n == self@.len(),
                v@ == self@.take(i as int),
            decreases n - i,
        {
            v.push(self.text[i]);
            proof {
                assert(v@ =~= self@.take(i as int + 1));
            }
            i += 1;
        }
        proof {
            assert(v@ =~= self@);
        }
        Snapshot { text: v }
    }

    /// The characters of the half-open range `from..to`.
    pub fn copy_range(&self, from: usize, to: usize) -> (res: Vec<char>)
        requires
            from <= to <= self@.len(),
        ensures
            res@ == self@.subrange(from as int, to as int),
    {
        let mut v: Vec<char> = Vec::new();
        let mut k = from;
        proof {
            assert(v@ =~= self@.subrange(from as int, from as int));
        }
        while k < to
            invariant
                from <= k <= to <= self@.len(),
                v@ == self@.subrange(from as int, k as int),
            decreases to - k,
        {
            v.push(self.text[k]);
            proof {
                assert(v@ =~= self@.subrange(from as int, k as int + 1));
            }
            k += 1;
        }
        v
    }

    /// The line containing position `pos`: the number of line breaks before
    /// it.  Positions past the end of the text count as the last position.
    pub fn char_to_line(&self, pos: usize) -> (line: usize)
        ensures
            line == newlines_before(self@, if pos <= self@.len() {
                pos as int
            } else {
                self@.len() as int
            }),
    {
        let n = self.text.len();
        let upto = if pos <= n {
            pos
        } else {
            n
        };
        let mut count: usize = 0;
        let mut i: usize = 0;
        while i < upto
            invariant
                i <= upto <= self@.len(),
                count == newlines_before(self@, i as int),
                count <= i,
            decreases upto - i,
        {
            if self.text[i] == '\n' {
                count += 1;
            }
            i += 1;
        }
        count
    }

    /// The position where line `line` starts; the text length when the text
    /// has fewer lines.
    pub fn line_to_char(&self, line: usize) -> (pos: usize)
        ensures
            pos == line_start(self@, line as nat),
            pos <= self@.len(),
    {
        let n = self.text.len();
        let mut p: usize = 0;
        let mut k: usize = 0;
        proof {
            lemma_line_start_bounds(self@, 0);
        }
        while k < line
            invariant
                k <= line,
                p == line_start(self@, k as nat),
                p <= self@.len(),
                n == self@.len(),
            decreases line - k,
        {
            let mut j = p;
            while j < n && self.text[j] != '\n'
                invariant
                    p <= j <= n,
                    n == self@.len(),
                    next_newline(self@, j as int) == next_newline(self@, p as int),
                decreases n - j,
            {
                j += 1;
            }
            assert(next_newline(self@, j as int) == j || (j == n && next_newline(
                self@,
                j as int,
            ) == n));
            if j >= n {
                p = n;
            } else {
                p = j + 1;
            }
            k += 1;
        }
        p
    }
}

/// A line's start position lies within the text.
pub proof fn lemma_line_start_bounds(t: Seq<char>, line: nat)
    ensures
        0 <= line_start(t, line) <= t.len(),
    decreases line,
{
    if line > 0 {
        lemma_line_start_bounds(t, (line - 1) as nat);
        lemma_next_newline_bounds(t, line_start(t, (line - 1) as nat));
    }
}

/// A position's line number never exceeds the position itself.
pub proof fn lemma_newlines_le(t: Seq<char>, pos: int)
    requires
        pos >= 0,
    ensures
        newlines_before(t, pos) <= pos,
    decreases pos,
{
    if pos > 0 {
        lemma_newlines_le(t, pos - 1);
    }
}

/// The next line break at or after a position within the text lies between
/// that position and the text's end.
pub proof fn lemma_next_newline_bounds(t: Seq<char>, i: int)
    requires
        0 <= i <= t.len(),
    ensures
        i <= next_newline(t, i) <= t.len(),
    decreases t.len() - i,
{
    if i < t.len() && t[i] != '\n' {
        lemma_next_newline_bounds(t, i + 1);
    }
}

} // verus!
