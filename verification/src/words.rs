//! The candidate word set: a list of words kept sorted by code-point
//! lexicographic order and free of duplicates, so scanning order never shows
//! through in the output.

use vstd::prelude::*;

verus! {

/// Code-point lexicographic order on words: strictly less.
pub open spec fn lex_less(a: Seq<char>, b: Seq<char>) -> bool
    decreases a.len(),
{
    if b.len() == 0 {
        false
    } else if a.len() == 0 {
        true
    } else if (a[0] as u32) < (b[0] as u32) {
        true
    } else if (a[0] as u32) > (b[0] as u32) {
        false
    } else {
        lex_less(a.skip(1), b.skip(1))
    }
}

/// Insertion into a sorted word list: already-present words are dropped,
/// new ones go before the first strictly greater entry.
pub open spec fn insert_word_spec(s: Seq<Seq<char>>, w: Seq<char>) -> Seq<Seq<char>>
    decreases s.len(),
{
    if s.len() == 0 {
        seq![w]
    } else if s[0] == w {
        s
    } else if lex_less(w, s[0]) {
        seq![w] + s
    } else {
        seq![s[0]] + insert_word_spec(s.skip(1), w)
    }
}

/// A word list in strictly increasing order; such a list holds each word at
/// most once.
pub open spec fn sorted_unique(s: Seq<Seq<char>>) -> bool {
    forall|i: int, j: int| 0 <= i < j < s.len() ==> lex_less(s[i], s[j])
}

/// Characters with the same code point are the same character.
proof fn lemma_char_same(a: char, b: char)
    requires
        a as u32 == b as u32,
    ensures
        a == b,
{
}

/// No word is strictly less than itself.
pub proof fn lemma_lex_irrefl(a: Seq<char>)
    ensures
        !lex_less(a, a),
    decreases a.len(),
{
    if a.len() > 0 {
        lemma_lex_irrefl(a.skip(1));
    }
}

/// Two words that are each not less than the other are equal.
pub proof fn lemma_lex_connex(a: Seq<char>, b: Seq<char>)
    requires
        !lex_less(a, b),
        !lex_less(b, a),
    ensures
        a == b,
    decreases a.len(),
{
    if a.len() == 0 || b.len() == 0 {
        assert(a =~= b);
    } else {
        assert(!((a[0] as u32) < (b[0] as u32)));
        assert(!((b[0] as u32) < (a[0] as u32)));
        assert((a[0] as u32) == (b[0] as u32));
        lemma_char_same(a[0], b[0]);
        lemma_lex_connex(a.skip(1), b.skip(1));
        assert(a =~= seq![a[0]] + a.skip(1));
        assert(b =~= seq![b[0]] + b.skip(1));
    }
}

/// Lexicographic order is transitive.
pub proof fn lemma_lex_trans(a: Seq<char>, b: Seq<char>, c: Seq<char>)
    requires
        lex_less(a, b),
        lex_less(b, c),
    ensures
        lex_less(a, c),
    decreases a.len(),
{
    if a.len() == 0 {
    } else {
        if (a[0] as u32) == (b[0] as u32) && (b[0] as u32) == (c[0] as u32) {
            lemma_lex_trans(a.skip(1), b.skip(1), c.skip(1));
        }
    }
}

/// Inserting a word keeps the list sorted and duplicate-free.
pub proof fn lemma_insert_word_sorted(s: Seq<Seq<char>>, w: Seq<char>)
    requires
        sorted_unique(s),
    ensures
        sorted_unique(insert_word_spec(s, w)),
    decreases s.len(),
{
    let t = insert_word_spec(s, w);
    if s.len() == 0 {
        assert(t == seq![w]);
    } else if s[0] == w {
    } else if lex_less(w, s[0]) {
        assert(t == seq![w] + s);
        assert forall|i: int, j: int| 0 <= i < j < t.len() implies lex_less(t[i], t[j]) by {
            if i == 0 {
                if j == 1 {
                    assert(t[j] == s[0]);
                } else {
                    assert(lex_less(s[0], s[j - 1]));
                    lemma_lex_trans(w, s[0], s[j - 1]);
                }
            } else {
                assert(lex_less(s[i - 1], s[j - 1]));
            }
        }
    } else {
        assert(lex_less(s[0], w)) by {
            if !lex_less(s[0], w) {
                lemma_lex_connex(w, s[0]);
            }
        }
        assert(sorted_unique(s.skip(1))) by {
            assert forall|i: int, j: int| 0 <= i < j < s.skip(1).len() implies lex_less(
                s.skip(1)[i],
                s.skip(1)[j],
            ) by {
                assert(s.skip(1)[i] == s[i + 1]);
                assert(s.skip(1)[j] == s[j + 1]);
            }
        }
        lemma_insert_word_sorted(s.skip(1), w);
        let u = insert_word_spec(s.skip(1), w);
        assert(t == seq![s[0]] + u);
        assert forall|i: int, j: int| 0 <= i < j < t.len() implies lex_less(t[i], t[j]) by {
            if i == 0 {
                assert(t[j] == u[j - 1]);
                assert(u.contains(u[j - 1]));
                lemma_insert_word_contains(s.skip(1), w, u[j - 1]);
                if u[j - 1] == w {
                    assert(lex_less(s[0], w));
                } else {
                    assert(s.skip(1).contains(u[j - 1]));
                    let k = choose|k: int| 0 <= k < s.skip(1).len() && s.skip(1)[k] == u[j - 1];
                    assert(s[k + 1] == u[j - 1]);
                    if k + 1 > 0 {
                        assert(lex_less(s[0], s[k + 1]));
                    }
                }
            } else {
                assert(t[i] == u[i - 1] && t[j] == u[j - 1]);
            }
        }
    }
}

/// What the inserted list holds: the old words and the new one, nothing
/// else.
pub proof fn lemma_insert_word_contains(s: Seq<Seq<char>>, w: Seq<char>, x: Seq<char>)
    ensures
        insert_word_spec(s, w).contains(x) <==> (s.contains(x) || x == w),
    decreases s.len(),
{
    let t = insert_word_spec(s, w);
    if s.len() == 0 {
        assert(t == seq![w]);
        assert(t[0] == w);
        if t.contains(x) {
            let k = choose|k: int| 0 <= k < t.len() && t[k] == x;
            assert(x == w);
        }
        if x == w {
            assert(t.contains(x));
        }
    } else if s[0] == w {
        if x == w {
            assert(s[0] == x);
            assert(s.contains(x));
        }
    } else if lex_less(w, s[0]) {
        assert(t == seq![w] + s);
        if t.contains(x) {
            let k = choose|k: int| 0 <= k < t.len() && t[k] == x;
            if k == 0 {
                assert(x == w);
            } else {
                assert(s[k - 1] == x);
                assert(s.contains(x));
            }
        }
        if x == w {
            assert(t[0] == x);
            assert(t.contains(x));
        }
        if s.contains(x) {
            let k = choose|k: int| 0 <= k < s.len() && s[k] == x;
            assert(t[k + 1] == x);
            assert(t.contains(x));
        }
    } else {
        lemma_insert_word_contains(s.skip(1), w, x);
        let u = insert_word_spec(s.skip(1), w);
        assert(t == seq![s[0]] + u);
        if t.contains(x) {
            let k = choose|k: int| 0 <= k < t.len() && t[k] == x;
            if k == 0 {
                assert(s[0] == x);
                assert(s.contains(x));
            } else {
                assert(u[k - 1] == x);
                assert(u.contains(x));
                if x != w {
                    assert(s.skip(1).contains(x));
                    let m = choose|m: int| 0 <= m < s.skip(1).len() && s.skip(1)[m] == x;
                    assert(s[m + 1] == x);
                    assert(s.contains(x));
                }
            }
        }
        if x == w {
            assert(u.contains(x));
            let k = choose|k: int| 0 <= k < u.len() && u[k] == x;
            assert(t[k + 1] == x);
            assert(t.contains(x));
        }
        if s.contains(x) {
            let k = choose|k: int| 0 <= k < s.len() && s[k] == x;
            if k == 0 {
                assert(t[0] == x);
                assert(t.contains(x));
            } else {
                assert(s.skip(1)[k - 1] == x);
                assert(s.skip(1).contains(x));
                assert(u.contains(x));
                let m = choose|m: int| 0 <= m < u.len() && u[m] == x;
                assert(t[m + 1] == x);
                assert(t.contains(x));
            }
        }
    }
}

/// A sorted word list holds each word at most once.
pub proof fn lemma_sorted_unique_distinct(s: Seq<Seq<char>>)
    requires
        sorted_unique(s),
    ensures
        forall|i: int, j: int| 0 <= i < j < s.len() ==> s[i] != s[j],
{
    assert forall|i: int, j: int| 0 <= i < j < s.len() implies s[i] != s[j] by {
        assert(lex_less(s[i], s[j]));
        lemma_lex_irrefl(s[i]);
    }
}

/// Whether word `a` is strictly less than word `b` in code-point order.
pub fn lex_less_exec(a: &Vec<char>, b: &Vec<char>) -> (r: bool)
    ensures
        r == lex_less(a@, b@),
{
    let na = a.len();
    let nb = b.len();
    let mut i: usize = 0;
    proof {
        assert(a@.skip(0) =~= a@);
        assert(b@.skip(0) =~= b@);
    }
    while i < na && i < nb
        invariant
            i <= na,
            i <= nb,
            na == a@.len(),
            nb == b@.len(),
            lex_less(a@, b@) == lex_less(a@.skip(i as int), b@.skip(i as int)),
        ensures
            i <= na,
            i <= nb,
            lex_less(a@, b@) == lex_less(a@.skip(i as int), b@.skip(i as int)),
            i < na && i < nb ==> (a@[i as int] as u32) != (b@[i as int] as u32),
        decreases na - i,
    {
        if (a[i] as u32) < (b[i] as u32) {
            break ;
        }
        if (a[i] as u32) > (b[i] as u32) {
            break ;
        }
        proof {
            assert(a@.skip(i as int)[0] == a@[i as int]);
            assert(b@.skip(i as int)[0] == b@[i as int]);
            assert(a@.skip(i as int).skip(1) =~= a@.skip(i as int + 1));
            assert(b@.skip(i as int).skip(1) =~= b@.skip(i as int + 1));
        }
        i += 1;
    }
    let ghost sa = a@.skip(i as int);
    let ghost sb = b@.skip(i as int);
    if i < na && i < nb {
        proof {
            assert(sa[0] == a@[i as int]);
            assert(sb[0] == b@[i as int]);
        }
        (a[i] as u32) < (b[i] as u32)
    } else if i < nb {
        proof {
            assert(sa.len() == 0);
            assert(sb.len() > 0);
        }
        true
    } else {
        proof {
            assert(sb.len() == 0);
        }
        false
    }
}

/// Whether two words are the same sequence of characters.
pub fn words_equal(a: &Vec<char>, b: &Vec<char>) -> (r: bool)
    ensures
        r == (a@ == b@),
{
    let na = a.len();
    let nb = b.len();
    if na != nb {
        assert(a@ != b@) by {
            if a@ == b@ {
                assert(a@.len() == b@.len());
            }
        }
        return false;
    }
    let mut i: usize = 0;
    while i < na
        invariant
            i <= na,
            na == a@.len(),
            na == b@.len(),
            forall|k: int| 0 <= k < i ==> a@[k] == b@[k],
        ensures
            i <= na,
            forall|k: int| 0 <= k < i ==> a@[k] == b@[k],
            i < na ==> a@[i as int] != b@[i as int],
        decreases na - i,
    {
        if a[i] != b[i] {
            break ;
        }
        i += 1;
    }
    if i < na {
        false
    } else {
        proof {
            assert(a@ =~= b@);
        }
        true
    }
}

/// When no word before position `i` equals or exceeds `w`, insertion leaves
/// that prefix unchanged and acts on the remainder of the list.
proof fn lemma_insert_word_prefix(s: Seq<Seq<char>>, w: Seq<char>, i: int)
    requires
        0 <= i <= s.len(),
        forall|k: int| 0 <= k < i ==> s[k] != w && !lex_less(w, s[k]),
    ensures
        insert_word_spec(s, w) == s.take(i) + insert_word_spec(s.skip(i), w),
    decreases i,
{
    if i == 0 {
        assert(s.skip(0) =~= s);
        assert(s.take(0) + insert_word_spec(s, w) =~= insert_word_spec(s, w));
    } else {
        assert(s[0] != w && !lex_less(w, s[0]));
        assert(insert_word_spec(s, w) == seq![s[0]] + insert_word_spec(s.skip(1), w));
        lemma_insert_word_prefix(s.skip(1), w, i - 1);
        assert(s.skip(1).skip(i - 1) =~= s.skip(i));
        assert(insert_word_spec(s.skip(1), w) == s.skip(1).take(i - 1) + insert_word_spec(
            s.skip(i),
            w,
        ));
        assert(seq![s[0]] + (s.skip(1).take(i - 1) + insert_word_spec(s.skip(i), w)) =~= s.take(i)
            + insert_word_spec(s.skip(i), w));
    }
}

/// Inserts a word into the sorted candidate list, keeping it sorted and
/// dropping the word when it is already present.
pub fn insert_word(list: Vec<Vec<char>>, w: Vec<char>) -> (res: Vec<Vec<char>>)
    ensures
        res.deep_view() == insert_word_spec(list.deep_view(), w@),
{
    let ghost s = list.deep_view();
    let mut list = list;
    let n = list.len();
    let mut pos: usize = n;
    let mut dup: bool = false;
    let mut i: usize = 0;
    proof {
        assert(s.len() == n) by {
            assert(list.deep_view().len() == list@.len());
        }
    }
    while i < n
        invariant_except_break
            pos == n,
            !dup,
        invariant
            i <= n,
            n == s.len(),
            list.deep_view() == s,
            n == list@.len(),
            forall|k: int| 0 <= k < i ==> s[k] != w@ && !lex_less(w@, s[k]),
        ensures
            n == s.len(),
            list.deep_view() == s,
            n == list@.len(),
            pos <= n,
            forall|k: int| 0 <= k < pos ==> s[k] != w@ && !lex_less(w@, s[k]),
            dup ==> pos < n && s[pos as int] == w@,
            !dup && pos < n ==> s[pos as int] != w@ && lex_less(w@, s[pos as int]),
        decreases n - i,
    {
        proof {
            assert(list.deep_view()[i as int] == list@[i as int]@);
        }
        if words_equal(&list[i], &w) {
            pos = i;
            dup = true;
            break ;
        }
        if lex_less_exec(&w, &list[i]) {
            pos = i;
            break ;
        }
        i += 1;
    }
    if dup {
        proof {
            lemma_insert_word_prefix(s, w@, pos as int);
            assert(s.skip(pos as int)[0] == s[pos as int]);
            assert(insert_word_spec(s.skip(pos as int), w@) == s.skip(pos as int));
            assert(s.take(pos as int) + s.skip(pos as int) =~= s);
        }
        list
    } else if pos < n {
        list.insert(pos, w);
        proof {
            lemma_insert_word_prefix(s, w@, pos as int);
            assert(s.skip(pos as int)[0] == s[pos as int]);
            assert(insert_word_spec(s.skip(pos as int), w@) == seq![w@] + s.skip(pos as int));
            assert(list.deep_view() =~= s.take(pos as int) + (seq![w@] + s.skip(pos as int))) by {
                assert(list@.len() == n + 1);
                assert(forall|k: int|
                    0 <= k < list@.len() ==> list.deep_view()[k] == list@[k]@);
            }
        }
        list
    } else {
        list.push(w);
        proof {
            lemma_insert_word_prefix(s, w@, s.len() as int);
            assert(s.skip(s.len() as int) =~= Seq::<Seq<char>>::empty());
            assert(insert_word_spec(Seq::<Seq<char>>::empty(), w@) == seq![w@]);
            assert(list.deep_view() =~= s.take(s.len() as int) + seq![w@]) by {
                assert(list@.len() == n + 1);
                assert(forall|k: int|
                    0 <= k < list@.len() ==> list.deep_view()[k] == list@[k]@);
            }
        }
        list
    }
}

} // verus!
