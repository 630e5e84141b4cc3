//! The completion engine's entry points: trigger policy, locating the typed
//! word fragment, the cheap synchronous phase that collects viewport ranges
//! and checks cancellation, the deferred scan task, and the staleness filter
//! over already-produced suggestions.

use vstd::prelude::*;
use crate::chars::{word_char, ws_char, is_word_char, is_ws_char};
use crate::collect::{Doc, ViewInfo, DocRanges, collect_ranges, collect_spec, collected_view, docs_view};
use crate::motion::{prev_word_start, prev_word_start_spec};
use crate::range::CharRange;
use crate::scan::{scan_words, scan_docs_spec};
use crate::snapshot::Snapshot;

verus! {

/// Why a completion request started.
#[derive(Clone, Copy, PartialEq, Eq, Structural, Debug)]
pub enum TriggerKind {
    Manual,
    Automatic,
}

/// A completion trigger: its kind and the cursor position it fired at.
#[derive(Clone, Copy, PartialEq, Eq, Structural, Debug)]
pub struct Trigger {
    pub kind: TriggerKind,
    pub position: usize,
}

/// The least word length, in characters, a manual trigger asks for.
pub const MANUAL_MIN_WORD_LEN: usize = 2;

/// The least word length, in characters, an automatic trigger asks for.
pub const AUTO_MIN_WORD_LEN: usize = 8;

/// The provisional priority tag every word suggestion carries.
pub const WORD_PRIORITY: i8 = 1;

/// The minimum candidate word length a trigger kind demands.
pub open spec fn min_word_len_spec(kind: TriggerKind) -> nat {
    if kind == TriggerKind::Manual {
        MANUAL_MIN_WORD_LEN as nat
    } else {
        AUTO_MIN_WORD_LEN as nat
    }
}

/// The trigger policy: two characters suffice for a manual trigger, eight
/// for any automatic one.
pub fn min_word_len(kind: TriggerKind) -> (r: usize)
    ensures
        r as nat == min_word_len_spec(kind),
{
    match kind {
        TriggerKind::Manual => MANUAL_MIN_WORD_LEN,
        TriggerKind::Automatic => AUTO_MIN_WORD_LEN,
    }
}

/// The typed word fragment: its character range and how many characters an
/// accepted suggestion must replace.
#[derive(Clone, Copy, PartialEq, Eq, Structural, Debug)]
pub struct TypedWord {
    pub range: CharRange,
    pub edit_diff: usize,
}

/// Whether the `min_len` characters starting at `head` exist and are all
/// word characters: the guard an automatic trigger places on the fragment.
pub open spec fn auto_run_ok(t: Seq<char>, head: int, min_len: nat) -> bool {
    head + min_len <= t.len() && (forall|k: int| head <= k < head + min_len ==> word_char(t[k]))
}

/// Locating the typed word: the backward word-boundary search must move,
/// an automatic trigger must find its minimum run of word characters at the
/// fragment's start, and the count of characters to erase is zero when the
/// fragment ends in whitespace.
pub open spec fn locate_typed_word_spec(t: Seq<char>, pos: int, kind: TriggerKind) -> Option<
    TypedWord,
> {
    if pos <= 0 || pos > t.len() {
        None
    } else {
        let head = prev_word_start_spec(t, pos);
        if kind != TriggerKind::Manual && !auto_run_ok(t, head, min_word_len_spec(kind)) {
            None
        } else {
            let diff = if ws_char(t[pos - 1]) {
                0
            } else {
                pos - head
            };
            Some(
                TypedWord {
                    range: CharRange { start: head as usize, end: pos as usize },
                    edit_diff: diff as usize,
                },
            )
        }
    }
}

/// Whether the `min_len` characters from `head` on are all word characters.
fn word_run_at(snap: &Snapshot, head: usize, min_len: usize) -> (r: bool)
    requires
        head <= snap@.len(),
    ensures
        r == auto_run_ok(snap@, head as int, min_len as nat),
{
    let n = snap.len();
    if n - head < min_len {
        return false;
    }
    let stop = head + min_len;
    let mut k = head;
    let mut ok: bool = true;
    while k < stop
        invariant_except_break
            ok,
        invariant
            head <= k <= stop,
            stop == head + min_len,
            stop <= snap@.len(),
            ok ==> forall|j: int| head <= j < k ==> word_char(snap@[j]),
        ensures
            head <= k <= stop,
            ok ==> k == stop,
            ok ==> forall|j: int| head <= j < k ==> word_char(snap@[j]),
            !ok ==> head <= k < stop && !word_char(snap@[k as int]),
        decreases stop - k,
    {
        if !is_word_char(snap.char_at(k)) {
            ok = false;
            break ;
        }
        k += 1;
    }
    ok
}

/// The prefix locator: finds the already-typed fragment before `pos` and
/// the number of characters an accepted suggestion replaces.  Positions
/// outside the snapshot yield nothing rather than a fault.
pub fn locate_typed_word(snap: &Snapshot, pos: usize, kind: TriggerKind) -> (r: Option<TypedWord>)
    ensures
        r == locate_typed_word_spec(snap@, pos as int, kind),
{
    let n = snap.len();
    if pos == 0 || pos > n {
        return None;
    }
    let head = prev_word_start(snap, pos);
    let is_manual = match kind {
        TriggerKind::Manual => true,
        TriggerKind::Automatic => false,
    };
    if !is_manual {
        let ml = min_word_len(kind);
        if !word_run_at(snap, head, ml) {
            return None;
        }
    }
    let diff = if is_ws_char(snap.char_at(pos - 1)) {
        0
    } else {
        pos - head
    };
    Some(TypedWord { range: CharRange { start: head, end: pos }, edit_diff: diff })
}

/// Where a suggestion came from: this provider's word mining, or some
/// other completion source.
#[derive(Clone, Copy, PartialEq, Eq, Structural, Debug)]
pub enum Provenance {
    Word,
    Other,
}

/// One replacement at one selection cursor: the half-open character range
/// to remove and the text to insert there.
pub struct Replacement {
    pub start: usize,
    pub end: usize,
    pub text: Vec<char>,
}

impl View for Replacement {
    type V = (usize, usize, Seq<char>);

    open spec fn view(&self) -> (usize, usize, Seq<char>) {
        (self.start, self.end, self.text@)
    }
}

/// The replacement a suggestion applies at cursor `c`: erase the
/// `edit_diff` characters before the cursor (clamped at the buffer start)
/// and insert the word.
pub open spec fn replace_at(c: usize, edit_diff: usize, w: Seq<char>) -> (usize, usize, Seq<char>) {
    ((if c >= edit_diff {
        (c - edit_diff) as usize
    } else {
        0
    }), c, w)
}

/// One completion suggestion: the word, the multi-cursor edit applying it,
/// its provenance tag, and no documentation.
pub struct CompletionItem {
    pub label: Vec<char>,
    pub edit: Vec<Replacement>,
    pub provenance: Provenance,
    pub documentation: Option<Vec<char>>,
}

/// The response context handed back with every suggestion list.
#[derive(Clone, Copy, PartialEq, Eq, Structural, Debug)]
pub struct ResponseContext {
    pub is_incomplete: bool,
    pub priority: i8,
    pub snapshot_token: u64,
}

/// A completion response: the suggestions in order, the provider tag, and
/// the context carried through from the request.
pub struct CompletionResponse {
    pub items: Vec<CompletionItem>,
    pub provider: Provenance,
    pub context: ResponseContext,
}

/// The deferred heavy phase: every immutable input the scan needs, captured
/// at trigger time, with a single run operation.
pub struct CompletionTask {
    pub docs: Vec<DocRanges>,
    pub typed: CharRange,
    pub min_word_len: usize,
    pub edit_diff: usize,
    pub cursors: Vec<usize>,
    pub priority: i8,
    pub snapshot_token: u64,
}

/// Whether one suggestion carries word `w` with the exact multi-cursor
/// edit, the word provenance tag, and no documentation.
pub open spec fn item_matches(
    item: CompletionItem,
    w: Seq<char>,
    cursors: Seq<usize>,
    edit_diff: usize,
) -> bool {
    item.label@ == w && item.provenance == Provenance::Word && item.documentation is None
        && item.edit@.len() == cursors.len() && (forall|j: int|
        0 <= j < cursors.len() ==> item.edit@[j]@ == replace_at(cursors[j], edit_diff, w))
}

/// What running a task returns: one suggestion per scanned candidate word,
/// in the candidate set's sorted order, inside a complete response that
/// carries the task's priority and snapshot token through unchanged.
pub open spec fn response_matches(task: CompletionTask, r: CompletionResponse) -> bool {
    let ws = scan_docs_spec(task.docs@, task.typed, task.min_word_len as nat, Seq::<Seq<
        char,
    >>::empty());
    r.provider == Provenance::Word && r.context.is_incomplete == false && r.context.priority
        == task.priority && r.context.snapshot_token == task.snapshot_token && r.items@.len()
        == ws.len() && (forall|i: int|
        0 <= i < ws.len() ==> item_matches(r.items@[i], ws[i], task.cursors@, task.edit_diff))
}

/// Copies a word.
fn copy_word(w: &Vec<char>) -> (r: Vec<char>)
    ensures
        r@ == w@,
{
    let n = w.len();
    let mut v: Vec<char> = Vec::new();
    let mut i: usize = 0;
    proof {
        assert(v@ =~= w@.take(0));
    }
    while i < n
        invariant
            i <= n,
            n == w@.len(),
            v@ == w@.take(i as int),
        decreases n - i,
    {
        v.push(w[i]);
        proof {
            assert(v@ =~= w@.take(i as int + 1));
        }
        i += 1;
    }
    proof {
        assert(v@ =~= w@);
    }
    v
}

/// Builds the multi-cursor edit for one candidate word: one replacement per
/// selection cursor.
fn build_edit(cursors: &Vec<usize>, edit_diff: usize, w: &Vec<char>) -> (res: Vec<Replacement>)
    ensures
        res@.len() == cursors@.len(),
        forall|j: int|
            0 <= j < cursors@.len() ==> res@[j]@ == replace_at(cursors@[j], edit_diff, w@),
{
    let n = cursors.len();
    let mut res: Vec<Replacement> = Vec::new();
    let mut j: usize = 0;
    while j < n
        invariant
            j <= n,
            n == cursors@.len(),
            res@.len() == j,
            forall|k: int|
                0 <= k < j ==> res@[k]@ == replace_at(cursors@[k], edit_diff, w@),
        decreases n - j,
    {
        let c = cursors[j];
        let start = if c >= edit_diff {
            c - edit_diff
        } else {
            0
        };
        res.push(Replacement { start, end: c, text: copy_word(w) });
        j += 1;
    }
    res
}

impl CompletionTask {
    /// Runs the deferred phase: scans the captured ranges, synthesizes one
    /// edit-carrying suggestion per distinct candidate word, and wraps them
    /// in a complete response.  An empty candidate set still yields a
    /// response, with zero items.
    pub fn run(&self) -> (r: CompletionResponse)
        ensures
            response_matches(*self, r),
    {
        let ghost ws = scan_docs_spec(
            self.docs@,
            self.typed,
            self.min_word_len as nat,
            Seq::<Seq<char>>::empty(),
        );
        let words = scan_words(&self.docs, self.typed, self.min_word_len);
        let n = words.len();
        proof {
            assert(words.deep_view().len() == words@.len());
        }
        let mut items: Vec<CompletionItem> = Vec::new();
        let mut i: usize = 0;
        while i < n
            invariant
                i <= n,
                n == words@.len(),
                words.deep_view() == ws,
                items@.len() == i,
                forall|k: int|
                    0 <= k < i ==> item_matches(items@[k], ws[k], self.cursors@, self.edit_diff),
            decreases n - i,
        {
            proof {
                assert(words.deep_view()[i as int] == words@[i as int]@);
            }
            let edit = build_edit(&self.cursors, self.edit_diff, &words[i]);
            let label = copy_word(&words[i]);
            items.push(
                CompletionItem { label, edit, provenance: Provenance::Word, documentation: None },
            );
            i += 1;
        }
        CompletionResponse {
            items,
            provider: Provenance::Word,
            context: ResponseContext {
                is_incomplete: false,
                priority: self.priority,
                snapshot_token: self.snapshot_token,
            },
        }
    }
}

/// Determinism: what a task's run returns is a function of the task alone;
/// two responses for the same task carry identical item lists, label for
/// label and edit for edit.
pub proof fn lemma_run_deterministic(
    task: CompletionTask,
    r1: CompletionResponse,
    r2: CompletionResponse,
)
    requires
        response_matches(task, r1),
        response_matches(task, r2),
    ensures
        r1.items@.len() == r2.items@.len(),
        forall|i: int|
            0 <= i < r1.items@.len() ==> r1.items@[i].label@ == r2.items@[i].label@,
        forall|i: int, j: int|
            0 <= i < r1.items@.len() && 0 <= j < r1.items@[i].edit@.len() ==> r1.items@[i].edit@[j]@
                == r2.items@[i].edit@[j]@,
        r1.context == r2.context,
        r1.provider == r2.provider,
{
    let ws = scan_docs_spec(task.docs@, task.typed, task.min_word_len as nat, Seq::<Seq<
        char,
    >>::empty());
    assert(r1.items@.len() == ws.len());
    assert(r2.items@.len() == ws.len());
    assert forall|i: int| 0 <= i < r1.items@.len() implies r1.items@[i].label@
        == r2.items@[i].label@ by {
        assert(item_matches(r1.items@[i], ws[i], task.cursors@, task.edit_diff));
        assert(item_matches(r2.items@[i], ws[i], task.cursors@, task.edit_diff));
    }
    assert forall|i: int, j: int|
        0 <= i < r1.items@.len() && 0 <= j < r1.items@[i].edit@.len() implies r1.items@[i].edit@[j]@
        == r2.items@[i].edit@[j]@ by {
        assert(item_matches(r1.items@[i], ws[i], task.cursors@, task.edit_diff));
        assert(item_matches(r2.items@[i], ws[i], task.cursors@, task.edit_diff));
        assert(r1.items@[i].edit@.len() == task.cursors@.len());
        assert(r1.items@[i].edit@[j]@ == replace_at(task.cursors@[j], task.edit_diff, ws[i]));
        assert(r2.items@[i].edit@[j]@ == replace_at(task.cursors@[j], task.edit_diff, ws[i]));
    }
}

/// Every suggestion a response carries is witnessed by an occurrence of its
/// label, in some scanned document, whose range does not overlap the
/// typed-word range: the fragment being typed never yields a suggestion of
/// itself.
pub proof fn lemma_response_word_witnessed(
    task: CompletionTask,
    r: CompletionResponse,
    i: int,
)
    requires
        response_matches(task, r),
        0 <= i < r.items@.len(),
    ensures
        exists|d: int, ws: int, he: int|
            0 <= d < task.docs@.len() && ws < he && !crate::scan::overlaps_typed(task.typed, ws, he)
                && r.items@[i].label@ == task.docs@[d].snap@.subrange(ws, he),
{
    let ws = scan_docs_spec(task.docs@, task.typed, task.min_word_len as nat, Seq::<Seq<
        char,
    >>::empty());
    assert(item_matches(r.items@[i], ws[i], task.cursors@, task.edit_diff));
    assert(ws.contains(ws[i]));
    crate::scan::lemma_typed_word_excluded(
        task.docs@,
        task.typed,
        task.min_word_len as nat,
        ws[i],
    );
}

/// A cancellation handle: one query, whether the request it belongs to was
/// already canceled.
pub struct CancelHandle {
    pub canceled: bool,
}

impl CancelHandle {
    /// Whether the request was canceled.
    pub fn is_canceled(&self) -> (r: bool)
        ensures
            r == self.canceled,
    {
        self.canceled
    }
}

/// Copies the selection's cursor offsets.
fn copy_cursors(sel: &Vec<usize>) -> (r: Vec<usize>)
    ensures
        r@ == sel@,
{
    let n = sel.len();
    let mut v: Vec<usize> = Vec::new();
    let mut i: usize = 0;
    proof {
        assert(v@ =~= sel@.take(0));
    }
    while i < n
        invariant
            i <= n,
            n == sel@.len(),
            v@ == sel@.take(i as int),
        decreases n - i,
    {
        v.push(sel[i]);
        proof {
            assert(v@ =~= sel@.take(i as int + 1));
        }
        i += 1;
    }
    proof {
        assert(v@ =~= sel@);
    }
    v
}

/// The cheap synchronous phase: trigger policy, prefix location, viewport
/// range collection over every open view, then exactly one cancellation
/// check.  Either nothing is offered — no fragment behind the cursor, an
/// automatic trigger's run guard unmet, a position outside the snapshot, or
/// a canceled request — or the deferred scan task is returned, closed over
/// immutable captures of everything it needs.
pub fn completion(
    docs: &Vec<Doc>,
    views: &Vec<ViewInfo>,
    current: &Snapshot,
    selection: &Vec<usize>,
    trigger: Trigger,
    handle: &CancelHandle,
    snapshot_token: u64,
) -> (r: Option<CompletionTask>)
    ensures
        (r is None) == (locate_typed_word_spec(current@, trigger.position as int, trigger.kind)
            is None || handle.canceled),
        match r {
            Some(task) => {
                &&& locate_typed_word_spec(current@, trigger.position as int, trigger.kind)
                    == Some(TypedWord { range: task.typed, edit_diff: task.edit_diff })
                &&& task.min_word_len as nat == min_word_len_spec(trigger.kind)
                &&& collected_view(task.docs@) == collect_spec(
                    Seq::<(u64, Seq<char>, Seq<CharRange>)>::empty(),
                    docs_view(docs@),
                    views@,
                )
                &&& task.cursors@ == selection@
                &&& task.priority == WORD_PRIORITY
                &&& task.snapshot_token == snapshot_token
            },
            None => true,
        },
{
    let min_len = min_word_len(trigger.kind);
    match locate_typed_word(current, trigger.position, trigger.kind) {
        None => None,
        Some(tw) => {
            let collected = collect_ranges(docs, views);
            if handle.is_canceled() {
                None
            } else {
                Some(
                    CompletionTask {
                        docs: collected,
                        typed: tw.range,
                        min_word_len: min_len,
                        edit_diff: tw.edit_diff,
                        cursors: copy_cursors(selection),
                        priority: WORD_PRIORITY,
                        snapshot_token,
                    },
                )
            }
        },
    }
}

/// An automatic trigger whose minimum run of word characters is not
/// satisfied immediately after the backward word-boundary search yields no
/// typed word, and so no suggestions.
pub proof fn lemma_short_run_yields_nothing(t: Seq<char>, pos: int, kind: TriggerKind)
    requires
        kind != TriggerKind::Manual,
        0 < pos <= t.len(),
        !auto_run_ok(t, prev_word_start_spec(t, pos), min_word_len_spec(kind)),
    ensures
        locate_typed_word_spec(t, pos, kind) is None,
{
}

/// What the staleness filter leaves: every word-provenance suggestion
/// removed, every other suggestion kept in order.
pub open spec fn drop_word_items(s: Seq<CompletionItem>) -> Seq<CompletionItem>
    decreases s.len(),
{
    if s.len() == 0 {
        Seq::<CompletionItem>::empty()
    } else if s[0].provenance == Provenance::Word {
        drop_word_items(s.skip(1))
    } else {
        seq![s[0]] + drop_word_items(s.skip(1))
    }
}

/// Whether the staleness filter fires: only for automatic triggers, and
/// only when a character immediately precedes the cursor and is whitespace.
/// At the very start of the buffer no character precedes the cursor, so the
/// filter never fires there.
pub open spec fn stale_condition(kind: TriggerKind, t: Seq<char>, cursor: usize) -> bool {
    kind != TriggerKind::Manual && cursor > 0 && cursor - 1 < t.len() && ws_char(t[cursor - 1])
}

/// The staleness filter: on every keystroke, an automatically triggered
/// suggestion list loses all its word-provenance items once the character
/// left of the cursor is whitespace; a manual trigger's list is never
/// touched.
pub fn retain_valid_completions(
    kind: TriggerKind,
    snap: &Snapshot,
    cursor: usize,
    items: Vec<CompletionItem>,
) -> (res: Vec<CompletionItem>)
    ensures
        stale_condition(kind, snap@, cursor) ==> res@ == drop_word_items(items@),
        !stale_condition(kind, snap@, cursor) ==> res@ == items@,
{
    let is_manual = match kind {
        TriggerKind::Manual => true,
        TriggerKind::Automatic => false,
    };
    if is_manual {
        return items;
    }
    if cursor == 0 {
        return items;
    }
    let i = cursor - 1;
    if !(i < snap.len() && is_ws_char(snap.char_at(i))) {
        return items;
    }
    let ghost s = items@;
    let mut rest = items;
    let mut kept: Vec<CompletionItem> = Vec::new();
    proof {
        assert(kept@ =~= Seq::<CompletionItem>::empty());
        assert(kept@ + drop_word_items(rest@) =~= drop_word_items(s));
    }
    while rest.len() > 0
        invariant
            drop_word_items(s) == kept@ + drop_word_items(rest@),
        decreases rest.len(),
    {
        let ghost r0 = rest@;
        let it = rest.remove(0);
        proof {
            assert(rest@ =~= r0.skip(1));
            assert(it == r0[0]);
        }
        let is_word = match it.provenance {
            Provenance::Word => true,
            Provenance::Other => false,
        };
        if is_word {
            proof {
                assert(drop_word_items(r0) == drop_word_items(r0.skip(1)));
            }
        } else {
            kept.push(it);
            proof {
                assert(drop_word_items(r0) == seq![r0[0]] + drop_word_items(r0.skip(1)));
                assert(kept@ + drop_word_items(rest@) =~= drop_word_items(s));
            }
        }
    }
    proof {
        assert(drop_word_items(rest@) =~= Seq::<CompletionItem>::empty());
        assert(kept@ =~= drop_word_items(s));
    }
    kept
}

/// The staleness filter's guarantees: no word-provenance item survives, and
/// everything that survives stood in the original list.
pub proof fn lemma_drop_word_items(s: Seq<CompletionItem>)
    ensures
        forall|i: int|
            0 <= i < drop_word_items(s).len() ==> drop_word_items(s)[i].provenance
                != Provenance::Word,
        forall|i: int|
            0 <= i < drop_word_items(s).len() ==> s.contains(drop_word_items(s)[i]),
    decreases s.len(),
{
    let d = drop_word_items(s);
    if s.len() == 0 {
    } else {
        lemma_drop_word_items(s.skip(1));
        let d1 = drop_word_items(s.skip(1));
        assert forall|i: int| 0 <= i < d.len() implies d[i].provenance != Provenance::Word
            && s.contains(d[i]) by {
            if s[0].provenance == Provenance::Word {
                assert(d == d1);
                assert(s.skip(1).contains(d[i]));
                let k = choose|k: int| 0 <= k < s.skip(1).len() && s.skip(1)[k] == d[i];
                assert(s[k + 1] == d[i]);
            } else {
                assert(d == seq![s[0]] + d1);
                if i == 0 {
                    assert(d[0] == s[0]);
                } else {
                    assert(d[i] == d1[i - 1]);
                    assert(s.skip(1).contains(d1[i - 1]));
                    let k = choose|k: int| 0 <= k < s.skip(1).len() && s.skip(1)[k] == d1[i - 1];
                    assert(s[k + 1] == d[i]);
                }
            }
        }
    }
}

} // verus!
