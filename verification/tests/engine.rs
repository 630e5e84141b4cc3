use word_complete::collect::{Doc, ViewInfo};
use word_complete::complete::{
    completion, CancelHandle, CompletionResponse, Trigger, TriggerKind,
};
use word_complete::snapshot::Snapshot;

fn snap(s: &str) -> Snapshot {
    Snapshot { text: s.chars().collect() }
}

fn labels(r: &CompletionResponse) -> Vec<String> {
    r.items.iter().map(|it| it.label.iter().collect::<String>()).collect()
}

fn whole_view(doc_id: u64) -> ViewInfo {
    ViewInfo { doc_id, anchor: 0, last_line: 1000 }
}

#[test]
fn automatic_trigger_with_short_run_yields_nothing() {
    let docs = vec![Doc { id: 1, snap: snap("hello wo") }];
    let views = vec![whole_view(1)];
    let current = snap("hello wo");
    let selection = vec![8usize];
    let trigger = Trigger { kind: TriggerKind::Automatic, position: 8 };
    let handle = CancelHandle { canceled: false };
    let r = completion(&docs, &views, &current, &selection, trigger, &handle, 7);
    assert!(r.is_none());
}

#[test]
fn automatic_trigger_with_long_run_completes() {
    let text = "abcdefghij abcdefgh";
    let docs = vec![Doc { id: 1, snap: snap(text) }];
    let views = vec![whole_view(1)];
    let current = snap(text);
    let selection = vec![19usize];
    let trigger = Trigger { kind: TriggerKind::Automatic, position: 19 };
    let handle = CancelHandle { canceled: false };
    let task = completion(&docs, &views, &current, &selection, trigger, &handle, 7).unwrap();
    let resp = task.run();
    assert_eq!(labels(&resp), vec!["abcdefghij".to_string()]);
}

#[test]
fn cursor_at_buffer_start_yields_nothing() {
    let docs = vec![Doc { id: 1, snap: snap("hello") }];
    let views = vec![whole_view(1)];
    let current = snap("hello");
    let selection = vec![0usize];
    let trigger = Trigger { kind: TriggerKind::Manual, position: 0 };
    let handle = CancelHandle { canceled: false };
    let r = completion(&docs, &views, &current, &selection, trigger, &handle, 0);
    assert!(r.is_none());
}

#[test]
fn canceled_request_yields_nothing() {
    let docs = vec![Doc { id: 1, snap: snap("hello wo") }];
    let views = vec![whole_view(1)];
    let current = snap("hello wo");
    let selection = vec![8usize];
    let trigger = Trigger { kind: TriggerKind::Manual, position: 8 };
    let handle = CancelHandle { canceled: true };
    let r = completion(&docs, &views, &current, &selection, trigger, &handle, 0);
    assert!(r.is_none());
}

#[test]
fn empty_candidate_set_still_yields_a_response() {
    // The only qualifying word is the one being typed, and no other text is
    // visible: the response exists and carries zero items.
    let text = "xy";
    let docs = vec![Doc { id: 1, snap: snap(text) }];
    let views = vec![whole_view(1)];
    let current = snap(text);
    let selection = vec![2usize];
    let trigger = Trigger { kind: TriggerKind::Manual, position: 2 };
    let handle = CancelHandle { canceled: false };
    let task = completion(&docs, &views, &current, &selection, trigger, &handle, 0).unwrap();
    let resp = task.run();
    assert_eq!(resp.items.len(), 0);
    assert!(!resp.context.is_incomplete);
    assert_eq!(resp.context.snapshot_token, 0);
}

#[test]
fn typed_word_is_excluded_verbatim() {
    // "wo" occurs only at the in-progress fragment: it is never suggested.
    let text = "xx world wo more\n";
    let docs = vec![Doc { id: 1, snap: snap(text) }];
    let views = vec![whole_view(1)];
    let current = snap(text);
    let selection = vec![11usize];
    let trigger = Trigger { kind: TriggerKind::Manual, position: 11 };
    let handle = CancelHandle { canceled: false };
    let task = completion(&docs, &views, &current, &selection, trigger, &handle, 0).unwrap();
    let resp = task.run();
    assert_eq!(
        labels(&resp),
        vec!["more".to_string(), "world".to_string(), "xx".to_string()]
    );
}

#[test]
fn identical_text_elsewhere_is_still_suggested() {
    // The exclusion is positional: the same text in another place remains a
    // candidate.
    let text = "wo world wo more\n";
    let docs = vec![Doc { id: 1, snap: snap(text) }];
    let views = vec![whole_view(1)];
    let current = snap(text);
    let selection = vec![11usize];
    let trigger = Trigger { kind: TriggerKind::Manual, position: 11 };
    let handle = CancelHandle { canceled: false };
    let task = completion(&docs, &views, &current, &selection, trigger, &handle, 0).unwrap();
    let resp = task.run();
    assert_eq!(
        labels(&resp),
        vec!["more".to_string(), "wo".to_string(), "world".to_string()]
    );
}

#[test]
fn word_in_many_ranges_appears_once() {
    // "shared" is visible in two ranges of one document and in a second
    // document: it is suggested exactly once.
    let text1 = "shared one\nshared two";
    let text2 = "shared three";
    let docs = vec![
        Doc { id: 1, snap: snap(text1) },
        Doc { id: 2, snap: snap(text2) },
    ];
    let views = vec![
        ViewInfo { doc_id: 1, anchor: 0, last_line: 0 },
        ViewInfo { doc_id: 1, anchor: 11, last_line: 1 },
        whole_view(2),
    ];
    let current = snap(text1);
    let selection = vec![21usize];
    let trigger = Trigger { kind: TriggerKind::Manual, position: 21 };
    let handle = CancelHandle { canceled: false };
    let task = completion(&docs, &views, &current, &selection, trigger, &handle, 0).unwrap();
    let resp = task.run();
    let ls = labels(&resp);
    assert_eq!(ls.iter().filter(|l| l.as_str() == "shared").count(), 1);
}

#[test]
fn edit_diff_replaces_typed_fragment() {
    // Accepting "world" on buffer "hello wo" with the cursor at the end
    // replaces the last two characters, producing "hello world".
    let text = "hello wo";
    let other = "world is round";
    let docs = vec![
        Doc { id: 1, snap: snap(text) },
        Doc { id: 2, snap: snap(other) },
    ];
    let views = vec![whole_view(1), whole_view(2)];
    let current = snap(text);
    let selection = vec![8usize];
    let trigger = Trigger { kind: TriggerKind::Manual, position: 8 };
    let handle = CancelHandle { canceled: false };
    let task = completion(&docs, &views, &current, &selection, trigger, &handle, 0).unwrap();
    assert_eq!(task.edit_diff, 2);
    let resp = task.run();
    let ls = labels(&resp);
    let idx = ls.iter().position(|l| l.as_str() == "world").unwrap();
    let item = &resp.items[idx];
    assert_eq!(item.edit.len(), 1);
    let change = &item.edit[0];
    assert_eq!((change.start, change.end), (6, 8));
    let mut chars: Vec<char> = text.chars().collect();
    let insert: Vec<char> = change.text.clone();
    chars.splice(change.start..change.end, insert);
    let applied: String = chars.into_iter().collect();
    assert_eq!(applied, "hello world");
}

#[test]
fn multi_cursor_edit_has_one_change_per_cursor() {
    let text = "ab cd ab";
    let other = "abacus tree";
    let docs = vec![
        Doc { id: 1, snap: snap(text) },
        Doc { id: 2, snap: snap(other) },
    ];
    let views = vec![whole_view(1), whole_view(2)];
    let current = snap(text);
    let selection = vec![2usize, 8usize];
    let trigger = Trigger { kind: TriggerKind::Manual, position: 8 };
    let handle = CancelHandle { canceled: false };
    let task = completion(&docs, &views, &current, &selection, trigger, &handle, 0).unwrap();
    let resp = task.run();
    let ls = labels(&resp);
    let idx = ls.iter().position(|l| l.as_str() == "abacus").unwrap();
    let item = &resp.items[idx];
    assert_eq!(item.edit.len(), 2);
    assert_eq!((item.edit[0].start, item.edit[0].end), (0, 2));
    assert_eq!((item.edit[1].start, item.edit[1].end), (6, 8));
}

#[test]
fn scan_is_deterministic_across_runs() {
    let text = "gamma beta alpha ga";
    let docs = vec![Doc { id: 1, snap: snap(text) }];
    let views = vec![whole_view(1)];
    let current = snap(text);
    let selection = vec![19usize];
    let trigger = Trigger { kind: TriggerKind::Manual, position: 19 };
    let handle = CancelHandle { canceled: false };
    let task = completion(&docs, &views, &current, &selection, trigger, &handle, 3).unwrap();
    let r1 = task.run();
    let r2 = task.run();
    assert_eq!(labels(&r1), labels(&r2));
    assert_eq!(r1.items.len(), r2.items.len());
    for (a, b) in r1.items.iter().zip(r2.items.iter()) {
        assert_eq!(a.edit.len(), b.edit.len());
        for (ca, cb) in a.edit.iter().zip(b.edit.iter()) {
            assert_eq!((ca.start, ca.end), (cb.start, cb.end));
            assert_eq!(ca.text, cb.text);
        }
    }
    assert_eq!(r1.context.snapshot_token, 3);
    assert_eq!(r2.context.snapshot_token, 3);
}

#[test]
fn candidates_come_sorted_and_deduplicated() {
    let text = "pear apple pear mango ap";
    let docs = vec![Doc { id: 1, snap: snap(text) }];
    let views = vec![whole_view(1)];
    let current = snap(text);
    let selection = vec![24usize];
    let trigger = Trigger { kind: TriggerKind::Manual, position: 24 };
    let handle = CancelHandle { canceled: false };
    let task = completion(&docs, &views, &current, &selection, trigger, &handle, 0).unwrap();
    let resp = task.run();
    assert_eq!(
        labels(&resp),
        vec!["apple".to_string(), "mango".to_string(), "pear".to_string()]
    );
}
