use word_complete::complete::{
    retain_valid_completions, CompletionItem, Provenance, TriggerKind,
};
use word_complete::snapshot::Snapshot;

fn snap(s: &str) -> Snapshot {
    Snapshot { text: s.chars().collect() }
}

fn item(label: &str, provenance: Provenance) -> CompletionItem {
    CompletionItem {
        label: label.chars().collect(),
        edit: Vec::new(),
        provenance,
        documentation: None,
    }
}

fn label_of(it: &CompletionItem) -> String {
    it.label.iter().collect()
}

#[test]
fn whitespace_before_cursor_drops_word_items_on_automatic_trigger() {
    let items = vec![
        item("alpha", Provenance::Word),
        item("beta", Provenance::Other),
        item("gamma", Provenance::Word),
        item("delta", Provenance::Other),
    ];
    let res = retain_valid_completions(TriggerKind::Automatic, &snap("word "), 5, items);
    let labels: Vec<String> = res.iter().map(label_of).collect();
    assert_eq!(labels, vec!["beta".to_string(), "delta".to_string()]);
    assert!(res.iter().all(|it| !matches!(it.provenance, Provenance::Word)));
}

#[test]
fn manual_trigger_keeps_word_items_despite_whitespace() {
    let items = vec![
        item("alpha", Provenance::Word),
        item("beta", Provenance::Other),
    ];
    let res = retain_valid_completions(TriggerKind::Manual, &snap("word "), 5, items);
    let labels: Vec<String> = res.iter().map(label_of).collect();
    assert_eq!(labels, vec!["alpha".to_string(), "beta".to_string()]);
}

#[test]
fn non_whitespace_before_cursor_keeps_word_items() {
    let items = vec![
        item("alpha", Provenance::Word),
        item("beta", Provenance::Other),
    ];
    let res = retain_valid_completions(TriggerKind::Automatic, &snap("word"), 4, items);
    let labels: Vec<String> = res.iter().map(label_of).collect();
    assert_eq!(labels, vec!["alpha".to_string(), "beta".to_string()]);
}

#[test]
fn filter_on_empty_snapshot_keeps_items() {
    let items = vec![item("alpha", Provenance::Word)];
    let res = retain_valid_completions(TriggerKind::Automatic, &snap(""), 0, items);
    assert_eq!(res.len(), 1);
}

#[test]
fn cursor_at_buffer_start_is_a_no_op_even_on_leading_whitespace() {
    // No character precedes the cursor at position 0: the filter must not
    // inspect the buffer's first character.
    let items = vec![
        item("alpha", Provenance::Word),
        item("beta", Provenance::Other),
    ];
    let res = retain_valid_completions(TriggerKind::Automatic, &snap(" word"), 0, items);
    let labels: Vec<String> = res.iter().map(label_of).collect();
    assert_eq!(labels, vec!["alpha".to_string(), "beta".to_string()]);
}
