use word_complete::complete::{locate_typed_word, min_word_len, TriggerKind};
use word_complete::motion::{next_word_end, prev_word_start, Cursor};
use word_complete::range::CharRange;
use word_complete::snapshot::Snapshot;

fn snap(s: &str) -> Snapshot {
    Snapshot { text: s.chars().collect() }
}

#[test]
fn trigger_policy_minimums() {
    assert_eq!(min_word_len(TriggerKind::Manual), 2);
    assert_eq!(min_word_len(TriggerKind::Automatic), 8);
}

#[test]
fn prev_word_start_finds_fragment_start() {
    let s = snap("hello wo");
    assert_eq!(prev_word_start(&s, 8), 6);
    assert_eq!(prev_word_start(&s, 5), 0);
    assert_eq!(prev_word_start(&s, 0), 0);
}

#[test]
fn prev_word_start_skips_trailing_whitespace() {
    let s = snap("hello ");
    assert_eq!(prev_word_start(&s, 6), 0);
}

#[test]
fn prev_word_start_stops_at_punctuation_run() {
    let s = snap("foo.bar");
    assert_eq!(prev_word_start(&s, 7), 4);
    assert_eq!(prev_word_start(&s, 4), 3);
}

#[test]
fn next_word_end_lands_at_word_end() {
    let s = snap("hello world");
    let c = next_word_end(&s, Cursor { anchor: 0, head: 0 });
    assert_eq!((c.anchor, c.head), (0, 5));
    let c2 = next_word_end(&s, c);
    assert_eq!(c2.head, 11);
}

#[test]
fn typed_word_range_and_edit_diff() {
    let s = snap("hello wo");
    let tw = locate_typed_word(&s, 8, TriggerKind::Manual).unwrap();
    assert_eq!(tw.range, CharRange { start: 6, end: 8 });
    assert_eq!(tw.edit_diff, 2);
}

#[test]
fn edit_diff_is_zero_when_fragment_ends_in_whitespace() {
    let s = snap("hello ");
    let tw = locate_typed_word(&s, 6, TriggerKind::Manual).unwrap();
    assert_eq!(tw.range, CharRange { start: 0, end: 6 });
    assert_eq!(tw.edit_diff, 0);
}

#[test]
fn locate_rejects_position_past_snapshot() {
    let s = snap("ab");
    assert!(locate_typed_word(&s, 9, TriggerKind::Manual).is_none());
}

#[test]
fn line_char_conversions() {
    let s = snap("one\ntwo\nthree");
    assert_eq!(s.char_to_line(0), 0);
    assert_eq!(s.char_to_line(4), 1);
    assert_eq!(s.char_to_line(9), 2);
    assert_eq!(s.line_to_char(0), 0);
    assert_eq!(s.line_to_char(1), 4);
    assert_eq!(s.line_to_char(2), 8);
    assert_eq!(s.line_to_char(5), 13);
}
