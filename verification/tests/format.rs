//! The line format: parsing, serialization, and the round trip.

use effitask::task::{Note, ParseError, Task};

#[test]
fn round_trip_example() {
    let line = "(A) 2024-01-01 Buy milk +errand @store due:2024-01-05";
    let task = Task::from_line(line).unwrap();
    assert_eq!(task.priority, 0);
    assert_eq!(task.subject, "Buy milk +errand @store");
    let create = task.create_date.unwrap();
    assert_eq!((create.year, create.month, create.day), (2024, 1, 1));
    let due = task.due_date.unwrap();
    assert_eq!((due.year, due.month, due.day), (2024, 1, 5));
    assert!(!task.finished);
    assert_eq!(task.to_line(), line);
    let again = Task::from_line(&task.to_line()).unwrap();
    assert_eq!(again, task);
}

#[test]
fn round_trip_completed_with_dates() {
    let line = "x 2024-02-02 2024-01-01 pay rent +home";
    let task = Task::from_line(line).unwrap();
    assert!(task.finished);
    let fin = task.finish_date.unwrap();
    assert_eq!((fin.year, fin.month, fin.day), (2024, 2, 2));
    let create = task.create_date.unwrap();
    assert_eq!((create.year, create.month, create.day), (2024, 1, 1));
    assert_eq!(task.to_line(), line);
}

#[test]
fn single_date_is_creation() {
    let task = Task::from_line("2024-01-01 water plants").unwrap();
    assert!(task.finish_date.is_none());
    let create = task.create_date.unwrap();
    assert_eq!((create.year, create.month, create.day), (2024, 1, 1));
}

#[test]
fn tags_keep_insertion_order() {
    let task = Task::from_line("call mom b:2 a:1").unwrap();
    assert_eq!(task.subject, "call mom");
    assert_eq!(task.tags.len(), 2);
    assert_eq!(task.tags[0], ("b".to_string(), "2".to_string()));
    assert_eq!(task.tags[1], ("a".to_string(), "1".to_string()));
    assert_eq!(task.to_line(), "call mom b:2 a:1");
}

#[test]
fn duplicate_tag_last_value_wins() {
    let task = Task::from_line("call a:1 a:2").unwrap();
    assert_eq!(task.tags, vec![("a".to_string(), "2".to_string())]);
}

#[test]
fn url_stays_in_subject() {
    let task = Task::from_line("read https://example.net/page").unwrap();
    assert_eq!(task.subject, "read https://example.net/page");
    assert!(task.tags.is_empty());
    assert_eq!(task.to_line(), "read https://example.net/page");
}

#[test]
fn malformed_priority_is_rejected() {
    assert_eq!(Task::from_line("garbage ((("), Err(ParseError::Priority));
    assert_eq!(Task::from_line("(1) nope"), Err(ParseError::Priority));
    assert_eq!(Task::from_line("()"), Err(ParseError::Priority));
}

#[test]
fn lowercase_priority_is_accepted() {
    let task = Task::from_line("(b) laundry").unwrap();
    assert_eq!(task.priority, 1);
    assert_eq!(task.to_line(), "(B) laundry");
}

#[test]
fn malformed_date_is_rejected() {
    assert_eq!(Task::from_line("2024-13-01 x"), Err(ParseError::Date));
    assert_eq!(Task::from_line("pay due:2024-02-30"), Err(ParseError::Date));
    assert_eq!(Task::from_line("pay t:9999-99-99"), Err(ParseError::Date));
}

#[test]
fn embedded_newline_is_rejected() {
    assert_eq!(Task::from_line("one\ntwo"), Err(ParseError::Line));
}

#[test]
fn date_shaped_text_mid_subject_is_text() {
    let task = Task::from_line("meet on 2024-13-01 maybe").unwrap();
    assert_eq!(task.subject, "meet on 2024-13-01 maybe");
}

#[test]
fn flags_and_hidden_parse_and_print() {
    let task = Task::from_line("secret chore f:1 h:1").unwrap();
    assert!(task.flagged);
    assert!(task.hidden);
    assert!(task.tags.is_empty());
    assert_eq!(task.to_line(), "secret chore f:1 h:1");
}

#[test]
fn note_reference_is_kept() {
    let task = Task::from_line("call dentist note:dentist.txt").unwrap();
    match &task.note {
        Note::Long { filename, content } => {
            assert_eq!(filename, "dentist.txt");
            assert_eq!(content, "");
        },
        other => panic!("unexpected note {other:?}"),
    }
    assert_eq!(task.to_line(), "call dentist note:dentist.txt");
}

#[test]
fn recurrence_parses_and_prints() {
    let task = Task::from_line("water rec:+2w").unwrap();
    let rec = task.recurrence.unwrap();
    assert_eq!(rec.num, 2);
    assert!(rec.strict);
    assert_eq!(task.to_line(), "water rec:+2w");
}

#[test]
fn invalid_recurrence_stays_a_tag() {
    let task = Task::from_line("water rec:often").unwrap();
    assert!(task.recurrence.is_none());
    assert_eq!(task.tags, vec![("rec".to_string(), "often".to_string())]);
    assert_eq!(task.to_line(), "water rec:often");
}

#[test]
fn empty_line_is_empty_task() {
    let task = Task::from_line("").unwrap();
    assert_eq!(task, Task::new());
    assert_eq!(task.priority, effitask::task::NO_PRIORITY);
    assert_eq!(task.to_line(), "");
}

#[test]
fn whitespace_is_canonicalized() {
    let task = Task::from_line("  two   words  ").unwrap();
    assert_eq!(task.subject, "two words");
}
