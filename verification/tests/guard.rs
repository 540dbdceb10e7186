//! The write protocol, the watch bridge, and the display filters.

use effitask::date::Date;
use effitask::filter::{Filter, Rule};
use effitask::list::List;
use effitask::persist::{combine, write_action, write_step, Error, WriteAction, WriteState};
use effitask::preferences::Preferences;
use effitask::task::ParseError;
use effitask::watch::{WatchBridge, WatchEvent, WatchState};

fn ymd(y: u16, m: u8, d: u8) -> Date {
    Date::from_ymd(y, m, d).unwrap()
}

#[test]
fn write_protocol_happy_path() {
    let mut s = WriteState::Start;
    let expected = [
        WriteAction::Backup,
        WriteAction::Create,
        WriteAction::WriteAll,
        WriteAction::Sync,
    ];
    for action in expected {
        assert_eq!(write_action(s), action);
        s = write_step(s, true);
    }
    assert_eq!(s, WriteState::Synced);
    assert_eq!(write_action(s), WriteAction::Stop);
}

#[test]
fn failed_backup_never_truncates() {
    // when the backup copy fails, the truncating step is never issued
    let mut s = WriteState::Start;
    assert_eq!(write_action(s), WriteAction::Backup);
    s = write_step(s, false);
    assert_eq!(s, WriteState::Failed);
    assert_eq!(write_action(s), WriteAction::Stop);
    s = write_step(s, true);
    assert_eq!(write_action(s), WriteAction::Stop);
}

#[test]
fn combine_requires_both() {
    let err = Error::Backup { path: "todo.txt".to_string(), message: "copy failed".to_string() };
    assert!(combine(Ok(()), Ok(())).is_ok());
    assert_eq!(combine(Err(err.clone()), Ok(())), Err(err.clone()));
    assert_eq!(combine(Ok(()), Err(err.clone())), Err(err.clone()));
    let other = Error::Parse(ParseError::Date);
    assert_eq!(combine(Err(err.clone()), Err(other)), Err(err));
}

#[test]
fn own_write_raises_no_notification() {
    // a modification observed between the store's write-begin and
    // write-end is the store's own and stays silent
    let mut bridge = WatchBridge::new("todo.txt".to_string());
    assert_eq!(bridge.state, WatchState::Watching);
    assert!(!bridge.on_event(WatchEvent::WriteBegin));
    assert!(!bridge.on_event(WatchEvent::Modified));
    assert!(!bridge.on_event(WatchEvent::WriteEnd));
    assert!(bridge.on_event(WatchEvent::Modified));
}

#[test]
fn external_change_notifies_once_watching() {
    let mut bridge = WatchBridge::new("todo.txt".to_string());
    assert!(bridge.on_event(WatchEvent::Modified));
    assert_eq!(bridge.state, WatchState::Watching);
}

fn sample() -> List {
    let todo = "water plants\n(A) Buy MILK +errand\nsecret h:1\nlater t:2030-01-01\nflagged one f:1\n";
    let done = "x 2024-01-02 2024-01-01 old chore\n";
    let (list, _) = List::from_contents("t", "d", todo, done);
    list
}

#[test]
fn search_is_case_insensitive() {
    let list = sample();
    let prefs = Preferences::new();
    let filter = Filter::from(Rule::Search("milk".to_string()));
    let shown = filter.apply(&list.tasks, &prefs, ymd(2024, 1, 1));
    assert_eq!(shown.len(), 1);
    assert_eq!(shown[0].subject, "Buy MILK +errand");
    let upper = Filter::from(Rule::Search("MILK".to_string()));
    let shown_upper = upper.apply(&list.tasks, &prefs, ymd(2024, 1, 1));
    assert_eq!(shown_upper.len(), 1);
}

#[test]
fn done_filter_respects_hidden_policy() {
    let list = sample();
    let prefs = Preferences::new();
    let filter = Filter::from(Rule::Done);
    let shown = filter.apply(&list.tasks, &prefs, ymd(2024, 1, 1));
    assert_eq!(shown.len(), 1);
    assert_eq!(shown[0].subject, "old chore");
}

#[test]
fn flagged_filter_defers_future_thresholds() {
    let todo = "flagged now f:1\nflagged later f:1 t:2030-01-01\n";
    let (list, _) = List::from_contents("t", "d", todo, "");
    let prefs = Preferences::new();
    let filter = Filter::from(Rule::Flagged);
    let shown = filter.apply(&list.tasks, &prefs, ymd(2024, 1, 1));
    assert_eq!(shown.len(), 1);
    assert_eq!(shown[0].subject, "flagged now");
    let all = Preferences { defered: true, done: true, hidden: true };
    let shown_all = filter.apply(&list.tasks, &all, ymd(2024, 1, 1));
    assert_eq!(shown_all.len(), 2);
}

#[test]
fn all_filter_keeps_everything() {
    let list = sample();
    let prefs = Preferences::new();
    let filter = Filter::from(Rule::All);
    let shown = filter.apply(&list.tasks, &prefs, ymd(2024, 1, 1));
    assert_eq!(shown.len(), list.tasks.len());
}

#[test]
fn preferences_start_conservative() {
    let prefs = Preferences::new();
    assert!(!prefs.defered && !prefs.done && !prefs.hidden);
    let defaulted = Preferences::default();
    assert_eq!(prefs, defaulted);
}
