//! The list: loading, rendering, adding, completing.

use effitask::date::Date;
use effitask::list::List;
use effitask::task::ParseError;

fn ymd(y: u16, m: u8, d: u8) -> Date {
    Date::from_ymd(y, m, d).unwrap()
}

fn sample() -> List {
    let todo = "water plants\n(A) pay rent due:2024-02-01\n";
    let done = "x 2024-01-02 2024-01-01 old chore\n";
    let (list, skipped) = List::from_contents("todo.txt", "done.txt", todo, done);
    assert_eq!(skipped, 0);
    list
}

#[test]
fn load_assigns_sequential_ids() {
    let list = sample();
    assert_eq!(list.tasks.len(), 3);
    assert_eq!(list.tasks[0].id, 0);
    assert_eq!(list.tasks[1].id, 1);
    assert_eq!(list.tasks[2].id, 2);
    assert!(!list.tasks[0].finished);
    assert!(list.tasks[2].finished);
}

#[test]
fn load_skips_empty_and_malformed_lines() {
    let todo = "one\n\ngarbage (((\ntwo\n";
    let (list, skipped) = List::from_contents("t", "d", todo, "");
    assert_eq!(list.tasks.len(), 2);
    assert_eq!(skipped, 1);
    assert_eq!(list.tasks[0].subject, "one");
    assert_eq!(list.tasks[1].subject, "two");
    assert_eq!(list.tasks[1].id, 1);
}

#[test]
fn write_plan_splits_by_finished() {
    // two unfinished and one finished task give exactly two open lines
    // and one done line, and reloading reproduces all three
    let list = sample();
    let plan = list.write_plan();
    assert_eq!(plan.todo_path, "todo.txt");
    assert_eq!(plan.done_path, "done.txt");
    let todo_lines: Vec<&str> = plan.todo_text.lines().collect();
    let done_lines: Vec<&str> = plan.done_text.lines().collect();
    assert_eq!(todo_lines.len(), 2);
    assert_eq!(done_lines.len(), 1);
    let (reloaded, skipped) = List::from_contents(
        "todo.txt",
        "done.txt",
        &plan.todo_text,
        &plan.done_text,
    );
    assert_eq!(skipped, 0);
    assert_eq!(reloaded.tasks.len(), 3);
    for (a, b) in list.tasks.iter().zip(reloaded.tasks.iter()) {
        assert_eq!(a.to_line(), b.to_line());
    }
}

#[test]
fn add_appends_and_stamps_creation() {
    let mut list = sample();
    list.add("buy bread +errand").unwrap();
    assert_eq!(list.tasks.len(), 4);
    let added = &list.tasks[3];
    assert_eq!(added.id, 3);
    assert_eq!(added.subject, "buy bread +errand");
    assert!(added.create_date.is_some());
}

#[test]
fn add_failure_leaves_list_unchanged() {
    // quick-add text that does not parse is rejected and nothing is kept
    let mut list = sample();
    let before = list.tasks.clone();
    let result = list.add("garbage (((");
    assert_eq!(result, Err(ParseError::Priority));
    assert_eq!(list.tasks, before);
}

#[test]
fn complete_non_recurring_marks_done() {
    let mut list = sample();
    let changed = list.complete_at(0, ymd(2024, 1, 5));
    assert!(changed);
    assert_eq!(list.tasks.len(), 3);
    assert!(list.tasks[0].finished);
    assert_eq!(list.tasks[0].finish_date, Some(ymd(2024, 1, 5)));
}

#[test]
fn complete_again_uncompletes() {
    let mut list = sample();
    list.complete_at(0, ymd(2024, 1, 5));
    list.complete_at(0, ymd(2024, 1, 6));
    assert!(!list.tasks[0].finished);
    assert!(list.tasks[0].finish_date.is_none());
    assert_eq!(list.tasks.len(), 3);
}

#[test]
fn complete_out_of_range_changes_nothing() {
    let mut list = sample();
    let changed = list.complete_at(17, ymd(2024, 1, 5));
    assert!(!changed);
    assert_eq!(list.tasks.len(), 3);
}

#[test]
fn recurrence_from_today_when_not_strict() {
    // due 2024-01-10, rec:1m, completed 2024-01-05: the clone is anchored
    // on the completion day
    let todo = "report due:2024-01-10 rec:1m\n";
    let (mut list, _) = List::from_contents("t", "d", todo, "");
    list.complete_at(0, ymd(2024, 1, 5));
    assert_eq!(list.tasks.len(), 2);
    assert!(list.tasks[0].finished);
    let clone = &list.tasks[1];
    assert!(!clone.finished);
    assert_eq!(clone.due_date, Some(ymd(2024, 2, 5)));
    assert_eq!(clone.create_date, Some(ymd(2024, 1, 5)));
    assert_eq!(clone.id, 1);
}

#[test]
fn recurrence_from_due_date_when_strict() {
    // the same task with rec:+1m anchors on the old due date
    let todo = "report due:2024-01-10 rec:+1m\n";
    let (mut list, _) = List::from_contents("t", "d", todo, "");
    list.complete_at(0, ymd(2024, 1, 5));
    assert_eq!(list.tasks.len(), 2);
    let clone = &list.tasks[1];
    assert_eq!(clone.due_date, Some(ymd(2024, 2, 10)));
}

#[test]
fn recurrence_advances_threshold_from_old_threshold() {
    let todo = "report t:2024-01-03 due:2024-01-10 rec:+1m\n";
    let (mut list, _) = List::from_contents("t", "d", todo, "");
    list.complete_at(0, ymd(2024, 1, 5));
    let clone = &list.tasks[1];
    assert_eq!(clone.threshold_date, Some(ymd(2024, 2, 3)));
}

#[test]
fn projects_and_contexts_are_distinct_and_eligible() {
    let todo = "a +home @phone\nb +home\nx done +gone\nfuture +later t:2030-01-01\n";
    let (list, _) = List::from_contents("t", "d", todo, "");
    let today = ymd(2024, 1, 1);
    let projects = list.projects(today);
    assert_eq!(projects, vec!["home".to_string()]);
    let contexts = list.contexts(today);
    assert_eq!(contexts, vec!["phone".to_string()]);
}
