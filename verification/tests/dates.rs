//! Dates, ordering and the recurrence engine.

use effitask::date::{Date, add_days, add_months};
use effitask::recurrence::{Period, Recurrence};
use effitask::task::Task;

fn ymd(y: u16, m: u8, d: u8) -> Date {
    Date::from_ymd(y, m, d).unwrap()
}

#[test]
fn invalid_dates_are_refused() {
    assert!(Date::from_ymd(2024, 2, 30).is_none());
    assert!(Date::from_ymd(2023, 2, 29).is_none());
    assert!(Date::from_ymd(2024, 2, 29).is_some());
    assert!(Date::from_ymd(2024, 0, 1).is_none());
    assert!(Date::from_ymd(2024, 13, 1).is_none());
}

#[test]
fn day_arithmetic_is_exact() {
    assert_eq!(add_days(ymd(2024, 2, 28), 2), Some(ymd(2024, 3, 1)));
    assert_eq!(add_days(ymd(2024, 1, 1), -1), Some(ymd(2023, 12, 31)));
    assert_eq!(add_days(ymd(9999, 12, 31), 1), None);
}

#[test]
fn month_arithmetic_clamps() {
    // a day past the target month's end is clamped
    assert_eq!(add_months(ymd(2024, 1, 30), 1), Some(ymd(2024, 2, 29)));
    // the last day of a month stays the last day
    assert_eq!(add_months(ymd(2024, 2, 29), 1), Some(ymd(2024, 3, 31)));
    // an ordinary day is kept
    assert_eq!(add_months(ymd(2024, 1, 10), 1), Some(ymd(2024, 2, 10)));
    assert_eq!(add_months(ymd(2024, 3, 15), -1), Some(ymd(2024, 2, 15)));
}

#[test]
fn recurrence_units_apply() {
    let day = Recurrence { num: 3, period: Period::Day, strict: false };
    assert_eq!(day.apply(ymd(2024, 1, 30)), Some(ymd(2024, 2, 2)));
    let week = Recurrence { num: 2, period: Period::Week, strict: false };
    assert_eq!(week.apply(ymd(2024, 1, 1)), Some(ymd(2024, 1, 15)));
    let year = Recurrence { num: 1, period: Period::Year, strict: true };
    assert_eq!(year.apply(ymd(2024, 2, 29)), Some(ymd(2025, 2, 28)));
}

#[test]
fn display_order_due_date_dominates() {
    // a task with a due date and priority B sorts after (is shown ahead
    // of, once the display reverses) a task with no due date and priority A
    let mut a = Task::from_line("(B) pay rent due:2024-02-01").unwrap();
    let b = Task::from_line("(A) idle wish").unwrap();
    assert_eq!(a.cmp(&b), 1);
    assert_eq!(b.cmp(&a), -1);
    // on equal due dates the more urgent priority is greater
    a.due_date = None;
    assert_eq!(a.cmp(&b), -1);
}

#[test]
fn display_order_ties_on_subject() {
    let a = Task::from_line("apples").unwrap();
    let b = Task::from_line("bananas").unwrap();
    assert_eq!(a.cmp(&b), -1);
    assert_eq!(b.cmp(&a), 1);
    assert_eq!(a.cmp(&a), 0);
}

#[test]
fn complete_at_sets_both_fields() {
    let mut t = Task::from_line("water plants").unwrap();
    t.complete_at(ymd(2024, 1, 5));
    assert!(t.finished);
    assert_eq!(t.finish_date, Some(ymd(2024, 1, 5)));
    t.uncomplete();
    assert!(!t.finished);
    assert!(t.finish_date.is_none());
}
