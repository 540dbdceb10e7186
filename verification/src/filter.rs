//! The display filters.
//!
//! Each display surface projects the current task snapshot through one
//! rule — everything, the done list, the flagged list, or a search — under
//! the current visibility policy.  A filter only selects what is shown; it
//! never changes what is stored.

use vstd::prelude::*;

use crate::date::Date;
use crate::preferences::Preferences;
use crate::task::{Task, TaskView};

verus! {

/// What `str::to_lowercase` returns for a string: the result depends on
/// the characters alone.
pub uninterp spec fn lower_of(s: Seq<char>) -> Seq<char>;

/// Relies on str::to_lowercase: the lowercase mapping of a string is a
/// function of its characters alone.
#[verifier::external_body]
fn lowercase(s: &str) -> (r: String)
    ensures
        r@ == lower_of(s@),
{
    s.to_lowercase()
}

/// `needle` occurs contiguously inside `hay`.
pub open spec fn contains_seq(hay: Seq<char>, needle: Seq<char>) -> bool {
    exists|i: int|
        0 <= i <= hay.len() - needle.len() && #[trigger] hay.subrange(i, i + needle.len())
            == needle
}

/// Relies on str::contains with a `&str` pattern: true exactly when the
/// pattern matches a contiguous sub-slice of the string.
#[verifier::external_body]
fn contains_str(hay: &str, needle: &str) -> (r: bool)
    ensures
        r == contains_seq(hay@, needle@),
{
    hay.contains(needle)
}

/// One display surface's selection rule.
#[derive(Clone, Debug)]
pub enum Rule {
    /// Every task.
    All,
    /// The done list: finished tasks.
    Done,
    /// The flag list: flagged tasks.
    Flagged,
    /// Case-insensitive subject search.
    Search(String),
}

/// Whether a task is shown under a rule and a visibility policy, `today`
/// deciding what counts as deferred.
pub open spec fn rule_matches(rule: Rule, t: TaskView, prefs: Preferences, today: Date) -> bool {
    match rule {
        Rule::All => true,
        Rule::Done => t.finished && (prefs.hidden || !t.hidden),
        Rule::Flagged => {
            &&& t.flagged
            &&& (prefs.done || !t.finished)
            &&& (prefs.hidden || !t.hidden)
            &&& (prefs.defered || t.threshold_date is None || t.threshold_date.unwrap().le_spec(
                today,
            ))
        },
        Rule::Search(q) => contains_seq(lower_of(t.subject), lower_of(q@)),
    }
}

/// The tasks a rule selects, in list order.
pub open spec fn selected(
    ts: Seq<TaskView>,
    rule: Rule,
    prefs: Preferences,
    today: Date,
) -> Seq<TaskView>
    decreases ts.len(),
{
    if ts.len() == 0 {
        Seq::empty()
    } else {
        (if rule_matches(rule, ts[0], prefs, today) {
            seq![ts[0]]
        } else {
            Seq::empty()
        }) + selected(ts.drop_first(), rule, prefs, today)
    }
}

pub proof fn lemma_selected_push(
    ts: Seq<TaskView>,
    t: TaskView,
    rule: Rule,
    prefs: Preferences,
    today: Date,
)
    ensures
        selected(ts.push(t), rule, prefs, today) == if rule_matches(rule, t, prefs, today) {
            selected(ts, rule, prefs, today).push(t)
        } else {
            selected(ts, rule, prefs, today)
        },
    decreases ts.len(),
{
    if ts.len() == 0 {
        reveal_with_fuel(selected, 3);
        assert(ts.push(t).drop_first() =~= Seq::<TaskView>::empty());
        assert(ts.push(t)[0] == t);
        if rule_matches(rule, t, prefs, today) {
            assert(selected(ts.push(t), rule, prefs, today) =~= selected(
                ts,
                rule,
                prefs,
                today,
            ).push(t));
        } else {
            assert(selected(ts.push(t), rule, prefs, today) =~= selected(ts, rule, prefs, today));
        }
    } else {
        assert(ts.push(t)[0] == ts[0]);
        assert(ts.push(t).drop_first() =~= ts.drop_first().push(t));
        lemma_selected_push(ts.drop_first(), t, rule, prefs, today);
        if rule_matches(rule, t, prefs, today) {
            assert((if rule_matches(rule, ts[0], prefs, today) {
                seq![ts[0]]
            } else {
                Seq::<TaskView>::empty()
            }) + selected(ts.drop_first(), rule, prefs, today).push(t) =~= ((if rule_matches(
                rule,
                ts[0],
                prefs,
                today,
            ) {
                seq![ts[0]]
            } else {
                Seq::<TaskView>::empty()
            }) + selected(ts.drop_first(), rule, prefs, today)).push(t));
        }
    }
}

/// A display surface's projection of the task snapshot.
#[derive(Clone, Debug)]
pub struct Filter {
    pub rule: Rule,
}

impl Filter {
    /// Wraps a selection rule as a filter.
    pub fn from(rule: Rule) -> (r: Filter)
        ensures
            r.rule == rule,
    {
        Filter { rule }
    }

    /// The tasks this filter shows, in list order: exactly those matching
    /// its rule under the given policy.
    pub fn apply(&self, tasks: &Vec<Task>, prefs: &Preferences, today: Date) -> (r: Vec<Task>)
        ensures
            crate::list::list_views(r@) == selected(
                crate::list::list_views(tasks@),
                self.rule,
                *prefs,
                today,
            ),
    {
        let ghost ts = crate::list::list_views(tasks@);
        let mut out: Vec<Task> = Vec::new();
        let query: String = match &self.rule {
            Rule::Search(q) => lowercase(q.as_str()),
            _ => String::new(),
        };
        let mut i: usize = 0;
        proof {
            assert(ts.take(0) =~= Seq::<TaskView>::empty());
            assert(crate::list::list_views(out@) =~= Seq::<TaskView>::empty());
        }
        while i < tasks.len()
            invariant
                0 <= i <= tasks@.len(),
                ts == crate::list::list_views(tasks@),
                (match self.rule {
                    Rule::Search(q) => query@ == lower_of(q@),
                    _ => true,
                }),
                crate::list::list_views(out@) == selected(
                    ts.take(i as int),
                    self.rule,
                    *prefs,
                    today,
                ),
            decreases tasks@.len() - i,
        {
            let ghost prefix = ts.take(i as int);
            proof {
                assert(ts[i as int] == tasks@[i as int]@);
                assert(ts.take(i as int + 1) =~= prefix.push(ts[i as int]));
                lemma_selected_push(prefix, ts[i as int], self.rule, *prefs, today);
            }
            let task = &tasks[i];
            let show: bool = match &self.rule {
                Rule::All => true,
                Rule::Done => task.finished && (prefs.hidden || !task.hidden),
                Rule::Flagged => {
                    let visible_threshold = match task.threshold_date {
                        None => true,
                        Some(td) => td.le(today),
                    };
                    task.flagged && (prefs.done || !task.finished) && (prefs.hidden
                        || !task.hidden) && (prefs.defered || visible_threshold)
                },
                Rule::Search(q) => {
                    let subject_lower = lowercase(task.subject.as_str());
                    contains_str(subject_lower.as_str(), query.as_str())
                },
            };
            if show {
                let ghost prev = out@;
                out.push(task.duplicate());
                proof {
                    assert(crate::list::list_views(out@) =~= crate::list::list_views(prev).push(
                        ts[i as int],
                    ));
                }
            }
            i = i + 1;
        }
        proof {
            assert(ts.take(ts.len() as int) =~= ts);
        }
        out
    }
}

} // verus!
