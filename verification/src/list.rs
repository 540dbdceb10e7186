//! The task list and its two backing files.
//!
//! A list is an ordered collection of tasks with their two file paths.  It
//! is rebuilt from the files' text on every reload: tasks from the open
//! file first, then tasks from the done file, ids assigned sequentially.
//! Writing goes the other way: every unfinished task is rendered into the
//! open file's text and every finished one into the done file's text — a
//! task's file membership is a pure function of `finished`.  The list
//! computes the texts; the surrounding program performs the file I/O,
//! following the backup-first protocol of `crate::persist`.

use vstd::prelude::*;

use crate::date::Date;
use crate::task::{
    Task, TaskView, ParseError, parse_line, print_line, default_note_tag,
};
use crate::text::split_sep;

verus! {

/// The views of a task vector.
pub open spec fn list_views(ts: Seq<Task>) -> Seq<TaskView> {
    ts.map_values(|t: Task| t@)
}

/// The tasks a file's lines denote: empty and malformed lines are
/// skipped and consume no id, every other line becomes a task with the
/// next id.
pub open spec fn load_spec(lines: Seq<Seq<char>>, first_id: int) -> Seq<TaskView>
    decreases lines.len(),
{
    if lines.len() == 0 {
        Seq::empty()
    } else {
        match parse_line(lines[0], default_note_tag()) {
            Ok(t) => seq![TaskView { id: first_id, ..t }] + load_spec(
                lines.drop_first(),
                first_id + 1,
            ),
            Err(e) => load_spec(lines.drop_first(), first_id),
        }
    }
}

/// The tasks of `ts` whose `finished` equals `fin`, in order.
pub open spec fn keep(ts: Seq<TaskView>, fin: bool) -> Seq<TaskView>
    decreases ts.len(),
{
    if ts.len() == 0 {
        Seq::empty()
    } else {
        (if ts[0].finished == fin {
            seq![ts[0]]
        } else {
            Seq::empty()
        }) + keep(ts.drop_first(), fin)
    }
}

/// One line per task, each ended by a line break.
pub open spec fn render_spec(ts: Seq<TaskView>) -> Seq<char>
    decreases ts.len(),
{
    if ts.len() == 0 {
        Seq::empty()
    } else {
        print_line(ts[0], default_note_tag()) + seq!['\n'] + render_spec(ts.drop_first())
    }
}

pub proof fn lemma_keep_push(ts: Seq<TaskView>, t: TaskView, fin: bool)
    ensures
        keep(ts.push(t), fin) == if t.finished == fin {
            keep(ts, fin).push(t)
        } else {
            keep(ts, fin)
        },
    decreases ts.len(),
{
    if ts.len() == 0 {
        reveal_with_fuel(keep, 3);
        assert(ts.push(t).drop_first() =~= Seq::<TaskView>::empty());
        assert(ts.push(t)[0] == t);
        if t.finished == fin {
            assert(keep(ts.push(t), fin) =~= keep(ts, fin).push(t));
        } else {
            assert(keep(ts.push(t), fin) =~= keep(ts, fin));
        }
    } else {
        assert(ts.push(t)[0] == ts[0]);
        assert(ts.push(t).drop_first() =~= ts.drop_first().push(t));
        lemma_keep_push(ts.drop_first(), t, fin);
        if t.finished == fin {
            assert((if ts[0].finished == fin {
                seq![ts[0]]
            } else {
                Seq::<TaskView>::empty()
            }) + keep(ts.drop_first(), fin).push(t) =~= ((if ts[0].finished == fin {
                seq![ts[0]]
            } else {
                Seq::<TaskView>::empty()
            }) + keep(ts.drop_first(), fin)).push(t));
        }
    }
}

#[verifier::rlimit(100)]
pub proof fn lemma_render_push(ts: Seq<TaskView>, t: TaskView)
    ensures
        render_spec(ts.push(t)) == render_spec(ts) + print_line(t, default_note_tag())
            + seq!['\n'],
    decreases ts.len(),
{
    if ts.len() == 0 {
        reveal_with_fuel(render_spec, 3);
        assert(ts.push(t)[0] == t);
        assert(ts.push(t).drop_first() =~= Seq::<TaskView>::empty());
        assert(render_spec(ts.push(t)) =~= render_spec(ts) + print_line(t, default_note_tag())
            + seq!['\n']);
    } else {
        assert(ts.push(t)[0] == ts[0]);
        assert(ts.push(t).drop_first() =~= ts.drop_first().push(t));
        lemma_render_push(ts.drop_first(), t);
        assert(print_line(ts[0], default_note_tag()) + seq!['\n'] + (render_spec(ts.drop_first())
            + print_line(t, default_note_tag()) + seq!['\n']) =~= (print_line(
            ts[0],
            default_note_tag(),
        ) + seq!['\n'] + render_spec(ts.drop_first())) + print_line(t, default_note_tag())
            + seq!['\n']);
    }
}

/// What one write has to put on disk: the two target paths and the full
/// new text of each.
pub struct WritePlan {
    pub todo_path: String,
    pub done_path: String,
    pub todo_text: String,
    pub done_text: String,
}

/// Completing task `id` as of `today`: an unfinished task is marked done
/// (and, when it recurs, a successor clone is appended); a finished task
/// is uncompleted.  An id out of range changes nothing.
pub open spec fn complete_at_spec(ts: Seq<TaskView>, id: int, today: Date) -> Seq<TaskView> {
    if !(0 <= id < ts.len()) {
        ts
    } else {
        let t = ts[id];
        if t.finished {
            ts.update(id, TaskView { finished: false, finish_date: None, ..t })
        } else {
            let completed = TaskView { finished: true, finish_date: Some(today), ..t };
            let base = ts.update(id, completed);
            match t.recurrence {
                None => base,
                Some(rec) => {
                    let anchor = if rec.strict && t.due_date is Some {
                        t.due_date.unwrap()
                    } else {
                        today
                    };
                    match rec.apply_spec(anchor) {
                        None => base,
                        Some(next_due) => base.push(
                            TaskView {
                                id: ts.len() as int,
                                finished: false,
                                finish_date: None,
                                create_date: Some(today),
                                due_date: Some(next_due),
                                threshold_date: match t.threshold_date {
                                    Some(td) => rec.apply_spec(td),
                                    None => None,
                                },
                                ..t
                            },
                        ),
                    }
                },
            }
        }
    }
}

/// The task list: the tasks, and the two backing file paths.
#[derive(Clone, Debug)]
pub struct List {
    pub tasks: Vec<Task>,
    pub todo_path: String,
    pub done_path: String,
}

impl List {
    pub open spec fn views(&self) -> Seq<TaskView> {
        list_views(self.tasks@)
    }

    /// Every date any task carries is a valid calendar day.
    pub open spec fn dates_valid(&self) -> bool {
        forall|i: int| 0 <= i < self.views().len() ==> (#[trigger] self.views()[i]).dates_valid()
    }

    pub fn new() -> (r: List)
        ensures
            r.views() == Seq::<TaskView>::empty(),
            r.todo_path@ == Seq::<char>::empty(),
            r.done_path@ == Seq::<char>::empty(),
    {
        let r = List { tasks: Vec::new(), todo_path: String::new(), done_path: String::new() };
        proof {
            assert(r.views() =~= Seq::<TaskView>::empty());
        }
        r
    }

    /// Parses one file's text: one task per nonempty line, ids assigned
    /// from `first_id` on, malformed lines skipped without consuming an
    /// id.  Returns the tasks and the count of skipped lines.
    fn load_text(text: &str, first_id: usize, out: &mut Vec<Task>) -> (skipped: usize)
        requires
            old(out)@.len() == first_id,
        ensures
            list_views(final(out)@) == list_views(old(out)@) + load_spec(
                split_sep(text@, '\n'),
                first_id as int,
            ),
    {
        let chars = crate::text::str_chars(text);
        let lines = crate::text::split_chars(&chars, '\n');
        let ghost lv = crate::text::views(lines@);
        let mut skipped: usize = 0;
        let mut i: usize = 0;
        proof {
            assert(lv.skip(0) =~= lv);
        }
        while i < lines.len()
            invariant
                0 <= i <= lines@.len(),
                skipped <= i,
                old(out)@.len() == first_id,
                lv == crate::text::views(lines@),
                list_views(out@) == list_views(old(out)@) + load_spec(
                    lv.take(i as int),
                    first_id as int,
                ),
                out@.len() >= first_id,
                load_spec(lv, first_id as int) == load_spec(lv.take(i as int), first_id as int)
                    + load_spec(lv.skip(i as int), out@.len() - first_id + first_id),
                load_spec(lv, first_id as int) == load_spec(lv.take(i as int), first_id as int)
                    + load_spec(lv.skip(i as int), out@.len() as int),
            decreases lines@.len() - i,
        {
            let ghost pre = lv.skip(i as int);
            proof {
                assert(pre[0] == lv[i as int]);
                assert(pre.drop_first() =~= lv.skip(i as int + 1));
            }
            let line = crate::text::chars_string(&lines[i]);
            match Task::from_line(line.as_str()) {
                Ok(mut t) => {
                    let ghost prev = out@;
                    let id = out.len();
                    t.id = id;
                    out.push(t);
                    proof {
                        assert(list_views(prev).len() == prev.len());
                        assert(list_views(old(out)@).len() == old(out)@.len());
                        assert(prev.len() == first_id + load_spec(lv.take(i as int), first_id as int).len());
                        assert(list_views(out@) =~= list_views(prev).push(
                            TaskView { id: id as int, ..t@ },
                        ));
                        assert(load_spec(lv.take(i as int + 1), first_id as int) =~= load_spec(
                            lv.take(i as int),
                            first_id as int,
                        ) + seq![
                            TaskView {
                                id: id as int,
                                ..parse_line(lv[i as int], default_note_tag()).unwrap()
                            },
                        ]) by {
                            lemma_load_take_step(lv, i as int, first_id as int);
                        }
                        assert(list_views(prev).push(
                            TaskView { id: id as int, ..t@ },
                        ) =~= list_views(old(out)@) + load_spec(
                            lv.take(i as int + 1),
                            first_id as int,
                        ));
                        assert(load_spec(lv, first_id as int) =~= load_spec(
                            lv.take(i as int + 1),
                            first_id as int,
                        ) + load_spec(lv.skip(i as int + 1), out@.len() as int));
                    }
                },
                Err(e) => {
                    skipped = skipped + 1;
                    proof {
                        assert(load_spec(lv.take(i as int + 1), first_id as int) =~= load_spec(
                            lv.take(i as int),
                            first_id as int,
                        )) by {
                            lemma_load_take_step(lv, i as int, first_id as int);
                        }
                        assert(load_spec(lv, first_id as int) =~= load_spec(
                            lv.take(i as int + 1),
                            first_id as int,
                        ) + load_spec(lv.skip(i as int + 1), out@.len() as int));
                    }
                },
            }
            i = i + 1;
        }
        proof {
            assert(lv.take(lv.len() as int) =~= lv);
            assert(lv.skip(lv.len() as int) =~= Seq::<Seq<char>>::empty());
            assert(load_spec(lv, first_id as int) + Seq::<TaskView>::empty() =~= load_spec(
                lv,
                first_id as int,
            ));
            assert(load_spec(Seq::empty(), out@.len() as int) =~= Seq::<TaskView>::empty());
        }
        skipped
    }

    /// Builds a list from the two files' texts: open-file tasks first,
    /// done-file tasks after them, ids sequential across both.  Malformed
    /// lines are skipped and counted, never silently repaired.
    pub fn from_contents(todo_path: &str, done_path: &str, todo_text: &str, done_text: &str) -> (r:
        (List, usize))
        ensures
            r.0.views() == load_spec(split_sep(todo_text@, '\n'), 0) + load_spec(
                split_sep(done_text@, '\n'),
                load_spec(split_sep(todo_text@, '\n'), 0).len() as int,
            ),
            r.0.todo_path@ == todo_path@,
            r.0.done_path@ == done_path@,
    {
        let mut tasks: Vec<Task> = Vec::new();
        proof {
            assert(list_views(tasks@) =~= Seq::<TaskView>::empty());
        }
        let skipped_todo = Self::load_text(todo_text, 0, &mut tasks);
        let ghost first = list_views(tasks@);
        proof {
            assert(Seq::<TaskView>::empty() + load_spec(split_sep(todo_text@, '\n'), 0)
                =~= load_spec(split_sep(todo_text@, '\n'), 0));
            lemma_load_len(split_sep(todo_text@, '\n'), 0);
        }
        let n = tasks.len();
        let skipped_done = Self::load_text(done_text, n, &mut tasks);
        let list = List {
            tasks,
            todo_path: String::from_str(todo_path),
            done_path: String::from_str(done_path),
        };
        let skipped = if skipped_todo <= usize::MAX - skipped_done {
            skipped_todo + skipped_done
        } else {
            usize::MAX
        };
        (list, skipped)
    }

    /// Renders the two file texts this list must be saved as: unfinished
    /// tasks to the open file, finished tasks to the done file.
    pub fn write_plan(&self) -> (r: WritePlan)
        requires
            self.dates_valid(),
        ensures
            r.todo_path@ == self.todo_path@,
            r.done_path@ == self.done_path@,
            r.todo_text@ == render_spec(keep(self.views(), false)),
            r.done_text@ == render_spec(keep(self.views(), true)),
    {
        let mut todo_text = String::new();
        let mut done_text = String::new();
        let mut i: usize = 0;
        proof {
            assert(self.views().take(0) =~= Seq::<TaskView>::empty());
            assert(keep(Seq::empty(), false) =~= Seq::<TaskView>::empty());
            assert(keep(Seq::empty(), true) =~= Seq::<TaskView>::empty());
        }
        while i < self.tasks.len()
            invariant
                0 <= i <= self.tasks@.len(),
                self.dates_valid(),
                todo_text@ == render_spec(keep(self.views().take(i as int), false)),
                done_text@ == render_spec(keep(self.views().take(i as int), true)),
            decreases self.tasks@.len() - i,
        {
            let ghost prefix = self.views().take(i as int);
            proof {
                assert(self.views()[i as int] == self.tasks@[i as int]@);
                assert(self.views().take(i as int + 1) =~= prefix.push(self.views()[i as int]));
                lemma_keep_push(prefix, self.views()[i as int], false);
                lemma_keep_push(prefix, self.views()[i as int], true);
            }
            let line = self.tasks[i].to_line();
            proof {
                reveal_strlit("\n");
            }
            if self.tasks[i].finished {
                todo_text = todo_text;
                done_text.append(line.as_str());
                done_text.append("\n");
                proof {
                    lemma_render_push(keep(prefix, true), self.views()[i as int]);
                    assert("\n"@ =~= seq!['\n']);
                    assert(done_text@ =~= render_spec(
                        keep(self.views().take(i as int + 1), true),
                    ));
                }
            } else {
                todo_text.append(line.as_str());
                todo_text.append("\n");
                proof {
                    lemma_render_push(keep(prefix, false), self.views()[i as int]);
                    assert("\n"@ =~= seq!['\n']);
                    assert(todo_text@ =~= render_spec(
                        keep(self.views().take(i as int + 1), false),
                    ));
                }
            }
            i = i + 1;
        }
        proof {
            assert(self.views().take(self.views().len() as int) =~= self.views());
        }
        WritePlan {
            todo_path: self.todo_path.clone(),
            done_path: self.done_path.clone(),
            todo_text,
            done_text,
        }
    }

    /// Appends a task as given.
    pub fn append(&mut self, task: Task)
        ensures
            (*final(self)).views() == (*old(self)).views().push(task@),
            (*final(self)).todo_path == (*old(self)).todo_path,
            (*final(self)).done_path == (*old(self)).done_path,
    {
        self.tasks.push(task);
        proof {
            assert(self.views() =~= (*old(self)).views().push(self.tasks@.last()@));
        }
    }

    /// Parses quick-add text as a task, stamps today as its creation
    /// date, and appends it with a fresh id.  On a parse error nothing
    /// changes and the error is returned: an add is never partially
    /// applied.  The caller persists the new state with `write_plan`.
    pub fn add(&mut self, text: &str) -> (r: Result<(), ParseError>)
        ensures
            match r {
                Ok(()) => parse_line(text@, default_note_tag()) is Ok && (exists|today: Date|
                    #[trigger] today.valid() && (*final(self)).views() == (*old(self)).views().push(
                        TaskView {
                            id: (*old(self)).views().len() as int,
                            create_date: Some(today),
                            ..parse_line(text@, default_note_tag()).unwrap()
                        },
                    )),
                Err(e) => {
                    &&& parse_line(text@, default_note_tag()) == Err::<TaskView, ParseError>(e)
                    &&& *final(self) == *old(self)
                },
            },
            (*final(self)).todo_path == (*old(self)).todo_path,
            (*final(self)).done_path == (*old(self)).done_path,
    {
        match Task::from_line(text) {
            Ok(mut t) => {
                let today = crate::date::today();
                t.create_date = Some(today);
                t.id = self.tasks.len();
                let ghost tv = t@;
                self.tasks.push(t);
                proof {
                    assert(self.views() =~= (*old(self)).views().push(tv));
                }
                Ok(())
            },
            Err(e) => Err(e),
        }
    }

    /// Toggles completion of task `id` as of `today`; completing an
    /// unfinished recurring task appends its successor.  Returns whether
    /// the id named a task.
    pub fn complete_at(&mut self, id: usize, today: Date) -> (r: bool)
        requires
            today.valid(),
            (*old(self)).dates_valid(),
        ensures
            (*final(self)).views() == complete_at_spec((*old(self)).views(), id as int, today),
            r == (id < (*old(self)).views().len()),
            (*final(self)).todo_path == (*old(self)).todo_path,
            (*final(self)).done_path == (*old(self)).done_path,
    {
        if id >= self.tasks.len() {
            return false;
        }
        let ghost ts = self.views();
        let ghost t = ts[id as int];
        if self.tasks[id].finished {
            let mut task = self.tasks[id].duplicate();
            task.uncomplete();
            self.tasks.set(id, task);
            proof {
                assert(self.views() =~= ts.update(
                    id as int,
                    TaskView { finished: false, finish_date: None, ..t },
                ));
            }
        } else {
            let mut task = self.tasks[id].duplicate();
            task.complete_at(today);
            let recurrence = task.recurrence;
            self.tasks.set(id, task);
            proof {
                assert(self.views() =~= ts.update(
                    id as int,
                    TaskView { finished: true, finish_date: Some(today), ..t },
                ));
            }
            let ghost base = self.views();
            if let Some(rec) = recurrence {
                let anchor: Date = match self.tasks[id].due_date {
                    Some(d) if rec.strict => d,
                    _ => today,
                };
                proof {
                    assert(t.dates_valid());
                }
                if let Some(next_due) = rec.apply(anchor) {
                    let mut clone = self.tasks[id].duplicate();
                    clone.uncomplete();
                    clone.id = self.tasks.len();
                    clone.create_date = Some(today);
                    clone.due_date = Some(next_due);
                    clone.threshold_date = match clone.threshold_date {
                        Some(td) => rec.apply(td),
                        None => None,
                    };
                    let ghost cv = clone@;
                    self.tasks.push(clone);
                    proof {
                        assert(self.views() =~= base.push(cv));
                        assert(cv =~= (TaskView {
                            id: ts.len() as int,
                            finished: false,
                            finish_date: None,
                            create_date: Some(today),
                            due_date: Some(next_due),
                            threshold_date: match t.threshold_date {
                                Some(td) => rec.apply_spec(td),
                                None => None,
                            },
                            ..t
                        }));
                    }
                }
            }
        }
        true
    }

    /// Toggles completion of task `id` as of the current local day.
    pub fn complete(&mut self, id: usize) -> (r: bool)
        requires
            (*old(self)).dates_valid(),
        ensures
            exists|today: Date|
                #[trigger] today.valid() && (*final(self)).views() == complete_at_spec(
                    (*old(self)).views(),
                    id as int,
                    today,
                ),
            r == (id < (*old(self)).views().len()),
    {
        let today = crate::date::today();
        self.complete_at(id, today)
    }
}

#[verifier::rlimit(100)]
/// Whether some element of `v` spells `s`.
fn contains_string(v: &Vec<String>, s: &String) -> (r: bool)
    ensures
        r == (exists|p: int| 0 <= p < v@.len() && (#[trigger] v@[p])@ == s@),
{
    let mut j: usize = 0;
    while j < v.len()
        invariant
            0 <= j <= v@.len(),
            forall|p: int| 0 <= p < j ==> (#[trigger] v@[p])@ != s@,
        decreases v@.len() - j,
    {
        if v[j].eq(s) {
            proof {
                assert(v@[j as int]@ == s@);
            }
            return true;
        }
        j = j + 1;
    }
    false
}

/// A task counts toward the category lists when it is open and not
/// deferred past `today`.
pub open spec fn eligible(t: TaskView, today: Date) -> bool {
    !t.finished && (t.threshold_date is None || t.threshold_date.unwrap().le_spec(today))
}

/// Whether `name` is marked by `lead` in some token of `subject`.
pub open spec fn subject_has_cat(subject: Seq<char>, lead: char, name: Seq<char>) -> bool {
    exists|k: int|
        0 <= k < split_sep(subject, ' ').len() && (#[trigger] split_sep(subject, ' ')[k]).len() >= 2
            && split_sep(subject, ' ')[k][0] == lead && name == split_sep(
            subject,
            ' ',
        )[k].drop_first()
}

/// Whether some eligible task of `ts` carries the category `name`.
pub open spec fn list_has_cat(ts: Seq<TaskView>, today: Date, lead: char, name: Seq<char>) -> bool {
    exists|i: int|
        0 <= i < ts.len() && eligible(#[trigger] ts[i], today) && subject_has_cat(
            ts[i].subject,
            lead,
            name,
        )
}

impl List {
    /// The distinct category names of the eligible tasks: exactly those
    /// marked by `lead` in some open, non-deferred task's subject, each
    /// once.
    fn categories(&self, today: Date, lead: char) -> (r: Vec<String>)
        ensures
            forall|a: int, b: int| 0 <= a < b < r@.len() ==> (#[trigger] r@[a])@ != (#[trigger] r@[b])@,
            forall|j: int|
                0 <= j < r@.len() ==> list_has_cat(self.views(), today, lead, (#[trigger] r@[j])@),
            forall|name: Seq<char>|
                list_has_cat(self.views(), today, lead, name) ==> exists|j: int|
                    0 <= j < r@.len() && (#[trigger] r@[j])@ == name,
    {
        let ghost ts = self.views();
        let mut out: Vec<String> = Vec::new();
        let mut i: usize = 0;
        while i < self.tasks.len()
            invariant
                0 <= i <= self.tasks@.len(),
                ts == self.views(),
                forall|a: int, b: int|
                    0 <= a < b < out@.len() ==> (#[trigger] out@[a])@ != (#[trigger] out@[b])@,
                forall|j: int|
                    0 <= j < out@.len() ==> list_has_cat(ts, today, lead, (#[trigger] out@[j])@),
                forall|name: Seq<char>|
                    list_has_cat(ts.take(i as int), today, lead, name) ==> exists|j: int|
                        0 <= j < out@.len() && (#[trigger] out@[j])@ == name,
            decreases self.tasks@.len() - i,
        {
            proof {
                assert(ts[i as int] == self.tasks@[i as int]@);
            }
            let task = &self.tasks[i];
            let open = !task.finished && (match task.threshold_date {
                None => true,
                Some(td) => td.le(today),
            });
            if open {
                let subject_chars = crate::text::str_chars(task.subject.as_str());
                let toks = crate::text::split_chars(&subject_chars, ' ');
                let ghost tv = crate::text::views(toks@);
                let mut k: usize = 0;
                while k < toks.len()
                    invariant
                        0 <= k <= toks@.len(),
                        i < self.tasks@.len(),
                        ts == self.views(),
                        ts[i as int] == self.tasks@[i as int]@,
                        eligible(ts[i as int], today),
                        tv == crate::text::views(toks@),
                        tv == split_sep(ts[i as int].subject, ' '),
                        forall|a: int, b: int|
                            0 <= a < b < out@.len() ==> (#[trigger] out@[a])@ != (
                            #[trigger] out@[b])@,
                        forall|j: int|
                            0 <= j < out@.len() ==> list_has_cat(
                                ts,
                                today,
                                lead,
                                (#[trigger] out@[j])@,
                            ),
                        forall|name: Seq<char>|
                            list_has_cat(ts.take(i as int), today, lead, name) ==> exists|j: int|
                                0 <= j < out@.len() && (#[trigger] out@[j])@ == name,
                        forall|m: int|
                            0 <= m < k && (#[trigger] tv[m]).len() >= 2 && tv[m][0] == lead
                                ==> exists|j: int|
                                0 <= j < out@.len() && (#[trigger] out@[j])@ == tv[m].drop_first(),
                    decreases toks@.len() - k,
                {
                    let tok = &toks[k];
                    if tok.len() >= 2 && tok[0] == lead {
                        let name_chars = crate::task::sub_chars(tok, 1, tok.len());
                        proof {
                            assert(tok@.subrange(1, tok@.len() as int) =~= tok@.drop_first());
                        }
                        let name = crate::text::chars_string(&name_chars);
                        let seen = contains_string(&out, &name);
                        if !seen {
                            let ghost prev = out@;
                            let ghost nm = name@;
                            out.push(name);
                            proof {
                                assert(out@[out@.len() - 1]@ == nm);
                                assert(forall|p: int|
                                    0 <= p < prev.len() ==> #[trigger] out@[p] == prev[p]);
                                assert(list_has_cat(ts, today, lead, nm)) by {
                                    assert(subject_has_cat(ts[i as int].subject, lead, nm)) by {
                                        assert(split_sep(ts[i as int].subject, ' ')[k as int].len()
                                            >= 2);
                                    }
                                }
                                assert forall|a: int, b: int|
                                    0 <= a < b < out@.len() implies (#[trigger] out@[a])@ != (
                                #[trigger] out@[b])@ by {
                                    if b < prev.len() {
                                        assert(out@[a] == prev[a] && out@[b] == prev[b]);
                                    } else {
                                        assert(out@[b]@ == nm);
                                        assert(out@[a] == prev[a]);
                                        assert(prev[a]@ != nm);
                                    }
                                }
                                assert forall|cname: Seq<char>| #[trigger] list_has_cat(
                                    ts.take(i as int),
                                    today,
                                    lead,
                                    cname,
                                ) implies exists|p: int|
                                    0 <= p < out@.len() && (#[trigger] out@[p])@ == cname by {
                                    let p0 = choose|p0: int|
                                        0 <= p0 < prev.len() && (#[trigger] prev[p0])@ == cname;
                                    assert(out@[p0] == prev[p0]);
                                }
                                assert forall|m: int|
                                    0 <= m < k + 1 && (#[trigger] tv[m]).len() >= 2 && tv[m][0]
                                        == lead implies exists|p: int|
                                    0 <= p < out@.len() && (#[trigger] out@[p])@
                                        == tv[m].drop_first() by {
                                    if m < k {
                                        let p0 = choose|p0: int|
                                            0 <= p0 < prev.len() && (#[trigger] prev[p0])@
                                                == tv[m].drop_first();
                                        assert(out@[p0] == prev[p0]);
                                    } else {
                                        assert(out@[out@.len() - 1]@ == nm);
                                    }
                                }
                            }
                        } else {
                            proof {
                                assert(exists|p: int|
                                    0 <= p < out@.len() && (#[trigger] out@[p])@ == tv[k as int].drop_first());
                            }
                        }
                    }
                    k = k + 1;
                }
                proof {
                    assert(ts.take(i as int + 1) =~= ts.take(i as int).push(ts[i as int]));
                    assert forall|name: Seq<char>| #[trigger] list_has_cat(
                        ts.take(i as int + 1),
                        today,
                        lead,
                        name,
                    ) implies exists|j: int| 0 <= j < out@.len() && (#[trigger] out@[j])@ == name by {
                        let w = choose|w: int|
                            0 <= w < ts.take(i as int + 1).len() && eligible(
                                #[trigger] ts.take(i as int + 1)[w],
                                today,
                            ) && subject_has_cat(ts.take(i as int + 1)[w].subject, lead, name);
                        if w < i as int {
                            assert(ts.take(i as int + 1)[w] == ts.take(i as int)[w]);
                            assert(list_has_cat(ts.take(i as int), today, lead, name));
                        } else {
                            assert(ts.take(i as int + 1)[w] == ts[i as int]);
                            let m = choose|m: int|
                                0 <= m < tv.len() && (#[trigger] tv[m]).len() >= 2 && tv[m][0]
                                    == lead && name == tv[m].drop_first();
                        }
                    }
                }
            } else {
                proof {
                    assert(ts.take(i as int + 1) =~= ts.take(i as int).push(ts[i as int]));
                    assert forall|name: Seq<char>| #[trigger] list_has_cat(
                        ts.take(i as int + 1),
                        today,
                        lead,
                        name,
                    ) implies list_has_cat(ts.take(i as int), today, lead, name) by {
                        let w = choose|w: int|
                            0 <= w < ts.take(i as int + 1).len() && eligible(
                                #[trigger] ts.take(i as int + 1)[w],
                                today,
                            ) && subject_has_cat(ts.take(i as int + 1)[w].subject, lead, name);
                        assert(w != i as int);
                        assert(ts.take(i as int + 1)[w] == ts.take(i as int)[w]);
                    }
                }
            }
            i = i + 1;
        }
        proof {
            assert(ts.take(ts.len() as int) =~= ts);
        }
        out
    }

    /// The distinct `+project` names across open, non-deferred tasks.
    pub fn projects(&self, today: Date) -> (r: Vec<String>)
        ensures
            forall|a: int, b: int| 0 <= a < b < r@.len() ==> (#[trigger] r@[a])@ != (#[trigger] r@[b])@,
            forall|j: int|
                0 <= j < r@.len() ==> list_has_cat(self.views(), today, '+', (#[trigger] r@[j])@),
            forall|name: Seq<char>|
                list_has_cat(self.views(), today, '+', name) ==> exists|j: int|
                    0 <= j < r@.len() && (#[trigger] r@[j])@ == name,
    {
        self.categories(today, '+')
    }

    /// The distinct `@context` names across open, non-deferred tasks.
    pub fn contexts(&self, today: Date) -> (r: Vec<String>)
        ensures
            forall|a: int, b: int| 0 <= a < b < r@.len() ==> (#[trigger] r@[a])@ != (#[trigger] r@[b])@,
            forall|j: int|
                0 <= j < r@.len() ==> list_has_cat(self.views(), today, '@', (#[trigger] r@[j])@),
            forall|name: Seq<char>|
                list_has_cat(self.views(), today, '@', name) ==> exists|j: int|
                    0 <= j < r@.len() && (#[trigger] r@[j])@ == name,
    {
        self.categories(today, '@')
    }
}

proof fn lemma_load_take_step(lv: Seq<Seq<char>>, i: int, first_id: int)
    requires
        0 <= i < lv.len(),
    ensures
        load_spec(lv.take(i + 1), first_id) == load_spec(lv.take(i), first_id) + (match parse_line(
            lv[i],
            default_note_tag(),
        ) {
            Ok(t) => seq![
                TaskView {
                    id: first_id + load_spec(lv.take(i), first_id).len(),
                    ..parse_line(lv[i], default_note_tag()).unwrap()
                },
            ],
            Err(e) => Seq::<TaskView>::empty(),
        }),
    decreases i,
{
    if i == 0 {
        reveal_with_fuel(load_spec, 3);
        assert(lv.take(1)[0] == lv[0]);
        assert(lv.take(1).drop_first() =~= Seq::<Seq<char>>::empty());
        assert(lv.take(0) =~= Seq::<Seq<char>>::empty());
        match parse_line(lv[0], default_note_tag()) {
            Ok(t) => {
                assert(load_spec(lv.take(1), first_id) =~= Seq::<TaskView>::empty() + seq![
                    TaskView { id: first_id, ..t },
                ]);
            },
            Err(e) => {
                assert(load_spec(lv.take(1), first_id) =~= Seq::<TaskView>::empty());
            },
        }
    } else {
        assert(lv.take(i + 1)[0] == lv[0]);
        assert(lv.take(i)[0] == lv[0]);
        assert(lv.take(i + 1).drop_first() =~= lv.drop_first().take(i));
        assert(lv.take(i).drop_first() =~= lv.drop_first().take(i - 1));
        assert(lv.drop_first()[i - 1] == lv[i]);
        match parse_line(lv[0], default_note_tag()) {
            Ok(t0) => {
                lemma_load_take_step(lv.drop_first(), i - 1, first_id + 1);
                match parse_line(lv[i], default_note_tag()) {
                    Ok(t) => {
                        assert(load_spec(lv.take(i + 1), first_id) =~= load_spec(
                            lv.take(i),
                            first_id,
                        ) + seq![
                            TaskView {
                                id: first_id + load_spec(lv.take(i), first_id).len(),
                                ..t
                            },
                        ]);
                    },
                    Err(e) => {
                        assert(load_spec(lv.take(i + 1), first_id) =~= load_spec(
                            lv.take(i),
                            first_id,
                        ));
                    },
                }
            },
            Err(e0) => {
                lemma_load_take_step(lv.drop_first(), i - 1, first_id);
                match parse_line(lv[i], default_note_tag()) {
                    Ok(t) => {
                        assert(load_spec(lv.take(i + 1), first_id) =~= load_spec(
                            lv.take(i),
                            first_id,
                        ) + seq![
                            TaskView {
                                id: first_id + load_spec(lv.take(i), first_id).len(),
                                ..t
                            },
                        ]);
                    },
                    Err(e) => {
                        assert(load_spec(lv.take(i + 1), first_id) =~= load_spec(
                            lv.take(i),
                            first_id,
                        ));
                    },
                }
            },
        }
    }
}

/// Loading from `first_id` assigns ids `first_id` onwards: the count of
/// loaded tasks is independent of the starting id.
pub proof fn lemma_load_len(lines: Seq<Seq<char>>, first_id: int)
    ensures
        load_spec(lines, first_id).len() <= lines.len(),
    decreases lines.len(),
{
    if lines.len() > 0 {
        match parse_line(lines[0], default_note_tag()) {
            Ok(t) => {
                lemma_load_len(lines.drop_first(), first_id + 1);
            },
            Err(e) => {
                lemma_load_len(lines.drop_first(), first_id);
            },
        }
    }
}

} // verus!
