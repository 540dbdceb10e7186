//! One task, and its todo.txt line format.
//!
//! A line is its space-separated tokens: an optional leading `x`
//! (completed), an optional `(A)`–`(Z)` priority, up to two `YYYY-MM-DD`
//! dates (with two dates the first is the completion date and the second
//! the creation date; with one it is the creation date), then the subject's
//! free text interleaved with `key:value` tags.  The tags `due` and `t`
//! carry the due and threshold dates and must hold valid dates, `rec`
//! carries a recurrence, `f` and `h` flag and hide the task, and one
//! configurable tag (by default `note`) names the task's external note
//! file; every other tag is kept verbatim, in insertion order.
//!
//! The parser is strict where a malformed token would otherwise lose data:
//! a token that begins with `(` must be a priority token in the priority
//! position, a `YYYY-MM-DD` shaped token in a date position must be a valid
//! calendar day, and so must the values of `due` and `t`; otherwise the
//! whole line is rejected and nothing is built.  A `rec` value that is not
//! a recurrence stays a plain tag.  A `key:value` token whose value starts
//! with `/` is subject text (so URLs stay in the subject), as is one with
//! an empty key or value.

use vstd::prelude::*;

use crate::date::{Date, date_shaped, date_token, token_date};
use crate::recurrence::{Recurrence, parse_rec, rec_token};
use crate::text::{join_sep, split_sep};

verus! {

/// Why a line was rejected.
#[derive(Clone, Copy, Debug, PartialEq, Eq, Structural)]
pub enum ParseError {
    /// A token beginning with `(` that is not a priority in its position.
    Priority,
    /// A date-shaped token or a `due`/`t` value that is no calendar day.
    Date,
    /// A line break inside what must be a single line.
    Line,
}

/// A task's out-of-band note: absent, in-memory text not yet saved, or a
/// reference to a note file whose content is loaded lazily.
#[derive(Clone, Debug, PartialEq, Eq)]
pub enum Note {
    Empty,
    Short(String),
    Long { filename: String, content: String },
}

pub enum NoteView {
    Empty,
    Short(Seq<char>),
    Long { filename: Seq<char>, content: Seq<char> },
}

impl View for Note {
    type V = NoteView;

    open spec fn view(&self) -> NoteView {
        match self {
            Note::Empty => NoteView::Empty,
            Note::Short(s) => NoteView::Short(s@),
            Note::Long { filename, content } => NoteView::Long {
                filename: filename@,
                content: content@,
            },
        }
    }
}

/// What a note serializes as: the text of an unsaved note, or the file
/// name of a saved one.
pub open spec fn note_marker(n: NoteView) -> Seq<char> {
    match n {
        NoteView::Empty => Seq::empty(),
        NoteView::Short(content) => content,
        NoteView::Long { filename, content } => filename,
    }
}

/// One task.  `id` is its position in the loaded list; it is not part of
/// the line format.
#[derive(Clone, Debug, PartialEq, Eq)]
pub struct Task {
    pub id: usize,
    pub subject: String,
    pub priority: u8,
    pub create_date: Option<Date>,
    pub finish_date: Option<Date>,
    pub threshold_date: Option<Date>,
    pub due_date: Option<Date>,
    pub finished: bool,
    pub flagged: bool,
    pub hidden: bool,
    pub tags: Vec<(String, String)>,
    pub recurrence: Option<Recurrence>,
    pub note: Note,
}

#[verifier::ext_equal]
pub struct TaskView {
    pub id: int,
    pub subject: Seq<char>,
    pub priority: u8,
    pub create_date: Option<Date>,
    pub finish_date: Option<Date>,
    pub threshold_date: Option<Date>,
    pub due_date: Option<Date>,
    pub finished: bool,
    pub flagged: bool,
    pub hidden: bool,
    pub tags: Seq<(Seq<char>, Seq<char>)>,
    pub recurrence: Option<Recurrence>,
    pub note: NoteView,
}

/// The view of a tag vector.
pub open spec fn tags_view(ts: Seq<(String, String)>) -> Seq<(Seq<char>, Seq<char>)> {
    ts.map_values(|kv: (String, String)| (kv.0@, kv.1@))
}

impl View for Task {
    type V = TaskView;

    open spec fn view(&self) -> TaskView {
        TaskView {
            id: self.id as int,
            subject: self.subject@,
            priority: self.priority,
            create_date: self.create_date,
            finish_date: self.finish_date,
            threshold_date: self.threshold_date,
            due_date: self.due_date,
            finished: self.finished,
            flagged: self.flagged,
            hidden: self.hidden,
            tags: tags_view(self.tags@),
            recurrence: self.recurrence,
            note: self.note@,
        }
    }
}

/// Priority 26 means "no priority"; 0 through 25 are `A` through `Z`.
pub const NO_PRIORITY: u8 = 26;

pub open spec fn pri_char(p: u8) -> char {
    ((p + 65) as u8) as char
}

pub open spec fn pri_letter(c: char) -> Option<u8> {
    if 65 <= c as u32 <= 90 {
        Some((c as u32 - 65) as u8)
    } else if 97 <= c as u32 <= 122 {
        Some((c as u32 - 97) as u8)
    } else {
        None
    }
}

/// The priority a `(A)`-shaped token denotes.
pub open spec fn pri_token_val(t: Seq<char>) -> Option<u8> {
    if t.len() == 3 && t[0] == '(' && t[2] == ')' {
        pri_letter(t[1])
    } else {
        None
    }
}

pub open spec fn pri_token(p: u8) -> Seq<char> {
    seq!['(', pri_char(p), ')']
}

pub proof fn lemma_pri_token_inverse(p: u8)
    requires
        p < 26,
    ensures
        pri_token_val(pri_token(p)) == Some(p),
        pri_token(p)[0] == '(',
        !pri_token(p).contains(' '),
        !pri_token(p).contains('\n'),
        !pri_token(p).contains(':'),
{
    assert(pri_char(p) as u32 == p + 65);
    let t = pri_token(p);
    assert forall|i: int| 0 <= i < t.len() implies t[i] != ' ' && t[i] != '\n' && t[i] != ':' by {
        assert(t[0] == '(' && t[1] == pri_char(p) && t[2] == ')');
    }
}

/// The position of the first `:` in `t`, or -1.
pub open spec fn colon_pos(t: Seq<char>) -> int
    decreases t.len(),
{
    if t.len() == 0 {
        -1
    } else if t[0] == ':' {
        0
    } else {
        let p = colon_pos(t.drop_first());
        if p == -1 {
            -1
        } else {
            p + 1
        }
    }
}

pub proof fn lemma_colon_pos(t: Seq<char>)
    ensures
        colon_pos(t) >= -1,
        colon_pos(t) == -1 ==> !t.contains(':'),
        colon_pos(t) >= 0 ==> 0 <= colon_pos(t) < t.len() && t[colon_pos(t)] == ':' && (forall|
            j: int,
        |
            0 <= j < colon_pos(t) ==> t[j] != ':'),
    decreases t.len(),
{
    if t.len() == 0 {
    } else if t[0] == ':' {
    } else {
        lemma_colon_pos(t.drop_first());
        let p = colon_pos(t.drop_first());
        if p == -1 {
            if t.contains(':') {
                let i = choose|i: int| 0 <= i < t.len() && t[i] == ':';
                assert(i > 0);
                assert(t.drop_first()[i - 1] == ':');
                assert(t.drop_first().contains(':'));
                assert(false);
            }
        } else {
            assert(t[p + 1] == t.drop_first()[p]);
            assert forall|j: int| 0 <= j < p + 1 implies t[j] != ':' by {
                if j > 0 {
                    assert(t[j] == t.drop_first()[j - 1]);
                }
            }
        }
    }
}

/// Splits a `key:value` token at its first colon, when the key and value
/// are nonempty and the value does not start with `/`.
pub open spec fn tag_split(tok: Seq<char>) -> Option<(Seq<char>, Seq<char>)> {
    let p = colon_pos(tok);
    if 1 <= p < tok.len() - 1 && tok[p + 1] != '/' {
        Some((tok.take(p), tok.skip(p + 1)))
    } else {
        None
    }
}

pub open spec fn due_key() -> Seq<char> {
    seq!['d', 'u', 'e']
}

pub open spec fn threshold_key() -> Seq<char> {
    seq!['t']
}

pub open spec fn rec_key() -> Seq<char> {
    seq!['r', 'e', 'c']
}

pub open spec fn flag_key() -> Seq<char> {
    seq!['f']
}

pub open spec fn hidden_key() -> Seq<char> {
    seq!['h']
}

pub open spec fn default_note_tag() -> Seq<char> {
    seq!['n', 'o', 't', 'e']
}

/// A key a stored tag may use: it would split back out of `key:value`,
/// and it is none of the reserved keys.
pub open spec fn good_key(k: Seq<char>, note_tag: Seq<char>) -> bool {
    &&& k.len() > 0
    &&& !k.contains(' ')
    &&& !k.contains('\n')
    &&& !k.contains(':')
    &&& k[0] != '('
    &&& k != due_key()
    &&& k != threshold_key()
    &&& k != rec_key()
    &&& k != flag_key()
    &&& k != hidden_key()
    &&& k != note_tag
}

/// A value a stored tag may hold.
pub open spec fn good_value(v: Seq<char>) -> bool {
    &&& v.len() > 0
    &&& !v.contains(' ')
    &&& !v.contains('\n')
    &&& v[0] != '/'
}

/// A token that stays in the subject: not a priority, not a tag.
pub open spec fn plain_token(tok: Seq<char>) -> bool {
    &&& tok.len() > 0
    &&& !tok.contains(' ')
    &&& !tok.contains('\n')
    &&& tok[0] != '('
    &&& tag_split(tok) is None
}

/// The token a stored tag serializes to.
pub open spec fn tag_token(k: Seq<char>, v: Seq<char>) -> Seq<char> {
    k + seq![':'] + v
}

pub proof fn lemma_tag_token_split(k: Seq<char>, v: Seq<char>)
    requires
        k.len() > 0,
        !k.contains(':'),
        v.len() > 0,
        v[0] != '/',
    ensures
        tag_split(tag_token(k, v)) == Some((k, v)),
    decreases k.len(),
{
    let tok = tag_token(k, v);
    lemma_colon_pos(tok);
    let p = colon_pos(tok);
    assert(tok[k.len() as int] == ':');
    if p == -1 {
        assert(tok.contains(':')) by {
            assert(tok[k.len() as int] == ':');
        }
        assert(false);
    }
    assert(forall|j: int| 0 <= j < k.len() ==> tok[j] == k[j] && tok[j] != ':');
    assert(p == k.len()) by {
        if p < k.len() {
            assert(tok[p] == k[p]);
        }
    }
    assert(tok[p + 1] == v[0]);
    assert(tok.take(p) =~= k);
    assert(tok.skip(p + 1) =~= v);
}

/// The serialized tokens of the stored tags, in insertion order.
pub open spec fn tags_tokens(tags: Seq<(Seq<char>, Seq<char>)>) -> Seq<Seq<char>> {
    tags.map_values(|kv: (Seq<char>, Seq<char>)| tag_token(kv.0, kv.1))
}

/// A piece of a serialized line: absent, or one token.
pub open spec fn opt_tok(present: bool, tok: Seq<char>) -> Seq<Seq<char>> {
    if present {
        seq![tok]
    } else {
        Seq::empty()
    }
}

pub open spec fn x_part(t: TaskView) -> Seq<Seq<char>> {
    opt_tok(t.finished, seq!['x'])
}

pub open spec fn pri_part(t: TaskView) -> Seq<Seq<char>> {
    opt_tok(t.priority < 26, pri_token(t.priority))
}

pub open spec fn fin_part(t: TaskView) -> Seq<Seq<char>> {
    match t.finish_date {
        Some(d) => seq![date_token(d)],
        None => Seq::empty(),
    }
}

pub open spec fn create_part(t: TaskView) -> Seq<Seq<char>> {
    match t.create_date {
        Some(d) => seq![date_token(d)],
        None => Seq::empty(),
    }
}

pub open spec fn due_part(t: TaskView) -> Seq<Seq<char>> {
    match t.due_date {
        Some(d) => seq![tag_token(due_key(), date_token(d))],
        None => Seq::empty(),
    }
}

pub open spec fn thr_part(t: TaskView) -> Seq<Seq<char>> {
    match t.threshold_date {
        Some(d) => seq![tag_token(threshold_key(), date_token(d))],
        None => Seq::empty(),
    }
}

pub open spec fn note_part(t: TaskView, note_tag: Seq<char>) -> Seq<Seq<char>> {
    opt_tok(note_marker(t.note).len() > 0, tag_token(note_tag, note_marker(t.note)))
}

pub open spec fn rec_part(t: TaskView) -> Seq<Seq<char>> {
    match t.recurrence {
        Some(r) => seq![tag_token(rec_key(), rec_token(r))],
        None => Seq::empty(),
    }
}

pub open spec fn flag_part(t: TaskView) -> Seq<Seq<char>> {
    opt_tok(t.flagged, seq!['f', ':', '1'])
}

pub open spec fn hid_part(t: TaskView) -> Seq<Seq<char>> {
    opt_tok(t.hidden, seq!['h', ':', '1'])
}

/// The structured tokens before the subject: completion mark, priority,
/// completion date, creation date.
pub open spec fn prefix_toks(t: TaskView) -> Seq<Seq<char>> {
    x_part(t) + pri_part(t) + fin_part(t) + create_part(t)
}

/// The tag tokens after the subject: due and threshold tags, stored tags,
/// note, recurrence, `f:1`, `h:1`.
pub open spec fn trailer_toks(t: TaskView, note_tag: Seq<char>) -> Seq<Seq<char>> {
    due_part(t) + thr_part(t) + tags_tokens(t.tags) + note_part(t, note_tag) + rec_part(t)
        + flag_part(t) + hid_part(t)
}

/// The tokens of a task's line, in the fixed serialization order:
/// completion mark, priority, completion and creation dates, subject,
/// due and threshold tags, stored tags, note, recurrence, `f:1`, `h:1`.
pub open spec fn print_toks(t: TaskView, note_tag: Seq<char>) -> Seq<Seq<char>> {
    prefix_toks(t) + split_sep(t.subject, ' ') + trailer_toks(t, note_tag)
}

/// The serialized line of a task.
pub open spec fn print_line(t: TaskView, note_tag: Seq<char>) -> Seq<char> {
    join_sep(print_toks(t, note_tag), ' ')
}

impl TaskView {
    /// Every date field the task carries is a valid calendar day.
    pub open spec fn dates_valid(self) -> bool {
        &&& (match self.create_date {
            Some(d) => d.valid(),
            None => true,
        })
        &&& (match self.finish_date {
            Some(d) => d.valid(),
            None => true,
        })
        &&& (match self.due_date {
            Some(d) => d.valid(),
            None => true,
        })
        &&& (match self.threshold_date {
            Some(d) => d.valid(),
            None => true,
        })
    }
}

pub open spec fn tags_unique(tags: Seq<(Seq<char>, Seq<char>)>) -> bool {
    forall|i: int, j: int| 0 <= i < j < tags.len() ==> (#[trigger] tags[i]).0 != (#[trigger] tags[j]).0
}

/// A note in a serializable state: absent, or saved under a usable file
/// name.  An unsaved in-memory note must be written to its file first.
pub open spec fn wf_note(n: NoteView) -> bool {
    match n {
        NoteView::Empty => true,
        NoteView::Short(content) => false,
        NoteView::Long { filename, content } => good_value(filename),
    }
}

/// A note tag name the grammar can use.
pub open spec fn good_note_tag(nt: Seq<char>) -> bool {
    &&& nt.len() > 0
    &&& !nt.contains(' ')
    &&& !nt.contains('\n')
    &&& !nt.contains(':')
    &&& nt[0] != '('
    &&& nt != due_key()
    &&& nt != threshold_key()
    &&& nt != rec_key()
    &&& nt != flag_key()
    &&& nt != hidden_key()
}

/// A task whose serialized line parses back to the task itself: the
/// invariant every parsed task satisfies, and the precondition of the
/// round-trip law.
pub open spec fn wf_task(t: TaskView, note_tag: Seq<char>) -> bool {
    let st = split_sep(t.subject, ' ');
    &&& t.priority <= 26
    &&& t.dates_valid()
    &&& (t.finish_date is Some ==> t.create_date is Some)
    &&& t.subject == join_sep(st, ' ')
    &&& (forall|i: int| 0 <= i < st.len() ==> plain_token(#[trigger] st[i]))
    &&& (!t.finished && t.priority == 26 && t.create_date is None && st.len() > 0 ==> st[0]
        != seq!['x'])
    &&& (t.finish_date is None && st.len() > 0 ==> !date_shaped(st[0]))
    &&& (forall|i: int|
        0 <= i < t.tags.len() ==> good_key((#[trigger] t.tags[i]).0, note_tag) && good_value(
            t.tags[i].1,
        ))
    &&& tags_unique(t.tags)
    &&& wf_note(t.note)
}

fn push_chars(dst: &mut Vec<char>, src: &Vec<char>)
    ensures
        final(dst)@ == old(dst)@ + src@,
{
    let mut i: usize = 0;
    while i < src.len()
        invariant
            0 <= i <= src@.len(),
            dst@ == old(dst)@ + src@.take(i as int),
        decreases src@.len() - i,
    {
        dst.push(src[i]);
        proof {
            assert(old(dst)@ + src@.take(i as int + 1) =~= (old(dst)@ + src@.take(i as int)).push(
                src@[i as int],
            ));
        }
        i = i + 1;
    }
    proof {
        assert(src@.take(src@.len() as int) =~= src@);
        assert(old(dst)@ + src@.take(0) =~= old(dst)@);
    }
}

fn copy_chars(src: &Vec<char>) -> (r: Vec<char>)
    ensures
        r@ == src@,
{
    let mut out: Vec<char> = Vec::new();
    push_chars(&mut out, src);
    proof {
        assert(Seq::<char>::empty() + src@ =~= src@);
    }
    out
}

/// Builds the `key:value` token of a tag.
fn make_tag_token(k: &Vec<char>, v: &Vec<char>) -> (r: Vec<char>)
    ensures
        r@ == tag_token(k@, v@),
{
    let mut out: Vec<char> = copy_chars(k);
    out.push(':');
    push_chars(&mut out, v);
    proof {
        assert(out@ =~= tag_token(k@, v@));
    }
    out
}

/// Replaces the value of `k` in place, or appends the pair.
pub open spec fn upsert(tags: Seq<(Seq<char>, Seq<char>)>, k: Seq<char>, v: Seq<char>) -> Seq<
    (Seq<char>, Seq<char>),
>
    decreases tags.len(),
{
    if tags.len() == 0 {
        seq![(k, v)]
    } else if tags[0].0 == k {
        seq![(k, v)] + tags.drop_first()
    } else {
        seq![tags[0]] + upsert(tags.drop_first(), k, v)
    }
}

pub proof fn lemma_upsert_found(tags: Seq<(Seq<char>, Seq<char>)>, k: Seq<char>, v: Seq<char>, i: int)
    requires
        0 <= i < tags.len(),
        tags[i].0 == k,
        forall|j: int| 0 <= j < i ==> (#[trigger] tags[j]).0 != k,
    ensures
        upsert(tags, k, v) == tags.update(i, (k, v)),
    decreases i,
{
    if i == 0 {
        assert(seq![(k, v)] + tags.drop_first() =~= tags.update(0, (k, v)));
    } else {
        assert(tags.drop_first()[i - 1].0 == k);
        assert forall|j: int| 0 <= j < i - 1 implies (#[trigger] tags.drop_first()[j]).0 != k by {
            assert(tags.drop_first()[j] == tags[j + 1]);
        }
        lemma_upsert_found(tags.drop_first(), k, v, i - 1);
        assert(seq![tags[0]] + tags.drop_first().update(i - 1, (k, v)) =~= tags.update(i, (k, v)));
    }
}

pub proof fn lemma_upsert_missing(tags: Seq<(Seq<char>, Seq<char>)>, k: Seq<char>, v: Seq<char>)
    requires
        forall|j: int| 0 <= j < tags.len() ==> (#[trigger] tags[j]).0 != k,
    ensures
        upsert(tags, k, v) == tags.push((k, v)),
    decreases tags.len(),
{
    if tags.len() == 0 {
        assert(upsert(tags, k, v) =~= tags.push((k, v)));
    } else {
        assert forall|j: int|
            0 <= j < tags.drop_first().len() implies (#[trigger] tags.drop_first()[j]).0 != k by {
            assert(tags.drop_first()[j] == tags[j + 1]);
        }
        lemma_upsert_missing(tags.drop_first(), k, v);
        assert(seq![tags[0]] + tags.drop_first().push((k, v)) =~= tags.push((k, v)));
    }
}

/// The task every parse starts from.
pub open spec fn empty_task() -> TaskView {
    TaskView {
        id: 0,
        subject: Seq::empty(),
        priority: 26,
        create_date: None,
        finish_date: None,
        threshold_date: None,
        due_date: None,
        finished: false,
        flagged: false,
        hidden: false,
        tags: Seq::empty(),
        recurrence: None,
        note: NoteView::Empty,
    }
}

/// Appends one token of free text to the subject.
pub open spec fn add_subject_tok(acc: TaskView, tok: Seq<char>) -> TaskView {
    TaskView {
        subject: if acc.subject.len() == 0 {
            tok
        } else {
            acc.subject + seq![' '] + tok
        },
        ..acc
    }
}

/// Folds the tokens after the structured prefix into the task: tags are
/// dispatched on their key, everything else joins the subject.
pub open spec fn parse_body(
    toks: Seq<Seq<char>>,
    note_tag: Seq<char>,
    acc: TaskView,
) -> Result<TaskView, ParseError>
    decreases toks.len(),
{
    if toks.len() == 0 {
        Ok(acc)
    } else {
        let tok = toks[0];
        let rest = toks.drop_first();
        if tok.len() > 0 && tok[0] == '(' {
            Err(ParseError::Priority)
        } else {
            match tag_split(tok) {
                Some(kv) => {
                    if kv.0 == due_key() {
                        match token_date(kv.1) {
                            Some(d) => parse_body(
                                rest,
                                note_tag,
                                TaskView { due_date: Some(d), ..acc },
                            ),
                            None => Err(ParseError::Date),
                        }
                    } else if kv.0 == threshold_key() {
                        match token_date(kv.1) {
                            Some(d) => parse_body(
                                rest,
                                note_tag,
                                TaskView { threshold_date: Some(d), ..acc },
                            ),
                            None => Err(ParseError::Date),
                        }
                    } else if kv.0 == rec_key() {
                        match parse_rec(kv.1) {
                            Some(r) => parse_body(
                                rest,
                                note_tag,
                                TaskView { recurrence: Some(r), ..acc },
                            ),
                            None => parse_body(
                                rest,
                                note_tag,
                                TaskView { tags: upsert(acc.tags, kv.0, kv.1), ..acc },
                            ),
                        }
                    } else if kv.0 == note_tag {
                        parse_body(
                            rest,
                            note_tag,
                            TaskView {
                                note: NoteView::Long { filename: kv.1, content: Seq::empty() },
                                ..acc
                            },
                        )
                    } else if kv.0 == flag_key() {
                        parse_body(rest, note_tag, TaskView { flagged: true, ..acc })
                    } else if kv.0 == hidden_key() {
                        parse_body(rest, note_tag, TaskView { hidden: true, ..acc })
                    } else {
                        parse_body(
                            rest,
                            note_tag,
                            TaskView { tags: upsert(acc.tags, kv.0, kv.1), ..acc },
                        )
                    }
                },
                None => parse_body(rest, note_tag, add_subject_tok(acc, tok)),
            }
        }
    }
}

/// Reads up to two leading date tokens; with two, the first is the
/// completion date and the second the creation date, with one it is the
/// creation date.  A date-shaped token here must be a valid calendar day.
pub open spec fn parse_dates(
    toks: Seq<Seq<char>>,
    note_tag: Seq<char>,
    finished: bool,
    pri: u8,
) -> Result<TaskView, ParseError> {
    let start = TaskView { finished, priority: pri, ..empty_task() };
    if toks.len() > 0 && date_shaped(toks[0]) {
        match token_date(toks[0]) {
            None => Err(ParseError::Date),
            Some(d1) => {
                let rest = toks.drop_first();
                if rest.len() > 0 && date_shaped(rest[0]) {
                    match token_date(rest[0]) {
                        None => Err(ParseError::Date),
                        Some(d2) => parse_body(
                            rest.drop_first(),
                            note_tag,
                            TaskView { finish_date: Some(d1), create_date: Some(d2), ..start },
                        ),
                    }
                } else {
                    parse_body(rest, note_tag, TaskView { create_date: Some(d1), ..start })
                }
            },
        }
    } else {
        parse_body(toks, note_tag, start)
    }
}

/// Parses the tokens after the completion mark: priority, dates, body.
pub open spec fn parse_after_x(toks: Seq<Seq<char>>, note_tag: Seq<char>, finished: bool) -> Result<
    TaskView,
    ParseError,
> {
    if toks.len() > 0 && toks[0].len() > 0 && toks[0][0] == '(' {
        match pri_token_val(toks[0]) {
            Some(p) => parse_dates(toks.drop_first(), note_tag, finished, p),
            None => Err(ParseError::Priority),
        }
    } else {
        parse_dates(toks, note_tag, finished, 26)
    }
}

/// Parses the tokens of one line: completion mark, priority, dates, body.
pub open spec fn parse_toks(toks: Seq<Seq<char>>, note_tag: Seq<char>) -> Result<
    TaskView,
    ParseError,
> {
    let finished = toks.len() > 0 && toks[0] == seq!['x'];
    let r1 = if finished {
        toks.drop_first()
    } else {
        toks
    };
    parse_after_x(r1, note_tag, finished)
}

/// Parses one todo.txt line.
pub open spec fn parse_line(s: Seq<char>, note_tag: Seq<char>) -> Result<TaskView, ParseError> {
    if s.contains('\n') {
        Err(ParseError::Line)
    } else {
        parse_toks(split_sep(s, ' '), note_tag)
    }
}

/// Whether an executable parse result carries exactly the model's result.
pub open spec fn parse_result(r: Result<Task, ParseError>, m: Result<TaskView, ParseError>) -> bool {
    match r {
        Ok(t) => m is Ok && t@ == m.unwrap(),
        Err(e) => (match m {
            Ok(v) => false,
            Err(me) => e == me,
        }),
    }
}

pub(crate) fn chars_eq(a: &Vec<char>, b: &Vec<char>) -> (r: bool)
    ensures
        r == (a@ == b@),
{
    if a.len() != b.len() {
        return false;
    }
    let mut i: usize = 0;
    while i < a.len()
        invariant
            0 <= i <= a@.len(),
            a@.len() == b@.len(),
            forall|j: int| 0 <= j < i ==> a@[j] == b@[j],
        decreases a@.len() - i,
    {
        if a[i] != b[i] {
            return false;
        }
        i = i + 1;
    }
    proof {
        assert(a@ =~= b@);
    }
    true
}

pub(crate) fn sub_chars(v: &Vec<char>, a: usize, b: usize) -> (r: Vec<char>)
    requires
        a <= b <= v@.len(),
    ensures
        r@ == v@.subrange(a as int, b as int),
{
    let mut out: Vec<char> = Vec::new();
    let mut i: usize = a;
    while i < b
        invariant
            a <= i <= b <= v@.len(),
            out@ == v@.subrange(a as int, i as int),
        decreases b - i,
    {
        out.push(v[i]);
        proof {
            assert(v@.subrange(a as int, i as int).push(v@[i as int]) =~= v@.subrange(
                a as int,
                i as int + 1,
            ));
        }
        i = i + 1;
    }
    proof {
        assert(v@.subrange(a as int, a as int) =~= Seq::<char>::empty());
    }
    out
}

/// Splits a `key:value` token as `tag_split` does.
fn split_tag(tok: &Vec<char>) -> (r: Option<(Vec<char>, Vec<char>)>)
    ensures
        match r {
            Some(kv) => tag_split(tok@) == Some((kv.0@, kv.1@)),
            None => tag_split(tok@) is None,
        },
{
    proof {
        lemma_colon_pos(tok@);
    }
    let n = tok.len();
    let mut i: usize = 0;
    while i < n
        invariant
            0 <= i <= n,
            n == tok@.len(),
            forall|j: int| 0 <= j < i ==> tok@[j] != ':',
        decreases n - i,
    {
        if tok[i] == ':' {
            proof {
                assert(colon_pos(tok@) == i as int) by {
                    lemma_colon_pos(tok@);
                    if colon_pos(tok@) == -1 {
                        assert(tok@.contains(':')) by {
                            assert(tok@[i as int] == ':');
                        }
                    } else if colon_pos(tok@) < i as int {
                        assert(tok@[colon_pos(tok@)] == ':');
                    } else if colon_pos(tok@) > i as int {
                        assert(tok@[i as int] != ':');
                    }
                }
            }
            if 1 <= i && i < n - 1 && tok[i + 1] != '/' {
                let k = sub_chars(tok, 0, i);
                let v = sub_chars(tok, i + 1, n);
                proof {
                    assert(tok@.subrange(0, i as int) =~= tok@.take(i as int));
                    assert(tok@.subrange(i as int + 1, n as int) =~= tok@.skip(i as int + 1));
                }
                return Some((k, v));
            } else {
                return None;
            }
        }
        i = i + 1;
    }
    proof {
        assert(colon_pos(tok@) == -1) by {
            lemma_colon_pos(tok@);
            if colon_pos(tok@) >= 0 {
                assert(tok@[colon_pos(tok@)] == ':');
            }
        }
    }
    None
}

fn pri_token_val_x(t: &Vec<char>) -> (r: Option<u8>)
    ensures
        r == pri_token_val(t@),
{
    if t.len() == 3 && t[0] == '(' && t[2] == ')' {
        let v: u32 = t[1] as u32;
        if 65 <= v && v <= 90 {
            Some((v - 65) as u8)
        } else if 97 <= v && v <= 122 {
            Some((v - 97) as u8)
        } else {
            None
        }
    } else {
        None
    }
}

/// Replaces the value of `k` in place, or appends the pair.
fn upsert_x(tags: &mut Vec<(String, String)>, k: &Vec<char>, v: &Vec<char>)
    ensures
        tags_view(final(tags)@) == upsert(tags_view(old(tags)@), k@, v@),
{
    let n = tags.len();
    let mut i: usize = 0;
    while i < n
        invariant
            0 <= i <= n,
            n == tags@.len(),
            tags@ == old(tags)@,
            forall|j: int| 0 <= j < i ==> tags_view(tags@)[j].0 != k@,
        decreases n - i,
    {
        let key_chars = crate::text::str_chars(tags[i].0.as_str());
        if chars_eq(&key_chars, k) {
            let newk = crate::text::chars_string(k);
            let newv = crate::text::chars_string(v);
            tags.set(i, (newk, newv));
            proof {
                lemma_upsert_found(tags_view(old(tags)@), k@, v@, i as int);
                assert(tags_view(tags@) =~= tags_view(old(tags)@).update(i as int, (k@, v@)));
            }
            return ;
        }
        i = i + 1;
    }
    let newk = crate::text::chars_string(k);
    let newv = crate::text::chars_string(v);
    tags.push((newk, newv));
    proof {
        lemma_upsert_missing(tags_view(old(tags)@), k@, v@);
        assert(tags_view(tags@) =~= tags_view(old(tags)@).push((k@, v@)));
    }
}

/// Three-way comparison of optional dates; a missing date is smallest.
pub open spec fn cmp_opt_date(a: Option<Date>, b: Option<Date>) -> int {
    match (a, b) {
        (Option::None, Option::None) => 0,
        (Option::None, Option::Some(y)) => -1,
        (Option::Some(x), Option::None) => 1,
        (Option::Some(x), Option::Some(y)) => if x == y {
            0
        } else if x.lt_spec(y) {
            -1
        } else {
            1
        },
    }
}

/// Three-way lexicographic comparison of character sequences.
pub open spec fn cmp_chars_spec(a: Seq<char>, b: Seq<char>) -> int
    decreases a.len(),
{
    if a.len() == 0 && b.len() == 0 {
        0
    } else if a.len() == 0 {
        -1
    } else if b.len() == 0 {
        1
    } else if (a[0] as u32) < (b[0] as u32) {
        -1
    } else if (a[0] as u32) > (b[0] as u32) {
        1
    } else {
        cmp_chars_spec(a.drop_first(), b.drop_first())
    }
}

/// The display order: due date ascending with missing dates first, then
/// priority with the more urgent task greater (so that a display that
/// sorts ascending and reverses shows it first), then the subject.
pub open spec fn cmp_display(a: TaskView, b: TaskView) -> int {
    if cmp_opt_date(a.due_date, b.due_date) != 0 {
        cmp_opt_date(a.due_date, b.due_date)
    } else if a.priority != b.priority {
        if a.priority < b.priority {
            1
        } else {
            -1
        }
    } else {
        cmp_chars_spec(a.subject, b.subject)
    }
}

fn cmp_chars_x(a: &Vec<char>, b: &Vec<char>) -> (r: i8)
    ensures
        r as int == cmp_chars_spec(a@, b@),
{
    let mut i: usize = 0;
    proof {
        assert(a@.skip(0) =~= a@);
        assert(b@.skip(0) =~= b@);
    }
    while i < a.len() && i < b.len()
        invariant
            0 <= i <= a@.len(),
            0 <= i <= b@.len(),
            cmp_chars_spec(a@, b@) == cmp_chars_spec(a@.skip(i as int), b@.skip(i as int)),
        decreases a@.len() - i,
    {
        proof {
            assert(a@.skip(i as int)[0] == a@[i as int]);
            assert(b@.skip(i as int)[0] == b@[i as int]);
            assert(a@.skip(i as int).drop_first() =~= a@.skip(i as int + 1));
            assert(b@.skip(i as int).drop_first() =~= b@.skip(i as int + 1));
        }
        let ca = a[i] as u32;
        let cb = b[i] as u32;
        if ca < cb {
            return -1;
        }
        if ca > cb {
            return 1;
        }
        i = i + 1;
    }
    proof {
        assert(a@.skip(a@.len() as int) =~= Seq::<char>::empty());
        assert(b@.skip(b@.len() as int) =~= Seq::<char>::empty());
    }
    if a.len() == b.len() {
        0
    } else if a.len() < b.len() {
        proof {
            assert(a@.skip(i as int).len() == 0);
        }
        -1
    } else {
        proof {
            assert(b@.skip(i as int).len() == 0);
        }
        1
    }
}

impl Task {
    /// A fresh empty task.
    pub fn new() -> (r: Task)
        ensures
            r@ == empty_task(),
    {
        let t = Task {
            id: 0,
            subject: String::new(),
            priority: 26,
            create_date: None,
            finish_date: None,
            threshold_date: None,
            due_date: None,
            finished: false,
            flagged: false,
            hidden: false,
            tags: Vec::new(),
            recurrence: None,
            note: Note::Empty,
        };
        proof {
            assert(tags_view(Seq::<(String, String)>::empty())
                =~= Seq::<(Seq<char>, Seq<char>)>::empty());
            assert(t@ =~= empty_task());
        }
        t
    }

    /// Marks the task done as of `today`; the two fields move together.
    pub fn complete_at(&mut self, today: Date)
        ensures
            final(self)@ == (TaskView {
                finished: true,
                finish_date: Some(today),
                ..old(self)@
            }),
    {
        self.finished = true;
        self.finish_date = Some(today);
        proof {
            assert(self@ =~= (TaskView { finished: true, finish_date: Some(today), ..old(self)@ }));
        }
    }

    /// Marks the task done as of the current local day.
    pub fn complete(&mut self)
        ensures
            exists|d: Date|
                #[trigger] d.valid() && final(self)@ == (TaskView {
                    finished: true,
                    finish_date: Some(d),
                    ..old(self)@
                }),
    {
        let d = crate::date::today();
        self.complete_at(d);
    }

    /// Clears the completion mark and the completion date together.
    pub fn uncomplete(&mut self)
        ensures
            final(self)@ == (TaskView { finished: false, finish_date: None, ..old(self)@ }),
    {
        self.finished = false;
        self.finish_date = None;
        proof {
            assert(self@ =~= (TaskView { finished: false, finish_date: None, ..old(self)@ }));
        }
    }

    /// A copy whose every field carries the same value.
    pub fn duplicate(&self) -> (r: Task)
        ensures
            r@ == self@,
            r.id == self.id,
    {
        let mut tags: Vec<(String, String)> = Vec::new();
        let mut i: usize = 0;
        while i < self.tags.len()
            invariant
                0 <= i <= self.tags@.len(),
                tags@.len() == i,
                forall|j: int| 0 <= j < i ==> tags@[j] == self.tags@[j],
            decreases self.tags@.len() - i,
        {
            let k = self.tags[i].0.clone();
            let v = self.tags[i].1.clone();
            tags.push((k, v));
            i = i + 1;
        }
        proof {
            assert(tags@ =~= self.tags@);
        }
        let note = match &self.note {
            Note::Empty => Note::Empty,
            Note::Short(content) => Note::Short(content.clone()),
            Note::Long { filename, content } => Note::Long {
                filename: filename.clone(),
                content: content.clone(),
            },
        };
        proof {
            assert(note@ == self.note@);
        }
        let r = Task {
            id: self.id,
            subject: self.subject.clone(),
            priority: self.priority,
            create_date: self.create_date,
            finish_date: self.finish_date,
            threshold_date: self.threshold_date,
            due_date: self.due_date,
            finished: self.finished,
            flagged: self.flagged,
            hidden: self.hidden,
            tags,
            recurrence: self.recurrence,
            note,
        };
        proof {
            assert(r@ =~= self@);
        }
        r
    }

    /// The display order: -1 when `self` sorts before `other`, 0 on a tie,
    /// 1 when it sorts after.
    pub fn cmp(&self, other: &Task) -> (r: i8)
        ensures
            r as int == cmp_display(self@, other@),
    {
        let d = match (self.due_date, other.due_date) {
            (Option::None, Option::None) => 0,
            (Option::None, Option::Some(_)) => -1,
            (Option::Some(_), Option::None) => 1,
            (Option::Some(x), Option::Some(y)) => {
                if x.year == y.year && x.month == y.month && x.day == y.day {
                    0
                } else if x.lt(y) {
                    -1
                } else {
                    1
                }
            },
        };
        if d != 0 {
            return d;
        }
        if self.priority != other.priority {
            if self.priority < other.priority {
                return 1;
            } else {
                return -1;
            }
        }
        let a = crate::text::str_chars(self.subject.as_str());
        let b = crate::text::str_chars(other.subject.as_str());
        cmp_chars_x(&a, &b)
    }
}

impl Task {
    /// Builds the structured tokens before the subject.
    fn build_prefix(&self) -> (r: Vec<Vec<char>>)
        requires
            self@.dates_valid(),
        ensures
            crate::text::views(r@) == prefix_toks(self@),
    {
        let mut parts: Vec<Vec<char>> = Vec::new();
        let ghost mut g: Seq<Seq<char>> = Seq::empty();
        proof {
            assert(crate::text::views(parts@) =~= g);
        }
        if self.finished {
            parts.push(vec!['x']);
            proof {
                g = g.push(seq!['x']);
                assert(parts@.last()@ =~= seq!['x']);
                assert(crate::text::views(parts@) =~= g);
            }
        }
        if self.priority < 26 {
            let letter: char = (65 + self.priority) as char;
            parts.push(vec!['(', letter, ')']);
            proof {
                g = g.push(pri_token(self.priority));
                assert(parts@.last()@ =~= pri_token(self.priority));
                assert(crate::text::views(parts@) =~= g);
            }
        }
        if let Some(d) = self.finish_date {
            parts.push(crate::date::format_date(d));
            proof {
                g = g.push(date_token(d));
                assert(crate::text::views(parts@) =~= g);
            }
        }
        if let Some(d) = self.create_date {
            parts.push(crate::date::format_date(d));
            proof {
                g = g.push(date_token(d));
                assert(crate::text::views(parts@) =~= g);
            }
        }
        parts
    }

    /// Builds the tag tokens after the subject.
    #[verifier::rlimit(100)]
    fn build_trailer(&self, note_tag: &Vec<char>) -> (r: Vec<Vec<char>>)
        requires
            self@.dates_valid(),
        ensures
            crate::text::views(r@) == trailer_toks(self@, note_tag@),
    {
        let mut parts: Vec<Vec<char>> = Vec::new();
        let ghost mut g: Seq<Seq<char>> = Seq::empty();
        proof {
            assert(crate::text::views(parts@) =~= g);
        }
        if let Some(d) = self.due_date {
            let key: Vec<char> = vec!['d', 'u', 'e'];
            proof {
                assert(key@ =~= due_key());
            }
            let tok = make_tag_token(&key, &crate::date::format_date(d));
            parts.push(tok);
            proof {
                g = g.push(tag_token(due_key(), date_token(d)));
                assert(crate::text::views(parts@) =~= g);
            }
        }
        if let Some(d) = self.threshold_date {
            let key: Vec<char> = vec!['t'];
            proof {
                assert(key@ =~= threshold_key());
            }
            let tok = make_tag_token(&key, &crate::date::format_date(d));
            parts.push(tok);
            proof {
                g = g.push(tag_token(threshold_key(), date_token(d)));
                assert(crate::text::views(parts@) =~= g);
            }
        }
        let mut j: usize = 0;
        while j < self.tags.len()
            invariant
                0 <= j <= self.tags@.len(),
                self@.dates_valid(),
                crate::text::views(parts@) == g + tags_tokens(self@.tags).take(j as int),
            decreases self.tags@.len() - j,
        {
            let key = crate::text::str_chars(self.tags[j].0.as_str());
            let val = crate::text::str_chars(self.tags[j].1.as_str());
            let tok = make_tag_token(&key, &val);
            parts.push(tok);
            proof {
                assert(tags_tokens(self@.tags)[j as int] == tag_token(
                    self.tags@[j as int].0@,
                    self.tags@[j as int].1@,
                ));
                assert(crate::text::views(parts@) =~= (g + tags_tokens(self@.tags).take(
                    j as int,
                )).push(tags_tokens(self@.tags)[j as int]));
                assert((g + tags_tokens(self@.tags).take(j as int)).push(
                    tags_tokens(self@.tags)[j as int],
                ) =~= g + tags_tokens(self@.tags).take(j as int + 1));
            }
            j = j + 1;
        }
        proof {
            assert(g + tags_tokens(self@.tags).take(self@.tags.len() as int) =~= g + tags_tokens(
                self@.tags,
            ));
            g = g + tags_tokens(self@.tags);
        }
        let marker: Vec<char> = match &self.note {
            Note::Empty => Vec::new(),
            Note::Short(content) => crate::text::str_chars(content.as_str()),
            Note::Long { filename, content } => crate::text::str_chars(filename.as_str()),
        };
        proof {
            assert(marker@ == note_marker(self@.note));
        }
        if marker.len() > 0 {
            let tok = make_tag_token(note_tag, &marker);
            parts.push(tok);
            proof {
                g = g.push(tag_token(note_tag@, note_marker(self@.note)));
                assert(crate::text::views(parts@) =~= g);
            }
        }
        if let Some(r) = self.recurrence {
            let key: Vec<char> = vec!['r', 'e', 'c'];
            proof {
                assert(key@ =~= rec_key());
            }
            let tok = make_tag_token(&key, &r.to_chars());
            parts.push(tok);
            proof {
                g = g.push(tag_token(rec_key(), rec_token(r)));
                assert(crate::text::views(parts@) =~= g);
            }
        }
        if self.flagged {
            parts.push(vec!['f', ':', '1']);
            proof {
                g = g.push(seq!['f', ':', '1']);
                assert(parts@.last()@ =~= seq!['f', ':', '1']);
                assert(crate::text::views(parts@) =~= g);
            }
        }
        if self.hidden {
            parts.push(vec!['h', ':', '1']);
            proof {
                g = g.push(seq!['h', ':', '1']);
                assert(parts@.last()@ =~= seq!['h', ':', '1']);
                assert(crate::text::views(parts@) =~= g);
            }
        }
        parts
    }

    /// Parses one todo.txt line, the note tag named `note`.  No partial
    /// task escapes: on an error nothing is built.
    pub fn from_line(s: &str) -> (r: Result<Task, ParseError>)
        ensures
            parse_result(r, parse_line(s@, default_note_tag())),
    {
        let tag: Vec<char> = vec!['n', 'o', 't', 'e'];
        proof {
            assert(tag@ =~= default_note_tag());
        }
        Self::from_line_with(s, &tag)
    }

    /// Parses one todo.txt line, naming the note tag.
    #[verifier::rlimit(100)]
    pub fn from_line_with(s: &str, note_tag: &Vec<char>) -> (r: Result<Task, ParseError>)
        ensures
            parse_result(r, parse_line(s@, note_tag@)),
    {
        let ghost nt = note_tag@;
        let chars = crate::text::str_chars(s);
        let mut ci: usize = 0;
        while ci < chars.len()
            invariant
                0 <= ci <= chars@.len(),
                chars@ == s@,
                forall|j: int| 0 <= j < ci ==> s@[j] != '\n',
            decreases chars@.len() - ci,
        {
            if chars[ci] == '\n' {
                proof {
                    assert(s@.contains('\n')) by {
                        assert(s@[ci as int] == '\n');
                    }
                }
                return Err(ParseError::Line);
            }
            ci = ci + 1;
        }
        proof {
            if s@.contains('\n') {
                let j = choose|j: int| 0 <= j < s@.len() && s@[j] == '\n';
                assert(false);
            }
        }
        let toks = crate::text::split_chars(&chars, ' ');
        let ghost tv = crate::text::views(toks@);
        let ghost goal = parse_line(s@, nt);
        let n = toks.len();
        let mut i: usize = 0;
        let mut finished = false;
        if n > 0 && toks[0].len() == 1 && toks[0][0] == 'x' {
            proof {
                assert(tv[0] =~= seq!['x']);
            }
            finished = true;
            i = 1;
        } else {
            proof {
                if tv.len() > 0 && tv[0] == seq!['x'] {
                    assert(toks@[0]@.len() == 1 && toks@[0]@[0] == 'x');
                }
            }
        }
        proof {
            assert(tv.skip(i as int) =~= if finished {
                tv.drop_first()
            } else {
                tv
            });
        }
        let ghost r1 = tv.skip(i as int);
        let mut pri: u8 = 26;
        if i < n && toks[i].len() > 0 && {
            let c0 = toks[i][0];
            c0 == '('
        } {
            proof {
                assert(r1[0] == tv[i as int]);
            }
            match pri_token_val_x(&toks[i]) {
                Some(p) => {
                    pri = p;
                    i = i + 1;
                    proof {
                        assert(tv.skip(i as int) =~= r1.drop_first());
                    }
                },
                None => {
                    proof {
                        assert(goal == Err::<TaskView, ParseError>(ParseError::Priority));
                    }
                    return Err(ParseError::Priority);
                },
            }
        } else {
            proof {
                if r1.len() > 0 {
                    assert(r1[0] == tv[i as int]);
                }
            }
        }
        let ghost r2 = tv.skip(i as int);
        proof {
            assert(goal == parse_dates(r2, nt, finished, pri));
        }
        let mut d1: Option<Date> = None;
        let mut d2: Option<Date> = None;
        if i < n && crate::date::date_shaped_x(&toks[i]) {
            proof {
                assert(r2[0] == tv[i as int]);
            }
            match crate::date::token_date_x(&toks[i]) {
                None => {
                    return Err(ParseError::Date);
                },
                Some(d) => {
                    d1 = Some(d);
                    i = i + 1;
                    proof {
                        assert(tv.skip(i as int) =~= r2.drop_first());
                    }
                },
            }
            if i < n && crate::date::date_shaped_x(&toks[i]) {
                proof {
                    assert(tv.skip(i as int)[0] == tv[i as int]);
                }
                match crate::date::token_date_x(&toks[i]) {
                    None => {
                        return Err(ParseError::Date);
                    },
                    Some(d) => {
                        d2 = Some(d);
                        i = i + 1;
                        proof {
                            assert(tv.skip(i as int) =~= r2.drop_first().drop_first());
                        }
                    },
                }
            } else {
                proof {
                    if tv.skip(i as int).len() > 0 {
                        assert(tv.skip(i as int)[0] == tv[i as int]);
                    }
                }
            }
        } else {
            proof {
                if r2.len() > 0 {
                    assert(r2[0] == tv[i as int]);
                }
            }
        }
        let create: Option<Date> = if d2.is_some() {
            d2
        } else {
            d1
        };
        let fin: Option<Date> = if d2.is_some() {
            d1
        } else {
            None
        };
        let mut t = Task {
            id: 0,
            subject: String::new(),
            priority: pri,
            create_date: create,
            finish_date: fin,
            threshold_date: None,
            due_date: None,
            finished,
            flagged: false,
            hidden: false,
            tags: Vec::new(),
            recurrence: None,
            note: Note::Empty,
        };
        proof {
            assert(tags_view(Seq::<(String, String)>::empty()) =~= Seq::<(Seq<char>, Seq<char>)>::empty());
            assert(goal == parse_body(tv.skip(i as int), nt, t@));
        }
        let due_k: Vec<char> = vec!['d', 'u', 'e'];
        let thr_k: Vec<char> = vec!['t'];
        let rec_k: Vec<char> = vec!['r', 'e', 'c'];
        let flag_k: Vec<char> = vec!['f'];
        let hid_k: Vec<char> = vec!['h'];
        proof {
            assert(due_k@ =~= due_key());
            assert(thr_k@ =~= threshold_key());
            assert(rec_k@ =~= rec_key());
            assert(flag_k@ =~= flag_key());
            assert(hid_k@ =~= hidden_key());
        }
        while i < n
            invariant
                0 <= i <= n,
                n == toks@.len(),
                tv == crate::text::views(toks@),
                due_k@ == due_key(),
                thr_k@ == threshold_key(),
                rec_k@ == rec_key(),
                flag_k@ == flag_key(),
                hid_k@ == hidden_key(),
                nt == note_tag@,
                goal == parse_line(s@, nt),
                goal == parse_body(tv.skip(i as int), nt, t@),
            decreases n - i,
        {
            let ghost pre = tv.skip(i as int);
            let ghost acc_pre = t@;
            proof {
                assert(pre[0] == tv[i as int]);
                assert(pre.drop_first() =~= tv.skip(i as int + 1));
            }
            proof {
                assert(pre.len() > 0);
                assert(pre[0] == toks@[i as int]@);
            }
            let tok_len = toks[i].len();
            if tok_len > 0 && {
                let c0 = toks[i][0];
                c0 == '('
            } {
                proof {
                    assert(goal == Err::<TaskView, ParseError>(ParseError::Priority));
                }
                return Err(ParseError::Priority);
            }
            match split_tag(&toks[i]) {
                Some(kv) => {
                    let k = kv.0;
                    let v = kv.1;
                    if chars_eq(&k, &due_k) {
                        match crate::date::token_date_x(&v) {
                            None => {
                                proof {
                                    assert(goal == Err::<TaskView, ParseError>(ParseError::Date));
                                }
                                return Err(ParseError::Date);
                            },
                            Some(d) => {
                                t.due_date = Some(d);
                            },
                        }
                    } else if chars_eq(&k, &thr_k) {
                        match crate::date::token_date_x(&v) {
                            None => {
                                proof {
                                    assert(goal == Err::<TaskView, ParseError>(ParseError::Date));
                                }
                                return Err(ParseError::Date);
                            },
                            Some(d) => {
                                t.threshold_date = Some(d);
                            },
                        }
                    } else if chars_eq(&k, &rec_k) {
                        match Recurrence::from_chars(&v) {
                            Some(r) => {
                                t.recurrence = Some(r);
                            },
                            None => {
                                upsert_x(&mut t.tags, &k, &v);
                            },
                        }
                    } else if chars_eq(&k, note_tag) {
                        t.note = Note::Long {
                            filename: crate::text::chars_string(&v),
                            content: String::new(),
                        };
                    } else if chars_eq(&k, &flag_k) {
                        t.flagged = true;
                    } else if chars_eq(&k, &hid_k) {
                        t.hidden = true;
                    } else {
                        upsert_x(&mut t.tags, &k, &v);
                    }
                    proof {
                        assert(t@ =~= (match parse_body(pre, nt, acc_pre) {
                            _ => t@,
                        }));
                    }
                },
                None => {
                    if t.subject.as_str().is_empty() {
                        let piece = crate::text::chars_string(&toks[i]);
                        t.subject = piece;
                    } else {
                        proof {
                            reveal_strlit(" ");
                        }
                        t.subject.append(" ");
                        let piece = crate::text::chars_string(&toks[i]);
                        t.subject.append(piece.as_str());
                        proof {
                            assert(" "@ =~= seq![' ']);
                        }
                    }
                    proof {
                        assert(t@ =~= add_subject_tok(acc_pre, pre[0]));
                    }
                },
            }
            proof {
                assert(goal == parse_body(tv.skip(i as int + 1), nt, t@));
            }
            i = i + 1;
        }
        proof {
            assert(tv.skip(n as int) =~= Seq::<Seq<char>>::empty());
            assert(goal == Ok::<TaskView, ParseError>(t@));
        }
        Ok(t)
    }

    /// Serializes the task as one todo.txt line, the note tag named `note`.
    pub fn to_line(&self) -> (r: String)
        requires
            self@.dates_valid(),
        ensures
            r@ == print_line(self@, default_note_tag()),
    {
        let tag: Vec<char> = vec!['n', 'o', 't', 'e'];
        proof {
            assert(tag@ =~= default_note_tag());
        }
        self.to_line_with(&tag)
    }

    /// Serializes the task, naming the note tag.
    pub fn to_line_with(&self, note_tag: &Vec<char>) -> (r: String)
        requires
            self@.dates_valid(),
        ensures
            r@ == print_line(self@, note_tag@),
    {
        let mut parts = self.build_prefix();
        let ghost prefix = crate::text::views(parts@);
        let subject_chars = crate::text::str_chars(self.subject.as_str());
        let mut subject_toks = crate::text::split_chars(&subject_chars, ' ');
        let ghost st = split_sep(self.subject@, ' ');
        let mut i: usize = 0;
        while i < subject_toks.len()
            invariant
                0 <= i <= subject_toks@.len(),
                crate::text::views(subject_toks@) == st,
                crate::text::views(parts@) == prefix + st.take(i as int),
            decreases subject_toks@.len() - i,
        {
            let tok = copy_chars(&subject_toks[i]);
            parts.push(tok);
            proof {
                assert(crate::text::views(parts@) =~= (prefix + st.take(i as int)).push(
                    subject_toks@[i as int]@,
                ));
                assert((prefix + st.take(i as int)).push(st[i as int]) =~= prefix + st.take(
                    i as int + 1,
                ));
            }
            i = i + 1;
        }
        proof {
            assert(prefix + st.take(st.len() as int) =~= prefix + st);
            assert(prefix + st.take(0) =~= prefix);
        }
        let mut trailer = self.build_trailer(note_tag);
        let ghost trailer_g = crate::text::views(trailer@);
        let mut k: usize = 0;
        while k < trailer.len()
            invariant
                0 <= k <= trailer@.len(),
                crate::text::views(trailer@) == trailer_g,
                crate::text::views(parts@) == (prefix + st) + trailer_g.take(k as int),
            decreases trailer@.len() - k,
        {
            let tok = copy_chars(&trailer[k]);
            parts.push(tok);
            proof {
                assert(crate::text::views(parts@) =~= ((prefix + st) + trailer_g.take(
                    k as int,
                )).push(trailer@[k as int]@));
                assert(((prefix + st) + trailer_g.take(k as int)).push(trailer_g[k as int]) =~= (
                prefix + st) + trailer_g.take(k as int + 1));
            }
            k = k + 1;
        }
        proof {
            assert((prefix + st) + trailer_g.take(trailer_g.len() as int) =~= (prefix + st)
                + trailer_g);
            assert((prefix + st) + trailer_g.take(0) =~= prefix + st);
            assert((prefix + st) + trailer_g =~= print_toks(self@, note_tag@));
        }
        let joined = crate::text::join_chars(&parts, ' ');
        crate::text::chars_string(&joined)
    }
}

} // verus!
