//! The round-trip law of the line format.
//!
//! Serializing a well-formed task and parsing the result gives the task
//! back, up to the two things a line does not carry: the task's position
//! in its list, and the cached content of its note file.  Since every
//! parsed task is well formed in this sense, parsing, serializing and
//! parsing again equals parsing: nothing a parse accepts is lost by a
//! save.

use vstd::prelude::*;

use crate::date::{Date, date_shaped, date_token, token_date, is_digit_char, char_val};
use crate::recurrence::{Recurrence, parse_rec, rec_token, lemma_rec_token_inverse};
use crate::task::{
    TaskView, NoteView, ParseError, tag_token, tag_split, lemma_tag_token_split, due_key,
    threshold_key, rec_key, flag_key, hidden_key, default_note_tag, good_key, good_value,
    good_note_tag, plain_token, wf_task, note_marker, tags_tokens, tags_unique, upsert,
    lemma_upsert_missing, pri_token, pri_token_val, lemma_pri_token_inverse, x_part, pri_part,
    fin_part, create_part, due_part, thr_part, note_part, rec_part, flag_part, hid_part,
    prefix_toks, trailer_toks, print_toks, print_line, parse_line, parse_toks, parse_after_x,
    parse_dates,
    parse_body, add_subject_tok, empty_task,
};
use crate::text::{good_token, good_tokens, join_sep, split_sep, split_acc, lemma_split_of_join, lemma_join_push};

verus! {

/// A task as a parse hands it out: first in its list, note content not
/// yet loaded.
pub open spec fn canon(t: TaskView) -> TaskView {
    TaskView {
        id: 0,
        note: match t.note {
            NoteView::Long { filename, content } => NoteView::Long {
                filename,
                content: Seq::empty(),
            },
            other => other,
        },
        ..t
    }
}

/// A token any serialized line may hold: nonempty, no space, no line break.
pub open spec fn tok_ok(tok: Seq<char>) -> bool {
    good_token(tok, ' ') && !tok.contains('\n')
}

pub open spec fn toks_ok(ts: Seq<Seq<char>>) -> bool {
    forall|i: int| 0 <= i < ts.len() ==> tok_ok(#[trigger] ts[i])
}

/// A token the trailer may hold: it reads as neither a completion mark,
/// a priority, nor a date.
pub open spec fn trailer_tok(tok: Seq<char>) -> bool {
    &&& tok_ok(tok)
    &&& tok.len() >= 3
    &&& tok[0] != '('
    &&& tok.contains(':')
}

pub open spec fn trailer_ok(ts: Seq<Seq<char>>) -> bool {
    forall|i: int| 0 <= i < ts.len() ==> trailer_tok(#[trigger] ts[i])
}

pub proof fn lemma_shaped_no_colon(tok: Seq<char>)
    requires
        date_shaped(tok),
    ensures
        !tok.contains(':'),
{
    if tok.contains(':') {
        let i = choose|i: int| 0 <= i < tok.len() && tok[i] == ':';
        if i != 4 && i != 7 {
            assert(is_digit_char(tok[i]));
            assert(char_val(':') == 10);
        }
        assert(false);
    }
}

pub proof fn lemma_trailer_not_special(tok: Seq<char>)
    requires
        trailer_tok(tok),
    ensures
        tok != seq!['x'],
        !date_shaped(tok),
        tok.len() > 0,
{
    assert(seq!['x'].len() == 1);
    if date_shaped(tok) {
        lemma_shaped_no_colon(tok);
    }
}

pub proof fn lemma_trailer_concat(a: Seq<Seq<char>>, b: Seq<Seq<char>>)
    requires
        trailer_ok(a),
        trailer_ok(b),
    ensures
        trailer_ok(a + b),
{
    assert forall|i: int| 0 <= i < (a + b).len() implies trailer_tok(#[trigger] (a + b)[i]) by {
        if i < a.len() {
            assert((a + b)[i] == a[i]);
        } else {
            assert((a + b)[i] == b[i - a.len()]);
        }
    }
}

pub proof fn lemma_toks_ok_concat(a: Seq<Seq<char>>, b: Seq<Seq<char>>)
    requires
        toks_ok(a),
        toks_ok(b),
    ensures
        toks_ok(a + b),
{
    assert forall|i: int| 0 <= i < (a + b).len() implies tok_ok(#[trigger] (a + b)[i]) by {
        if i < a.len() {
            assert((a + b)[i] == a[i]);
        } else {
            assert((a + b)[i] == b[i - a.len()]);
        }
    }
}

/// A line joined from clean tokens holds no line break.
pub proof fn lemma_join_ok(ts: Seq<Seq<char>>)
    requires
        toks_ok(ts),
    ensures
        !join_sep(ts, ' ').contains('\n'),
    decreases ts.len(),
{
    if ts.len() == 0 {
    } else if ts.len() == 1 {
        assert(tok_ok(ts[0]));
    } else {
        assert(toks_ok(ts.drop_first())) by {
            assert(forall|i: int|
                0 <= i < ts.drop_first().len() ==> #[trigger] ts.drop_first()[i] == ts[i + 1]);
        }
        lemma_join_ok(ts.drop_first());
        let j = join_sep(ts, ' ');
        if j.contains('\n') {
            let i = choose|i: int| 0 <= i < j.len() && j[i] == '\n';
            assert(tok_ok(ts[0]));
            if i < ts[0].len() {
                assert(ts[0][i] == '\n');
                assert(ts[0].contains('\n'));
            } else if i == ts[0].len() {
                assert(j[i] == ' ');
            } else {
                let rest = join_sep(ts.drop_first(), ' ');
                assert(rest[i - ts[0].len() - 1] == '\n');
                assert(rest.contains('\n'));
            }
            assert(false);
        }
    }
}

/// A good key is none of the reserved ones, spelled out.
pub proof fn lemma_keys_distinct()
    ensures
        due_key() != threshold_key(),
        due_key() != rec_key(),
        due_key() != flag_key(),
        due_key() != hidden_key(),
        threshold_key() != rec_key(),
        threshold_key() != flag_key(),
        threshold_key() != hidden_key(),
        rec_key() != flag_key(),
        rec_key() != hidden_key(),
        flag_key() != hidden_key(),
        !due_key().contains(':'),
        !threshold_key().contains(':'),
        !rec_key().contains(':'),
        !flag_key().contains(':'),
        !hidden_key().contains(':'),
        due_key()[0] == 'd' && due_key().len() == 3,
        threshold_key()[0] == 't' && threshold_key().len() == 1,
        rec_key()[0] == 'r' && rec_key().len() == 3,
        flag_key()[0] == 'f' && flag_key().len() == 1,
        hidden_key()[0] == 'h' && hidden_key().len() == 1,
{
    assert(threshold_key() != flag_key()) by {
        assert(threshold_key()[0] == 't' && flag_key()[0] == 'f');
    }
    assert(threshold_key() != hidden_key()) by {
        assert(threshold_key()[0] == 't' && hidden_key()[0] == 'h');
    }
    assert(flag_key() != hidden_key()) by {
        assert(flag_key()[0] == 'f' && hidden_key()[0] == 'h');
    }
    assert(due_key() != rec_key()) by {
        assert(due_key()[0] == 'd' && rec_key()[0] == 'r');
    }
    assert(!due_key().contains(':')) by {
        if due_key().contains(':') {
            let i = choose|i: int| 0 <= i < due_key().len() && due_key()[i] == ':';
            assert(false);
        }
    }
    assert(!threshold_key().contains(':')) by {
        if threshold_key().contains(':') {
            let i = choose|i: int| 0 <= i < threshold_key().len() && threshold_key()[i] == ':';
            assert(false);
        }
    }
    assert(!rec_key().contains(':')) by {
        if rec_key().contains(':') {
            let i = choose|i: int| 0 <= i < rec_key().len() && rec_key()[i] == ':';
            assert(false);
        }
    }
    assert(!flag_key().contains(':')) by {
        if flag_key().contains(':') {
            let i = choose|i: int| 0 <= i < flag_key().len() && flag_key()[i] == ':';
            assert(false);
        }
    }
    assert(!hidden_key().contains(':')) by {
        if hidden_key().contains(':') {
            let i = choose|i: int| 0 <= i < hidden_key().len() && hidden_key()[i] == ':';
            assert(false);
        }
    }
}

/// A serialized tag token is a clean trailer token, splitting back into
/// its key and value.
pub proof fn lemma_tag_token_trailer(k: Seq<char>, v: Seq<char>)
    requires
        k.len() > 0,
        !k.contains(':'),
        !k.contains(' '),
        !k.contains('\n'),
        k[0] != '(',
        v.len() > 0,
        !v.contains(' '),
        !v.contains('\n'),
        v[0] != '/',
    ensures
        trailer_tok(tag_token(k, v)),
        tag_split(tag_token(k, v)) == Some((k, v)),
    decreases 0int,
{
    lemma_tag_token_split(k, v);
    let tok = tag_token(k, v);
    assert(tok[0] == k[0]);
    assert(tok[k.len() as int] == ':');
    assert(tok.contains(':')) by {
        assert(tok[k.len() as int] == ':');
    }
    assert forall|i: int| 0 <= i < tok.len() implies tok[i] != ' ' && tok[i] != '\n' by {
        if i < k.len() {
            assert(tok[i] == k[i]);
        } else if i == k.len() {
        } else {
            assert(tok[i] == v[i - k.len() - 1]);
        }
    }
}

/// The reserved keys are clean tokens.
pub proof fn lemma_keys_clean()
    ensures
        !due_key().contains(' ') && !due_key().contains('\n'),
        !threshold_key().contains(' ') && !threshold_key().contains('\n'),
        !rec_key().contains(' ') && !rec_key().contains('\n'),
        !flag_key().contains(' ') && !flag_key().contains('\n'),
        !hidden_key().contains(' ') && !hidden_key().contains('\n'),
{
    assert forall|c: char| c == ' ' || c == '\n' implies !due_key().contains(c) && !threshold_key()
        .contains(c) && !rec_key().contains(c) && !flag_key().contains(c) && !hidden_key().contains(
        c,
    ) by {
        if due_key().contains(c) {
            let i = choose|i: int| 0 <= i < due_key().len() && due_key()[i] == c;
            assert(false);
        }
        if threshold_key().contains(c) {
            let i = choose|i: int| 0 <= i < threshold_key().len() && threshold_key()[i] == c;
            assert(false);
        }
        if rec_key().contains(c) {
            let i = choose|i: int| 0 <= i < rec_key().len() && rec_key()[i] == c;
            assert(false);
        }
        if flag_key().contains(c) {
            let i = choose|i: int| 0 <= i < flag_key().len() && flag_key()[i] == c;
            assert(false);
        }
        if hidden_key().contains(c) {
            let i = choose|i: int| 0 <= i < hidden_key().len() && hidden_key()[i] == c;
            assert(false);
        }
    }
}

/// Every token a well-formed task serializes into its trailer is a clean
/// tag-like token.
pub proof fn lemma_trailer_parts(t: TaskView, nt: Seq<char>)
    requires
        wf_task(t, nt),
        good_note_tag(nt),
    ensures
        trailer_ok(trailer_toks(t, nt)),
    decreases 0int,
{
    lemma_keys_distinct();
    lemma_keys_clean();
    if t.due_date is Some {
        crate::date::lemma_date_token_inverse(t.due_date.unwrap());
        lemma_tag_token_trailer(due_key(), date_token(t.due_date.unwrap()));
    }
    assert(trailer_ok(due_part(t)));
    if t.threshold_date is Some {
        crate::date::lemma_date_token_inverse(t.threshold_date.unwrap());
        lemma_tag_token_trailer(threshold_key(), date_token(t.threshold_date.unwrap()));
    }
    assert(trailer_ok(thr_part(t)));
    assert(trailer_ok(tags_tokens(t.tags))) by {
        assert forall|i: int|
            0 <= i < tags_tokens(t.tags).len() implies trailer_tok(
            #[trigger] tags_tokens(t.tags)[i],
        ) by {
            assert(good_key(t.tags[i].0, nt) && good_value(t.tags[i].1));
            lemma_tag_token_trailer(t.tags[i].0, t.tags[i].1);
        }
    }
    if note_marker(t.note).len() > 0 {
        lemma_tag_token_trailer(nt, note_marker(t.note));
    }
    assert(trailer_ok(note_part(t, nt)));
    if t.recurrence is Some {
        lemma_rec_token_inverse(t.recurrence.unwrap());
        lemma_tag_token_trailer(rec_key(), rec_token(t.recurrence.unwrap()));
    }
    assert(trailer_ok(rec_part(t)));
    assert(trailer_ok(flag_part(t))) by {
        lemma_tag_token_trailer(flag_key(), seq!['1']);
        assert(tag_token(flag_key(), seq!['1']) =~= seq!['f', ':', '1']);
    }
    assert(trailer_ok(hid_part(t))) by {
        lemma_tag_token_trailer(hidden_key(), seq!['1']);
        assert(tag_token(hidden_key(), seq!['1']) =~= seq!['h', ':', '1']);
    }
    lemma_trailer_concat(due_part(t), thr_part(t));
    lemma_trailer_concat(due_part(t) + thr_part(t), tags_tokens(t.tags));
    lemma_trailer_concat(due_part(t) + thr_part(t) + tags_tokens(t.tags), note_part(t, nt));
    lemma_trailer_concat(
        due_part(t) + thr_part(t) + tags_tokens(t.tags) + note_part(t, nt),
        rec_part(t),
    );
    lemma_trailer_concat(
        due_part(t) + thr_part(t) + tags_tokens(t.tags) + note_part(t, nt) + rec_part(t),
        flag_part(t),
    );
    lemma_trailer_concat(
        due_part(t) + thr_part(t) + tags_tokens(t.tags) + note_part(t, nt) + rec_part(t)
            + flag_part(t),
        hid_part(t),
    );
}

/// Every token of a well-formed task's line is clean.
pub proof fn lemma_print_toks_ok(t: TaskView, nt: Seq<char>)
    requires
        wf_task(t, nt),
        good_note_tag(nt),
    ensures
        toks_ok(print_toks(t, nt)),
{
    assert(toks_ok(x_part(t))) by {
        if t.finished {
            assert(x_part(t)[0] == seq!['x']);
            if seq!['x'].contains(' ') || seq!['x'].contains('\n') {
                let i = choose|i: int|
                    0 <= i < 1 && (seq!['x'][i] == ' ' || seq!['x'][i] == '\n');
                assert(false);
            }
        }
    }
    assert(toks_ok(pri_part(t))) by {
        if t.priority < 26 {
            lemma_pri_token_inverse(t.priority);
        }
    }
    assert(toks_ok(fin_part(t))) by {
        if t.finish_date is Some {
            crate::date::lemma_date_token_inverse(t.finish_date.unwrap());
        }
    }
    assert(toks_ok(create_part(t))) by {
        if t.create_date is Some {
            crate::date::lemma_date_token_inverse(t.create_date.unwrap());
        }
    }
    let st = split_sep(t.subject, ' ');
    assert(toks_ok(st)) by {
        assert(forall|i: int| 0 <= i < st.len() ==> plain_token(#[trigger] st[i]));
    }
    lemma_trailer_parts(t, nt);
    assert(toks_ok(trailer_toks(t, nt)));
    lemma_toks_ok_concat(x_part(t), pri_part(t));
    lemma_toks_ok_concat(x_part(t) + pri_part(t), fin_part(t));
    lemma_toks_ok_concat(x_part(t) + pri_part(t) + fin_part(t), create_part(t));
    lemma_toks_ok_concat(prefix_toks(t), st);
    lemma_toks_ok_concat(prefix_toks(t) + st, trailer_toks(t, nt));
}

/// Folding free-text tokens into the subject, one at a time.
pub open spec fn fold_subject(acc: TaskView, st: Seq<Seq<char>>) -> TaskView
    decreases st.len(),
{
    if st.len() == 0 {
        acc
    } else {
        fold_subject(add_subject_tok(acc, st[0]), st.drop_first())
    }
}

proof fn lemma_body_subject(st: Seq<Seq<char>>, rest: Seq<Seq<char>>, nt: Seq<char>, acc: TaskView)
    requires
        forall|i: int| 0 <= i < st.len() ==> plain_token(#[trigger] st[i]),
    ensures
        parse_body(st + rest, nt, acc) == parse_body(rest, nt, fold_subject(acc, st)),
    decreases st.len(),
{
    if st.len() == 0 {
        assert(st + rest =~= rest);
    } else {
        assert(plain_token(st[0]));
        assert((st + rest)[0] == st[0]);
        assert((st + rest).drop_first() =~= st.drop_first() + rest);
        assert(forall|i: int|
            0 <= i < st.drop_first().len() ==> plain_token(#[trigger] st.drop_first()[i]));
        lemma_body_subject(st.drop_first(), rest, nt, add_subject_tok(acc, st[0]));
    }
}

proof fn lemma_fold_subject(acc: TaskView, st: Seq<Seq<char>>)
    requires
        forall|i: int| 0 <= i < st.len() ==> (#[trigger] st[i]).len() > 0,
    ensures
        fold_subject(acc, st) == (TaskView {
            subject: if st.len() == 0 {
                acc.subject
            } else if acc.subject.len() == 0 {
                join_sep(st, ' ')
            } else {
                acc.subject + seq![' '] + join_sep(st, ' ')
            },
            ..acc
        }),
    decreases st.len(),
{
    if st.len() == 0 {
        assert(fold_subject(acc, st) =~= (TaskView { subject: acc.subject, ..acc }));
    } else {
        let acc1 = add_subject_tok(acc, st[0]);
        assert(forall|i: int|
            0 <= i < st.drop_first().len() ==> (#[trigger] st.drop_first()[i]).len() > 0);
        lemma_fold_subject(acc1, st.drop_first());
        if st.len() == 1 {
            assert(join_sep(st, ' ') == st[0]);
            assert(fold_subject(acc, st) =~= (TaskView {
                subject: if acc.subject.len() == 0 {
                    join_sep(st, ' ')
                } else {
                    acc.subject + seq![' '] + join_sep(st, ' ')
                },
                ..acc
            }));
        } else {
            assert(join_sep(st, ' ') == st[0] + seq![' '] + join_sep(st.drop_first(), ' '));
            assert(acc1.subject.len() > 0);
            if acc.subject.len() == 0 {
                assert(st[0] + seq![' '] + join_sep(st.drop_first(), ' ') =~= join_sep(st, ' '));
                assert(fold_subject(acc, st) =~= (TaskView { subject: join_sep(st, ' '), ..acc }));
            } else {
                assert((acc.subject + seq![' '] + st[0]) + seq![' '] + join_sep(
                    st.drop_first(),
                    ' ',
                ) =~= acc.subject + seq![' '] + (st[0] + seq![' '] + join_sep(
                    st.drop_first(),
                    ' ',
                )));
                assert(fold_subject(acc, st) =~= (TaskView {
                    subject: acc.subject + seq![' '] + join_sep(st, ' '),
                    ..acc
                }));
            }
        }
    }
}

proof fn lemma_body_tags(
    tags: Seq<(Seq<char>, Seq<char>)>,
    rest: Seq<Seq<char>>,
    nt: Seq<char>,
    acc: TaskView,
)
    requires
        good_note_tag(nt),
        forall|i: int|
            0 <= i < tags.len() ==> good_key((#[trigger] tags[i]).0, nt) && good_value(tags[i].1),
        tags_unique(acc.tags + tags),
    ensures
        parse_body(tags_tokens(tags) + rest, nt, acc) == parse_body(
            rest,
            nt,
            TaskView { tags: acc.tags + tags, ..acc },
        ),
    decreases tags.len(),
{
    lemma_keys_distinct();
    if tags.len() == 0 {
        assert(tags_tokens(tags) + rest =~= rest);
        assert(acc.tags + tags =~= acc.tags);
        assert((TaskView { tags: acc.tags + tags, ..acc }) =~= acc);
    } else {
        let k = tags[0].0;
        let v = tags[0].1;
        assert(good_key(k, nt) && good_value(v));
        lemma_tag_token_trailer(k, v);
        let tok = tag_token(k, v);
        assert(tags_tokens(tags)[0] == tok);
        assert((tags_tokens(tags) + rest)[0] == tok);
        assert(tok.len() > 0 && tok[0] != '(');
        assert((tags_tokens(tags) + rest).drop_first() =~= tags_tokens(tags.drop_first()) + rest);
        assert forall|j: int| 0 <= j < acc.tags.len() implies (#[trigger] acc.tags[j]).0 != k by {
            assert((acc.tags + tags)[j] == acc.tags[j]);
            assert((acc.tags + tags)[acc.tags.len() as int] == tags[0]);
        }
        lemma_upsert_missing(acc.tags, k, v);
        let acc1 = TaskView { tags: acc.tags.push((k, v)), ..acc };
        assert(forall|i: int|
            0 <= i < tags.drop_first().len() ==> good_key(
                (#[trigger] tags.drop_first()[i]).0,
                nt,
            ) && good_value(tags.drop_first()[i].1));
        assert(acc1.tags + tags.drop_first() =~= acc.tags + tags);
        lemma_body_tags(tags.drop_first(), rest, nt, acc1);
        assert((TaskView { tags: acc1.tags + tags.drop_first(), ..acc1 }) =~= (TaskView {
            tags: acc.tags + tags,
            ..acc
        }));
    }
}

/// A `due` tag at the head of the body sets the due date.
#[verifier::rlimit(60)]
proof fn lemma_head_due(d: Date, rest: Seq<Seq<char>>, nt: Seq<char>, acc: TaskView)
    requires
        d.valid(),
    ensures
        parse_body(seq![tag_token(due_key(), date_token(d))] + rest, nt, acc) == parse_body(
            rest,
            nt,
            TaskView { due_date: Some(d), ..acc },
        ),
{
    lemma_keys_distinct();
    lemma_keys_clean();
    crate::date::lemma_date_token_inverse(d);
    lemma_tag_token_trailer(due_key(), date_token(d));
    let tok = tag_token(due_key(), date_token(d));
    let toks = seq![tok] + rest;
    assert(toks[0] == tok);
    assert(toks.drop_first() =~= rest);
}

/// A `t` tag at the head of the body sets the threshold date.
#[verifier::rlimit(60)]
proof fn lemma_head_thr(d: Date, rest: Seq<Seq<char>>, nt: Seq<char>, acc: TaskView)
    requires
        d.valid(),
    ensures
        parse_body(seq![tag_token(threshold_key(), date_token(d))] + rest, nt, acc) == parse_body(
            rest,
            nt,
            TaskView { threshold_date: Some(d), ..acc },
        ),
{
    lemma_keys_distinct();
    lemma_keys_clean();
    crate::date::lemma_date_token_inverse(d);
    lemma_tag_token_trailer(threshold_key(), date_token(d));
    let tok = tag_token(threshold_key(), date_token(d));
    let toks = seq![tok] + rest;
    assert(toks[0] == tok);
    assert(toks.drop_first() =~= rest);
}

/// The note tag at the head of the body sets the note reference.
#[verifier::rlimit(60)]
proof fn lemma_head_note(filename: Seq<char>, rest: Seq<Seq<char>>, nt: Seq<char>, acc: TaskView)
    requires
        good_note_tag(nt),
        good_value(filename),
    ensures
        parse_body(seq![tag_token(nt, filename)] + rest, nt, acc) == parse_body(
            rest,
            nt,
            TaskView { note: NoteView::Long { filename, content: Seq::empty() }, ..acc },
        ),
{
    lemma_keys_distinct();
    lemma_keys_clean();
    lemma_tag_token_trailer(nt, filename);
    let tok = tag_token(nt, filename);
    let toks = seq![tok] + rest;
    assert(toks[0] == tok);
    assert(toks.drop_first() =~= rest);
}

/// A `rec` tag at the head of the body sets the recurrence.
#[verifier::rlimit(60)]
proof fn lemma_head_rec(r: Recurrence, rest: Seq<Seq<char>>, nt: Seq<char>, acc: TaskView)
    ensures
        parse_body(seq![tag_token(rec_key(), rec_token(r))] + rest, nt, acc) == parse_body(
            rest,
            nt,
            TaskView { recurrence: Some(r), ..acc },
        ),
{
    lemma_keys_distinct();
    lemma_keys_clean();
    lemma_rec_token_inverse(r);
    lemma_tag_token_trailer(rec_key(), rec_token(r));
    let tok = tag_token(rec_key(), rec_token(r));
    let toks = seq![tok] + rest;
    assert(toks[0] == tok);
    assert(toks.drop_first() =~= rest);
}

/// `f:1` at the head of the body flags the task.
#[verifier::rlimit(60)]
proof fn lemma_head_flag(rest: Seq<Seq<char>>, nt: Seq<char>, acc: TaskView)
    requires
        good_note_tag(nt),
    ensures
        parse_body(seq![seq!['f', ':', '1']] + rest, nt, acc) == parse_body(
            rest,
            nt,
            TaskView { flagged: true, ..acc },
        ),
{
    lemma_keys_distinct();
    lemma_keys_clean();
    lemma_tag_token_trailer(flag_key(), seq!['1']);
    assert(tag_token(flag_key(), seq!['1']) =~= seq!['f', ':', '1']);
    let tok = seq!['f', ':', '1'];
    let toks = seq![tok] + rest;
    assert(toks[0] == tok);
    assert(toks.drop_first() =~= rest);
}

/// `h:1` at the head of the body hides the task.
#[verifier::rlimit(60)]
proof fn lemma_head_hid(rest: Seq<Seq<char>>, nt: Seq<char>, acc: TaskView)
    requires
        good_note_tag(nt),
    ensures
        parse_body(seq![seq!['h', ':', '1']] + rest, nt, acc) == parse_body(
            rest,
            nt,
            TaskView { hidden: true, ..acc },
        ),
{
    lemma_keys_distinct();
    lemma_keys_clean();
    lemma_tag_token_trailer(hidden_key(), seq!['1']);
    assert(tag_token(hidden_key(), seq!['1']) =~= seq!['h', ':', '1']);
    let tok = seq!['h', ':', '1'];
    let toks = seq![tok] + rest;
    assert(toks[0] == tok);
    assert(toks.drop_first() =~= rest);
}

/// The back half of the trailer: note, recurrence, `f:1`, `h:1`.
#[verifier::rlimit(100)]
proof fn lemma_body_trailer_back(t: TaskView, nt: Seq<char>, acc3: TaskView)
    requires
        wf_task(t, nt),
        good_note_tag(nt),
        acc3.note == NoteView::Empty,
        acc3.recurrence is None,
        !acc3.flagged,
        !acc3.hidden,
    ensures
        parse_body(note_part(t, nt) + (rec_part(t) + (flag_part(t) + hid_part(t))), nt, acc3)
            == Ok::<TaskView, ParseError>(
            TaskView {
                note: canon(t).note,
                recurrence: t.recurrence,
                flagged: t.flagged,
                hidden: t.hidden,
                ..acc3
            },
        ),
    decreases 0int,
{
    let r6 = hid_part(t);
    let r5 = flag_part(t) + r6;
    let r4 = rec_part(t) + r5;
    let r3 = note_part(t, nt) + r4;
    let acc4 = TaskView { note: canon(t).note, ..acc3 };
    assert(parse_body(r3, nt, acc3) == parse_body(r4, nt, acc4)) by {
        match t.note {
            NoteView::Empty => {
                assert(note_marker(t.note).len() == 0);
                assert(r3 =~= r4);
                assert(acc4 =~= acc3);
            },
            NoteView::Short(content) => {
                assert(false);
            },
            NoteView::Long { filename, content } => {
                assert(note_marker(t.note) == filename);
                assert(note_part(t, nt) =~= seq![tag_token(nt, filename)]);
                lemma_head_note(filename, r4, nt, acc3);
                assert(acc4 =~= (TaskView {
                    note: NoteView::Long { filename, content: Seq::empty() },
                    ..acc3
                }));
            },
        }
    }
    let acc5 = TaskView { recurrence: t.recurrence, ..acc4 };
    assert(parse_body(r4, nt, acc4) == parse_body(r5, nt, acc5)) by {
        match t.recurrence {
            Some(r) => {
                lemma_head_rec(r, r5, nt, acc4);
                assert(acc5 =~= (TaskView { recurrence: Some(r), ..acc4 }));
            },
            None => {
                assert(r4 =~= r5);
                assert(acc5 =~= acc4);
            },
        }
    }
    let acc6 = TaskView { flagged: t.flagged, ..acc5 };
    assert(parse_body(r5, nt, acc5) == parse_body(r6, nt, acc6)) by {
        if t.flagged {
            lemma_head_flag(r6, nt, acc5);
            assert(acc6 =~= (TaskView { flagged: true, ..acc5 }));
        } else {
            assert(r5 =~= r6);
            assert(acc6 =~= acc5);
        }
    }
    let acc7 = TaskView { hidden: t.hidden, ..acc6 };
    assert(parse_body(r6, nt, acc6) == Ok::<TaskView, ParseError>(acc7)) by {
        if t.hidden {
            lemma_head_hid(Seq::empty(), nt, acc6);
            assert(seq![seq!['h', ':', '1']] + Seq::<Seq<char>>::empty() =~= r6);
            assert(acc7 =~= (TaskView { hidden: true, ..acc6 }));
            assert(parse_body(Seq::empty(), nt, acc7) == Ok::<TaskView, ParseError>(acc7));
        } else {
            assert(r6 =~= Seq::<Seq<char>>::empty());
            assert(acc7 =~= acc6);
        }
    }
    assert(acc7 =~= (TaskView {
        note: canon(t).note,
        recurrence: t.recurrence,
        flagged: t.flagged,
        hidden: t.hidden,
        ..acc3
    }));
}

/// Parsing the trailer of a well-formed task fills in exactly its tag
/// fields.
#[verifier::rlimit(100)]
proof fn lemma_body_trailer(t: TaskView, nt: Seq<char>, acc: TaskView)
    requires
        wf_task(t, nt),
        good_note_tag(nt),
        acc == (TaskView {
            subject: t.subject,
            priority: t.priority,
            create_date: t.create_date,
            finish_date: t.finish_date,
            finished: t.finished,
            ..empty_task()
        }),
    ensures
        parse_body(trailer_toks(t, nt), nt, acc) == Ok::<TaskView, ParseError>(canon(t)),
    decreases 0int,
{
    let back = note_part(t, nt) + (rec_part(t) + (flag_part(t) + hid_part(t)));
    let r2 = tags_tokens(t.tags) + back;
    let r1 = thr_part(t) + r2;
    let r0 = due_part(t) + r1;
    assert(trailer_toks(t, nt) =~= r0);
    let acc1 = TaskView { due_date: t.due_date, ..acc };
    assert(parse_body(r0, nt, acc) == parse_body(r1, nt, acc1)) by {
        match t.due_date {
            Some(d) => {
                lemma_head_due(d, r1, nt, acc);
                assert(acc1 =~= (TaskView { due_date: Some(d), ..acc }));
            },
            None => {
                assert(r0 =~= r1);
                assert(acc1 =~= acc);
            },
        }
    }
    let acc2 = TaskView { threshold_date: t.threshold_date, ..acc1 };
    assert(parse_body(r1, nt, acc1) == parse_body(r2, nt, acc2)) by {
        match t.threshold_date {
            Some(d) => {
                lemma_head_thr(d, r2, nt, acc1);
                assert(acc2 =~= (TaskView { threshold_date: Some(d), ..acc1 }));
            },
            None => {
                assert(r1 =~= r2);
                assert(acc2 =~= acc1);
            },
        }
    }
    let acc3 = TaskView { tags: t.tags, ..acc2 };
    assert(parse_body(r2, nt, acc2) == parse_body(back, nt, acc3)) by {
        assert(acc2.tags + t.tags =~= t.tags);
        lemma_body_tags(t.tags, back, nt, acc2);
        assert((TaskView { tags: acc2.tags + t.tags, ..acc2 }) =~= acc3);
    }
    lemma_body_trailer_back(t, nt, acc3);
    assert((TaskView {
        note: canon(t).note,
        recurrence: t.recurrence,
        flagged: t.flagged,
        hidden: t.hidden,
        ..acc3
    }) =~= canon(t));
}

/// The first body token of a well-formed task cannot be mistaken for a
/// completion mark, a priority, or (while a date slot is open) a date.
proof fn lemma_body_first(t: TaskView, nt: Seq<char>)
    requires
        wf_task(t, nt),
        good_note_tag(nt),
    ensures
        ({
            let b = split_sep(t.subject, ' ') + trailer_toks(t, nt);
            &&& (b.len() > 0 ==> b[0].len() > 0 && b[0][0] != '(')
            &&& (t.finish_date is None && b.len() > 0 ==> !date_shaped(b[0]))
            &&& (!t.finished && t.priority == 26 && t.create_date is None && b.len() > 0 ==> b[0]
                != seq!['x'])
        }),
{
    let st = split_sep(t.subject, ' ');
    let tr = trailer_toks(t, nt);
    let b = st + tr;
    lemma_trailer_parts(t, nt);
    if b.len() > 0 {
        if st.len() > 0 {
            assert(b[0] == st[0]);
            assert(plain_token(st[0]));
            if date_shaped(st[0]) && t.finish_date is None {
            }
        } else {
            assert(b[0] == tr[0]);
            assert(trailer_tok(tr[0]));
            lemma_trailer_not_special(tr[0]);
        }
    }
}

/// Parsing the date slots of a well-formed task's line recovers its
/// completion and creation dates.
#[verifier::rlimit(100)]
proof fn lemma_prefix_dates(t: TaskView, nt: Seq<char>)
    requires
        wf_task(t, nt),
        good_note_tag(nt),
    ensures
        ({
            let b = split_sep(t.subject, ' ') + trailer_toks(t, nt);
            parse_dates(fin_part(t) + (create_part(t) + b), nt, t.finished, t.priority)
                == parse_body(
                b,
                nt,
                TaskView {
                    finished: t.finished,
                    priority: t.priority,
                    create_date: t.create_date,
                    finish_date: t.finish_date,
                    ..empty_task()
                },
            )
        }),
    decreases 0int,
{
    let b = split_sep(t.subject, ' ') + trailer_toks(t, nt);
    lemma_body_first(t, nt);
    if t.finish_date is Some {
        crate::date::lemma_date_token_inverse(t.finish_date.unwrap());
    }
    if t.create_date is Some {
        crate::date::lemma_date_token_inverse(t.create_date.unwrap());
    }
    let a3 = create_part(t) + b;
    let a2 = fin_part(t) + a3;
    let start = TaskView {
        finished: t.finished,
        priority: t.priority,
        create_date: t.create_date,
        finish_date: t.finish_date,
        ..empty_task()
    };
    match t.finish_date {
        Some(fd) => {
            let cd = t.create_date.unwrap();
            assert(a2[0] == date_token(fd));
            assert(a2.drop_first() =~= a3);
            assert(a3[0] == date_token(cd));
            assert(a3.drop_first() =~= b);
            assert((TaskView {
                finish_date: Some(fd),
                create_date: Some(cd),
                ..TaskView { finished: t.finished, priority: t.priority, ..empty_task() }
            }) =~= start);
        },
        None => {
            assert(a2 =~= a3);
            match t.create_date {
                Some(cd) => {
                    assert(a3[0] == date_token(cd));
                    assert(a3.drop_first() =~= b);
                    assert(b.len() > 0 ==> !date_shaped(b[0]));
                    assert((TaskView {
                        create_date: Some(cd),
                        ..TaskView { finished: t.finished, priority: t.priority, ..empty_task() }
                    }) =~= start);
                },
                None => {
                    assert(a3 =~= b);
                    assert(b.len() > 0 ==> !date_shaped(b[0]));
                    assert((TaskView {
                        finished: t.finished,
                        priority: t.priority,
                        ..empty_task()
                    }) =~= start);
                },
            }
        },
    }
}

/// After the completion mark, the next token is never `x`.
#[verifier::rlimit(60)]
proof fn lemma_after_x_not_x(t: TaskView, nt: Seq<char>)
    requires
        wf_task(t, nt),
        good_note_tag(nt),
        !t.finished,
    ensures
        ({
            let b = split_sep(t.subject, ' ') + trailer_toks(t, nt);
            let a1 = pri_part(t) + (fin_part(t) + (create_part(t) + b));
            a1.len() > 0 ==> a1[0] != seq!['x']
        }),
{
    let b = split_sep(t.subject, ' ') + trailer_toks(t, nt);
    let a1 = pri_part(t) + (fin_part(t) + (create_part(t) + b));
    lemma_body_first(t, nt);
    if a1.len() > 0 {
        if t.priority < 26 {
            lemma_pri_token_inverse(t.priority);
            assert(a1[0] == pri_token(t.priority));
            assert(pri_token(t.priority).len() == 3);
        } else if t.finish_date is Some {
            crate::date::lemma_date_token_inverse(t.finish_date.unwrap());
            assert(a1[0] == date_token(t.finish_date.unwrap()));
        } else if t.create_date is Some {
            crate::date::lemma_date_token_inverse(t.create_date.unwrap());
            assert(a1[0] == date_token(t.create_date.unwrap()));
        } else {
            assert(a1[0] == b[0]);
            assert(b[0] != seq!['x']);
        }
    }
}

/// After the priority slot, the next token never begins with `(`.
#[verifier::rlimit(60)]
proof fn lemma_after_pri_not_pri(t: TaskView, nt: Seq<char>)
    requires
        wf_task(t, nt),
        good_note_tag(nt),
    ensures
        ({
            let b = split_sep(t.subject, ' ') + trailer_toks(t, nt);
            let a2 = fin_part(t) + (create_part(t) + b);
            a2.len() > 0 ==> a2[0].len() > 0 && a2[0][0] != '('
        }),
{
    let b = split_sep(t.subject, ' ') + trailer_toks(t, nt);
    let a2 = fin_part(t) + (create_part(t) + b);
    lemma_body_first(t, nt);
    if a2.len() > 0 {
        if t.finish_date is Some {
            crate::date::lemma_date_token_inverse(t.finish_date.unwrap());
            assert(a2[0] == date_token(t.finish_date.unwrap()));
        } else if t.create_date is Some {
            crate::date::lemma_date_token_inverse(t.create_date.unwrap());
            assert(a2[0] == date_token(t.create_date.unwrap()));
        } else {
            assert(a2[0] == b[0]);
        }
    }
}

/// The completion-mark stage of the prefix walk.
#[verifier::rlimit(100)]
proof fn lemma_x_step(t: TaskView, nt: Seq<char>)
    requires
        ({
            let b = split_sep(t.subject, ' ') + trailer_toks(t, nt);
            let a1 = pri_part(t) + (fin_part(t) + (create_part(t) + b));
            !t.finished ==> (a1.len() > 0 ==> a1[0] != seq!['x'])
        }),
    ensures
        ({
            let b = split_sep(t.subject, ' ') + trailer_toks(t, nt);
            let a1 = pri_part(t) + (fin_part(t) + (create_part(t) + b));
            parse_toks(print_toks(t, nt), nt) == parse_after_x(a1, nt, t.finished)
        }),
{
    let b = split_sep(t.subject, ' ') + trailer_toks(t, nt);
    let a1 = pri_part(t) + (fin_part(t) + (create_part(t) + b));
    let a0 = x_part(t) + a1;
    assert(print_toks(t, nt) =~= a0);
    assert((a0.len() > 0 && a0[0] == seq!['x']) == t.finished) by {
        if t.finished {
            assert(a0[0] == seq!['x']);
        } else {
            assert(a0 =~= a1);
        }
    }
    if t.finished {
        assert(a0.drop_first() =~= a1);
    } else {
        assert(a0 =~= a1);
    }
}

/// The priority stage of the prefix walk.
#[verifier::rlimit(100)]
proof fn lemma_pri_step(t: TaskView, nt: Seq<char>)
    requires
        t.priority <= 26,
        ({
            let b = split_sep(t.subject, ' ') + trailer_toks(t, nt);
            let a2 = fin_part(t) + (create_part(t) + b);
            t.priority == 26 ==> (a2.len() > 0 ==> a2[0].len() > 0 && a2[0][0] != '(')
        }),
    ensures
        ({
            let b = split_sep(t.subject, ' ') + trailer_toks(t, nt);
            let a2 = fin_part(t) + (create_part(t) + b);
            let a1 = pri_part(t) + a2;
            parse_after_x(a1, nt, t.finished) == parse_dates(a2, nt, t.finished, t.priority)
        }),
{
    let b = split_sep(t.subject, ' ') + trailer_toks(t, nt);
    let a2 = fin_part(t) + (create_part(t) + b);
    let a1 = pri_part(t) + a2;
    if t.priority < 26 {
        lemma_pri_token_inverse(t.priority);
        assert(a1[0] == pri_token(t.priority));
        assert(a1.drop_first() =~= a2);
    } else {
        assert(a1 =~= a2);
    }
}

/// Parsing the structured prefix of a well-formed task's line recovers
/// its completion mark, priority and dates, and hands the body on.
proof fn lemma_prefix_walk(t: TaskView, nt: Seq<char>)
    requires
        wf_task(t, nt),
        good_note_tag(nt),
    ensures
        parse_toks(print_toks(t, nt), nt) == parse_body(
            split_sep(t.subject, ' ') + trailer_toks(t, nt),
            nt,
            TaskView {
                finished: t.finished,
                priority: t.priority,
                create_date: t.create_date,
                finish_date: t.finish_date,
                ..empty_task()
            },
        ),
{
    if !t.finished {
        lemma_after_x_not_x(t, nt);
    }
    if t.priority == 26 {
        lemma_after_pri_not_pri(t, nt);
    }
    lemma_x_step(t, nt);
    lemma_pri_step(t, nt);
    lemma_prefix_dates(t, nt);
}

/// THE ROUND-TRIP LAW, print direction: serializing a well-formed task
/// and parsing the line gives the task back, except that the parsed copy
/// is first in its list and its note content is not yet loaded.
pub proof fn lemma_print_parse(t: TaskView, nt: Seq<char>)
    requires
        wf_task(t, nt),
        good_note_tag(nt),
    ensures
        parse_line(print_line(t, nt), nt) == Ok::<TaskView, ParseError>(canon(t)),
{
    let toks = print_toks(t, nt);
    let st = split_sep(t.subject, ' ');
    let tr = trailer_toks(t, nt);
    lemma_print_toks_ok(t, nt);
    lemma_join_ok(toks);
    lemma_split_of_join(toks, ' ');
    assert(parse_line(print_line(t, nt), nt) == parse_toks(toks, nt));
    lemma_prefix_walk(t, nt);
    let acc0 = TaskView {
        finished: t.finished,
        priority: t.priority,
        create_date: t.create_date,
        finish_date: t.finish_date,
        ..empty_task()
    };
    assert(forall|i: int| 0 <= i < st.len() ==> plain_token(#[trigger] st[i]));
    lemma_body_subject(st, tr, nt, acc0);
    assert(forall|i: int| 0 <= i < st.len() ==> (#[trigger] st[i]).len() > 0);
    lemma_fold_subject(acc0, st);
    let acc1 = fold_subject(acc0, st);
    assert(acc1 =~= (TaskView {
        subject: t.subject,
        priority: t.priority,
        create_date: t.create_date,
        finish_date: t.finish_date,
        finished: t.finished,
        ..empty_task()
    })) by {
        if st.len() == 0 {
            assert(t.subject == join_sep(st, ' '));
        }
    }
    lemma_body_trailer(t, nt, acc1);
}

/// What `canon` leaves unchanged: a task first in its list whose note
/// content is not loaded.
pub open spec fn canon_fixed(t: TaskView) -> bool {
    &&& t.id == 0
    &&& (match t.note {
        NoteView::Long { filename, content } => content.len() == 0,
        other => true,
    })
}

#[verifier::rlimit(100)]
proof fn lemma_body_canon(toks: Seq<Seq<char>>, nt: Seq<char>, acc: TaskView)
    requires
        canon_fixed(acc),
    ensures
        parse_body(toks, nt, acc) is Ok ==> canon_fixed(parse_body(toks, nt, acc).unwrap()),
    decreases toks.len(),
{
    if toks.len() == 0 {
    } else {
        let tok = toks[0];
        let rest = toks.drop_first();
        if tok.len() > 0 && tok[0] == '(' {
        } else {
            match tag_split(tok) {
                Some(kv) => {
                    if kv.0 == due_key() {
                        match token_date(kv.1) {
                            Some(d) => {
                                lemma_body_canon(rest, nt, TaskView { due_date: Some(d), ..acc });
                            },
                            None => {},
                        }
                    } else if kv.0 == threshold_key() {
                        match token_date(kv.1) {
                            Some(d) => {
                                lemma_body_canon(
                                    rest,
                                    nt,
                                    TaskView { threshold_date: Some(d), ..acc },
                                );
                            },
                            None => {},
                        }
                    } else if kv.0 == rec_key() {
                        match parse_rec(kv.1) {
                            Some(r) => {
                                lemma_body_canon(rest, nt, TaskView { recurrence: Some(r), ..acc });
                            },
                            None => {
                                lemma_body_canon(
                                    rest,
                                    nt,
                                    TaskView { tags: upsert(acc.tags, kv.0, kv.1), ..acc },
                                );
                            },
                        }
                    } else if kv.0 == nt {
                        lemma_body_canon(
                            rest,
                            nt,
                            TaskView {
                                note: NoteView::Long { filename: kv.1, content: Seq::empty() },
                                ..acc
                            },
                        );
                    } else if kv.0 == flag_key() {
                        lemma_body_canon(rest, nt, TaskView { flagged: true, ..acc });
                    } else if kv.0 == hidden_key() {
                        lemma_body_canon(rest, nt, TaskView { hidden: true, ..acc });
                    } else {
                        lemma_body_canon(
                            rest,
                            nt,
                            TaskView { tags: upsert(acc.tags, kv.0, kv.1), ..acc },
                        );
                    }
                },
                None => {
                    lemma_body_canon(rest, nt, add_subject_tok(acc, tok));
                },
            }
        }
    }
}

/// Whatever a parse accepts comes out first in its list with no note
/// content loaded.
proof fn lemma_parse_line_canon(s: Seq<char>, nt: Seq<char>)
    requires
        parse_line(s, nt) is Ok,
    ensures
        canon_fixed(parse_line(s, nt).unwrap()),
        canon(parse_line(s, nt).unwrap()) == parse_line(s, nt).unwrap(),
{
    let toks = split_sep(s, ' ');
    let finished = toks.len() > 0 && toks[0] == seq!['x'];
    let r1 = if finished {
        toks.drop_first()
    } else {
        toks
    };
    if r1.len() > 0 && r1[0].len() > 0 && r1[0][0] == '(' {
        match pri_token_val(r1[0]) {
            Some(p) => {
                lemma_dates_canon(r1.drop_first(), nt, finished, p);
            },
            None => {},
        }
    } else {
        lemma_dates_canon(r1, nt, finished, 26);
    }
    let t = parse_line(s, nt).unwrap();
    match t.note {
        NoteView::Long { filename, content } => {
            assert(content =~= Seq::<char>::empty());
        },
        other => {},
    }
    assert(canon(t) =~= t);
}

proof fn lemma_dates_canon(toks: Seq<Seq<char>>, nt: Seq<char>, finished: bool, pri: u8)
    ensures
        parse_dates(toks, nt, finished, pri) is Ok ==> canon_fixed(
            parse_dates(toks, nt, finished, pri).unwrap(),
        ),
{
    let start = TaskView { finished, priority: pri, ..empty_task() };
    if toks.len() > 0 && date_shaped(toks[0]) {
        match token_date(toks[0]) {
            None => {},
            Some(d1) => {
                let rest = toks.drop_first();
                if rest.len() > 0 && date_shaped(rest[0]) {
                    match token_date(rest[0]) {
                        None => {},
                        Some(d2) => {
                            lemma_body_canon(
                                rest.drop_first(),
                                nt,
                                TaskView { finish_date: Some(d1), create_date: Some(d2), ..start },
                            );
                        },
                    }
                } else {
                    lemma_body_canon(rest, nt, TaskView { create_date: Some(d1), ..start });
                }
            },
        }
    } else {
        lemma_body_canon(toks, nt, start);
    }
}

/// The default note tag name is usable.
pub proof fn lemma_default_note_tag_good()
    ensures
        good_note_tag(default_note_tag()),
{
    lemma_keys_distinct();
    let nt = default_note_tag();
    assert(!nt.contains(' ') && !nt.contains('\n') && !nt.contains(':')) by {
        assert forall|c: char| c == ' ' || c == '\n' || c == ':' implies !nt.contains(c) by {
            if nt.contains(c) {
                let i = choose|i: int| 0 <= i < nt.len() && nt[i] == c;
                assert(false);
            }
        }
    }
    assert(nt != due_key()) by {
        assert(nt[0] == 'n' && due_key()[0] == 'd');
    }
    assert(nt != rec_key()) by {
        assert(nt[0] == 'n' && rec_key()[0] == 'r');
    }
}

/// FILE SPLIT FIDELITY: rendering tasks one line each and loading the
/// text back gives exactly one line and one task per task, in order, each
/// equal to the written task up to its id and note content.  Applied to a
/// write plan, the open file reproduces the unfinished tasks and the done
/// file the finished ones.  Tasks must be well formed and render to a
/// nonempty line (a fully empty task renders to an empty line, which a
/// load skips).
#[verifier::rlimit(100)]
pub proof fn lemma_render_reload(ts: Seq<TaskView>, first_id: int)
    requires
        forall|i: int|
            0 <= i < ts.len() ==> wf_task(#[trigger] ts[i], default_note_tag()) && print_line(
                ts[i],
                default_note_tag(),
            ).len() > 0,
    ensures
        split_sep(crate::list::render_spec(ts), '\n') == Seq::new(
            ts.len(),
            |i: int| print_line(ts[i], default_note_tag()),
        ),
        crate::list::load_spec(split_sep(crate::list::render_spec(ts), '\n'), first_id)
            == Seq::new(ts.len(), |i: int| TaskView { id: first_id + i, ..canon(ts[i]) }),
    decreases ts.len(),
{
    lemma_default_note_tag_good();
    if ts.len() == 0 {
        assert(split_sep(Seq::<char>::empty(), '\n') =~= Seq::<Seq<char>>::empty());
        assert(Seq::new(0, |i: int| print_line(ts[i], default_note_tag()))
            =~= Seq::<Seq<char>>::empty());
        assert(Seq::new(0, |i: int| TaskView { id: first_id + i, ..canon(ts[i]) })
            =~= Seq::<TaskView>::empty());
    } else {
        let t0 = ts[0];
        let line = print_line(t0, default_note_tag());
        let rest = ts.drop_first();
        assert(wf_task(t0, default_note_tag()));
        lemma_print_toks_ok(t0, default_note_tag());
        lemma_join_ok(print_toks(t0, default_note_tag()));
        assert(!line.contains('\n'));
        assert(forall|i: int|
            0 <= i < rest.len() ==> wf_task(#[trigger] rest[i], default_note_tag()) && print_line(
                rest[i],
                default_note_tag(),
            ).len() > 0) by {
            assert(forall|i: int| 0 <= i < rest.len() ==> #[trigger] rest[i] == ts[i + 1]);
        }
        lemma_render_reload(rest, first_id + 1);
        let tail = seq!['\n'] + crate::list::render_spec(rest);
        crate::text::lemma_split_acc_prefix(line, tail, '\n', Seq::empty());
        assert(line + tail =~= crate::list::render_spec(ts));
        assert(Seq::<char>::empty() + line =~= line);
        assert(tail[0] == '\n');
        assert(tail.drop_first() =~= crate::list::render_spec(rest));
        assert(split_acc(tail, '\n', line) == seq![line] + split_sep(
            crate::list::render_spec(rest),
            '\n',
        ));
        assert(split_sep(crate::list::render_spec(ts), '\n') == seq![line] + split_sep(
            crate::list::render_spec(rest),
            '\n',
        ));
        lemma_print_parse(t0, default_note_tag());
        let lines = split_sep(crate::list::render_spec(ts), '\n');
        assert(lines[0] == line);
        assert(lines.drop_first() =~= split_sep(crate::list::render_spec(rest), '\n'));
        assert(split_sep(crate::list::render_spec(ts), '\n') =~= Seq::new(
            ts.len(),
            |i: int| print_line(ts[i], default_note_tag()),
        ));
        assert(crate::list::load_spec(lines, first_id) == seq![
            TaskView { id: first_id, ..canon(t0) },
        ] + crate::list::load_spec(lines.drop_first(), first_id + 1));
        assert(crate::list::load_spec(lines, first_id) =~= Seq::new(
            ts.len(),
            |i: int| TaskView { id: first_id + i, ..canon(ts[i]) },
        ));
    }
}

/// THE ROUND-TRIP LAW: a line the parser accepts loses nothing when the
/// task is serialized and parsed again — the second parse returns exactly
/// the first task.  The one restriction is that the first task must be
/// well formed; a line such as `a:1 x`, which stores a tag before a
/// subject that begins with the completion mark, serializes with the tag
/// behind the subject and is excluded by that requirement.
pub proof fn lemma_parse_print_parse(s: Seq<char>, nt: Seq<char>)
    requires
        good_note_tag(nt),
        parse_line(s, nt) is Ok,
        wf_task(parse_line(s, nt).unwrap(), nt),
    ensures
        parse_line(print_line(parse_line(s, nt).unwrap(), nt), nt) == parse_line(s, nt),
{
    let t = parse_line(s, nt).unwrap();
    lemma_print_parse(t, nt);
    lemma_parse_line_canon(s, nt);
}

} // verus!
