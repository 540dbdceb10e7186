//! Splitting and joining of character sequences.
//!
//! The todo.txt line format is token oriented: a line is its space-separated
//! tokens, and a file is its newline-separated lines, empty pieces being
//! skipped in both cases.  This module defines one splitting function and one
//! joining function over a separator character, proves them inverse on
//! sequences of nonempty separator-free pieces, and gives executable
//! counterparts working on character vectors.

use vstd::prelude::*;

verus! {

/// Relies on str::chars: iterating a string slice yields exactly its
/// characters in order.
#[verifier::external_body]
pub fn str_chars(s: &str) -> (r: Vec<char>)
    ensures
        r@ == s@,
{
    s.chars().collect()
}

/// Relies on String's FromIterator<char>: collecting characters builds the
/// string of exactly those characters in order.
#[verifier::external_body]
pub fn chars_string(v: &Vec<char>) -> (r: String)
    ensures
        r@ == v@,
{
    v.iter().collect()
}

/// A piece a splitter may emit: nonempty and free of the separator.
pub open spec fn good_token(t: Seq<char>, sep: char) -> bool {
    t.len() > 0 && !t.contains(sep)
}

pub open spec fn good_tokens(ts: Seq<Seq<char>>, sep: char) -> bool {
    forall|i: int| 0 <= i < ts.len() ==> good_token(#[trigger] ts[i], sep)
}

pub open spec fn split_acc(s: Seq<char>, sep: char, cur: Seq<char>) -> Seq<Seq<char>>
    decreases s.len(),
{
    if s.len() == 0 {
        if cur.len() == 0 {
            Seq::empty()
        } else {
            seq![cur]
        }
    } else if s[0] == sep {
        if cur.len() == 0 {
            split_acc(s.drop_first(), sep, Seq::empty())
        } else {
            seq![cur] + split_acc(s.drop_first(), sep, Seq::empty())
        }
    } else {
        split_acc(s.drop_first(), sep, cur.push(s[0]))
    }
}

/// The maximal nonempty separator-free pieces of `s`, in order.
pub open spec fn split_sep(s: Seq<char>, sep: char) -> Seq<Seq<char>> {
    split_acc(s, sep, Seq::empty())
}

/// The pieces of `ts` with a single separator between two neighbours.
pub open spec fn join_sep(ts: Seq<Seq<char>>, sep: char) -> Seq<char>
    decreases ts.len(),
{
    if ts.len() == 0 {
        Seq::empty()
    } else if ts.len() == 1 {
        ts[0]
    } else {
        ts[0] + seq![sep] + join_sep(ts.drop_first(), sep)
    }
}

/// Every piece a split emits is nonempty and separator-free.
pub proof fn lemma_split_acc_good(s: Seq<char>, sep: char, cur: Seq<char>)
    requires
        !cur.contains(sep),
    ensures
        good_tokens(split_acc(s, sep, cur), sep),
        split_acc(s, sep, cur).len() == 0 ==> cur.len() == 0,
    decreases s.len(),
{
    if s.len() == 0 {
    } else if s[0] == sep {
        lemma_split_acc_good(s.drop_first(), sep, Seq::empty());
        if cur.len() > 0 {
            let out = seq![cur] + split_acc(s.drop_first(), sep, Seq::empty());
            assert forall|i: int| 0 <= i < out.len() implies good_token(#[trigger] out[i], sep) by {
                if i > 0 {
                    assert(out[i] == split_acc(s.drop_first(), sep, Seq::empty())[i - 1]);
                }
            }
        }
    } else {
        assert forall|i: int| 0 <= i < cur.push(s[0]).len() implies #[trigger] cur.push(s[0])[i]
            != sep by {
            if i < cur.len() {
                assert(!cur.contains(sep));
            }
        }
        assert(!cur.push(s[0]).contains(sep));
        lemma_split_acc_good(s.drop_first(), sep, cur.push(s[0]));
    }
}

/// Splitting consumes a separator-free prefix into the accumulator.
pub proof fn lemma_split_acc_prefix(t: Seq<char>, rest: Seq<char>, sep: char, cur: Seq<char>)
    requires
        !t.contains(sep),
    ensures
        split_acc(t + rest, sep, cur) == split_acc(rest, sep, cur + t),
    decreases t.len(),
{
    if t.len() == 0 {
        assert(t + rest =~= rest);
        assert(cur + t =~= cur);
    } else {
        assert(t.contains(t[0]) || t[0] != sep) by {
            assert(t[0] == t[0] && 0 <= 0 < t.len());
        }
        assert((t + rest)[0] == t[0]);
        assert((t + rest).drop_first() =~= t.drop_first() + rest);
        assert(!t.drop_first().contains(sep)) by {
            if t.drop_first().contains(sep) {
                let i = choose|i: int| 0 <= i < t.drop_first().len() && t.drop_first()[i] == sep;
                assert(t[i + 1] == sep);
            }
        }
        lemma_split_acc_prefix(t.drop_first(), rest, sep, cur.push(t[0]));
        assert(cur.push(t[0]) + t.drop_first() =~= cur + t);
    }
}

/// Splitting is a left inverse of joining on good pieces.
pub proof fn lemma_split_of_join(ts: Seq<Seq<char>>, sep: char)
    requires
        good_tokens(ts, sep),
    ensures
        split_sep(join_sep(ts, sep), sep) == ts,
    decreases ts.len(),
{
    if ts.len() == 0 {
    } else if ts.len() == 1 {
        assert(good_token(ts[0], sep));
        lemma_split_acc_prefix(ts[0], Seq::empty(), sep, Seq::empty());
        assert(ts[0] + Seq::<char>::empty() =~= ts[0]);
        assert(Seq::<char>::empty() + ts[0] =~= ts[0]);
        assert(split_sep(join_sep(ts, sep), sep) =~= ts);
    } else {
        let rest = ts.drop_first();
        assert(good_tokens(rest, sep)) by {
            assert forall|i: int| 0 <= i < rest.len() implies good_token(#[trigger] rest[i], sep) by {
                assert(rest[i] == ts[i + 1]);
            }
        }
        lemma_split_of_join(rest, sep);
        assert(good_token(ts[0], sep));
        lemma_split_acc_prefix(ts[0], seq![sep] + join_sep(rest, sep), sep, Seq::empty());
        assert(ts[0] + (seq![sep] + join_sep(rest, sep)) =~= join_sep(ts, sep));
        assert(Seq::<char>::empty() + ts[0] =~= ts[0]);
        let tail = seq![sep] + join_sep(rest, sep);
        assert(tail[0] == sep);
        assert(tail.drop_first() =~= join_sep(rest, sep));
        assert(split_acc(tail, sep, ts[0]) == seq![ts[0]] + split_sep(join_sep(rest, sep), sep));
        assert(seq![ts[0]] + rest =~= ts);
    }
}

/// Joining one more piece onto the right.
pub proof fn lemma_join_push(ts: Seq<Seq<char>>, t: Seq<char>, sep: char)
    ensures
        join_sep(ts.push(t), sep) == if ts.len() == 0 {
            t
        } else {
            join_sep(ts, sep) + seq![sep] + t
        },
    decreases ts.len(),
{
    if ts.len() == 0 {
        assert(ts.push(t).len() == 1);
        assert(ts.push(t)[0] == t);
    } else if ts.len() == 1 {
        assert(ts.push(t)[0] == ts[0]);
        assert(ts.push(t).drop_first() =~= seq![t]);
        assert(join_sep(seq![t], sep) == t);
    } else {
        lemma_join_push(ts.drop_first(), t, sep);
        assert(ts.push(t).drop_first() =~= ts.drop_first().push(t));
        assert(ts.push(t)[0] == ts[0]);
        assert(ts[0] + seq![sep] + (join_sep(ts.drop_first(), sep) + seq![sep] + t) =~= (ts[0]
            + seq![sep] + join_sep(ts.drop_first(), sep)) + seq![sep] + t);
    }
}

/// The view of a vector of character vectors.
pub open spec fn views(ts: Seq<Vec<char>>) -> Seq<Seq<char>> {
    ts.map_values(|t: Vec<char>| t@)
}

pub fn split_chars(s: &Vec<char>, sep: char) -> (r: Vec<Vec<char>>)
    ensures
        views(r@) == split_sep(s@, sep),
{
    let ghost whole: Seq<char> = s@;
    let mut out: Vec<Vec<char>> = Vec::new();
    let mut cur: Vec<char> = Vec::new();
    let mut i: usize = 0;
    proof {
        assert(whole.skip(0) =~= whole);
        assert(views(out@) =~= Seq::<Seq<char>>::empty());
        assert(views(out@) + split_acc(whole, sep, cur@) =~= split_acc(whole, sep, cur@));
    }
    while i < s.len()
        invariant
            0 <= i <= s.len(),
            s@ == whole,
            split_sep(whole, sep) == views(out@) + split_acc(whole.skip(i as int), sep, cur@),
        decreases s.len() - i,
    {
        let ghost pre = whole.skip(i as int);
        let ghost post = whole.skip(i as int + 1);
        proof {
            assert(pre[0] == whole[i as int]);
            assert(pre.drop_first() =~= post);
        }
        let c = s[i];
        if c == sep {
            if cur.len() > 0 {
                let ghost prev_out = out@;
                let ghost prev_cur = cur@;
                out.push(cur);
                cur = Vec::new();
                proof {
                    assert(split_acc(pre, sep, prev_cur) == seq![prev_cur] + split_acc(
                        post,
                        sep,
                        Seq::empty(),
                    ));
                    assert(views(out@) =~= views(prev_out).push(prev_cur));
                    assert(views(prev_out) + (seq![prev_cur] + split_acc(post, sep, Seq::empty()))
                        =~= views(prev_out).push(prev_cur) + split_acc(post, sep, Seq::empty()));
                    assert(cur@ =~= Seq::<char>::empty());
                }
            } else {
                proof {
                    assert(cur@ =~= Seq::<char>::empty());
                    assert(split_acc(pre, sep, cur@) == split_acc(post, sep, Seq::empty()));
                }
            }
        } else {
            let ghost prev_cur = cur@;
            cur.push(c);
            proof {
                assert(cur@ =~= prev_cur.push(c));
                assert(split_acc(pre, sep, prev_cur) == split_acc(post, sep, prev_cur.push(pre[0])));
            }
        }
        i = i + 1;
    }
    proof {
        assert(whole.skip(i as int) =~= Seq::<char>::empty());
    }
    if cur.len() > 0 {
        let ghost prev_out = out@;
        let ghost prev_cur = cur@;
        out.push(cur);
        proof {
            assert(split_acc(Seq::<char>::empty(), sep, prev_cur) == seq![prev_cur]);
            assert(views(out@) =~= views(prev_out).push(prev_cur));
            assert(views(prev_out) + seq![prev_cur] =~= views(prev_out).push(prev_cur));
        }
    } else {
        proof {
            assert(cur@ =~= Seq::<char>::empty());
            assert(split_acc(Seq::<char>::empty(), sep, cur@) =~= Seq::<Seq<char>>::empty());
            assert(views(out@) + Seq::<Seq<char>>::empty() =~= views(out@));
        }
    }
    out
}

pub fn join_chars(ts: &Vec<Vec<char>>, sep: char) -> (r: Vec<char>)
    ensures
        r@ == join_sep(views(ts@), sep),
{
    let mut out: Vec<char> = Vec::new();
    let mut i: usize = 0;
    while i < ts.len()
        invariant
            0 <= i <= ts.len(),
            out@ == join_sep(views(ts@.take(i as int)), sep),
        decreases ts.len() - i,
    {
        if i > 0 {
            out.push(sep);
        }
        let part = &ts[i];
        let mut j: usize = 0;
        while j < part.len()
            invariant
                0 <= j <= part.len(),
                i < ts.len(),
                part == ts[i as int],
                out@ == if i == 0 {
                    part@.take(j as int)
                } else {
                    join_sep(views(ts@.take(i as int)), sep) + seq![sep] + part@.take(j as int)
                },
            decreases part.len() - j,
        {
            out.push(part[j]);
            assert(part@.take(j as int).push(part@[j as int]) =~= part@.take(j as int + 1));
            proof {
                if i > 0 {
                    assert((join_sep(views(ts@.take(i as int)), sep) + seq![sep] + part@.take(
                        j as int,
                    )).push(part@[j as int]) =~= join_sep(views(ts@.take(i as int)), sep)
                        + seq![sep] + part@.take(j as int + 1));
                }
            }
            j = j + 1;
        }
        proof {
            assert(part@.take(part@.len() as int) =~= part@);
            lemma_join_push(views(ts@.take(i as int)), ts@[i as int]@, sep);
            assert(views(ts@.take(i as int)).push(ts@[i as int]@) =~= views(
                ts@.take(i as int + 1),
            ));
            assert(views(ts@.take(i as int)).len() == i);
        }
        i = i + 1;
    }
    assert(ts@.take(ts@.len() as int) =~= ts@);
    out
}

} // verus!
