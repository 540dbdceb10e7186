//! The recurrence engine.
//!
//! A recurrence is a signed count of days, weeks, months or years, written
//! in a `rec:` tag as an optional `+` (strict anchoring), the count and a
//! one-letter unit, for example `rec:1m` or `rec:+2w`.  Applying a
//! recurrence shifts an anchor date: days and weeks by exact calendar-day
//! arithmetic, months and years by whole-month arithmetic with the
//! end-of-month policy of `crate::date::add_months_spec`.

use vstd::prelude::*;

use crate::date::{
    add_days_spec, add_months_spec, add_days, add_months, char_val, digit_char, digit_char_x,
    char_val_x, is_digit_char, Date,
};

verus! {

#[derive(Clone, Copy, Debug, PartialEq, Eq, Structural)]
pub enum Period {
    Day,
    Week,
    Month,
    Year,
}

/// A recurrence rule: `num` units, anchored on the old due date when
/// `strict`, on the completion day otherwise.
#[derive(Clone, Copy, Debug, PartialEq, Eq, Structural)]
pub struct Recurrence {
    pub num: i64,
    pub period: Period,
    pub strict: bool,
}

pub open spec fn period_char(p: Period) -> char {
    match p {
        Period::Day => 'd',
        Period::Week => 'w',
        Period::Month => 'm',
        Period::Year => 'y',
    }
}

pub open spec fn char_period(c: char) -> Option<Period> {
    if c == 'd' {
        Some(Period::Day)
    } else if c == 'w' {
        Some(Period::Week)
    } else if c == 'm' {
        Some(Period::Month)
    } else if c == 'y' {
        Some(Period::Year)
    } else {
        None
    }
}

/// The decimal digits of `n >= 0`, most significant first.
pub open spec fn nat_digits(n: int) -> Seq<char>
    decreases n,
{
    if n <= 9 {
        seq![digit_char(n)]
    } else {
        nat_digits(n / 10).push(digit_char(n % 10))
    }
}

/// The canonical decimal rendering of `n`, with a leading `-` when negative.
pub open spec fn num_token(n: int) -> Seq<char> {
    if n < 0 {
        seq!['-'] + nat_digits(-n)
    } else {
        nat_digits(n)
    }
}

pub open spec fn all_digits(t: Seq<char>) -> bool {
    forall|i: int| 0 <= i < t.len() ==> is_digit_char(#[trigger] t[i])
}

/// The value of a digit string, most significant first.
pub open spec fn digits_val(t: Seq<char>) -> int
    decreases t.len(),
{
    if t.len() == 0 {
        0
    } else {
        10 * digits_val(t.drop_last()) + char_val(t.last())
    }
}

/// The signed value a token denotes, when it is an optional `-` followed
/// by digits and the value fits in a 64-bit signed integer.
pub open spec fn parse_num(t: Seq<char>) -> Option<int> {
    if t.len() >= 2 && t[0] == '-' {
        let mag = t.drop_first();
        if all_digits(mag) && digits_val(mag) <= 0x8000_0000_0000_0000 {
            Some(-digits_val(mag))
        } else {
            None
        }
    } else if t.len() >= 1 && all_digits(t) && digits_val(t) <= 0x7fff_ffff_ffff_ffff {
        Some(digits_val(t))
    } else {
        None
    }
}

/// The canonical tag value of a recurrence, for example `+2w`.
pub open spec fn rec_token(r: Recurrence) -> Seq<char> {
    let body = num_token(r.num as int) + seq![period_char(r.period)];
    if r.strict {
        seq!['+'] + body
    } else {
        body
    }
}

/// The recurrence a tag value denotes: an optional `+`, a count and a unit.
pub open spec fn parse_rec(t: Seq<char>) -> Option<Recurrence> {
    let (strict, body) = if t.len() > 0 && t[0] == '+' {
        (true, t.drop_first())
    } else {
        (false, t)
    };
    if body.len() >= 2 {
        match char_period(body.last()) {
            Some(period) => match parse_num(body.drop_last()) {
                Some(n) => if -0x8000_0000_0000_0000 <= n <= 0x7fff_ffff_ffff_ffff {
                    Some(Recurrence { num: n as i64, period, strict })
                } else {
                    None
                },
                None => None,
            },
            None => None,
        }
    } else {
        None
    }
}

proof fn lemma_nat_digits_good(n: int)
    requires
        n >= 0,
    ensures
        nat_digits(n).len() >= 1,
        all_digits(nat_digits(n)),
        digits_val(nat_digits(n)) == n,
    decreases n,
{
    if n <= 9 {
        reveal_with_fuel(digits_val, 2);
        crate::date::lemma_char_val_digit(n);
        assert(nat_digits(n) =~= seq![digit_char(n)]);
        assert(nat_digits(n).drop_last() =~= Seq::<char>::empty());
    } else {
        vstd::arithmetic::div_mod::lemma_fundamental_div_mod(n, 10);
        vstd::arithmetic::div_mod::lemma_mod_bound(n, 10);
        assert(1 <= n / 10 < n);
        lemma_nat_digits_good(n / 10);
        crate::date::lemma_char_val_digit(n % 10);
        let t = nat_digits(n);
        assert(t == nat_digits(n / 10).push(digit_char(n % 10)));
        assert(t.drop_last() =~= nat_digits(n / 10));
        assert(t.last() == digit_char(n % 10));
        assert forall|i: int| 0 <= i < t.len() implies is_digit_char(#[trigger] t[i]) by {
            if i < t.len() - 1 {
                assert(t[i] == nat_digits(n / 10)[i]);
            }
        }
    }
}

/// Parsing a rendered number gives the number back.
pub proof fn lemma_num_token_inverse(n: int)
    requires
        -0x8000_0000_0000_0000 <= n <= 0x7fff_ffff_ffff_ffff,
    ensures
        parse_num(num_token(n)) == Some(n),
        num_token(n).len() >= 1,
        num_token(n)[0] != '+',
        all_digits(num_token(n)) || (num_token(n)[0] == '-' && all_digits(
            num_token(n).drop_first(),
        )),
{
    if n < 0 {
        lemma_nat_digits_good(-n);
        let t = num_token(n);
        assert(t[0] == '-');
        assert(t.drop_first() =~= nat_digits(-n));
        assert(is_digit_char(nat_digits(-n)[0]));
        assert(t.len() >= 2);
    } else {
        lemma_nat_digits_good(n);
        assert(is_digit_char(num_token(n)[0]));
    }
}

/// Parsing a rendered recurrence tag value gives the recurrence back.
pub proof fn lemma_rec_token_inverse(r: Recurrence)
    ensures
        parse_rec(rec_token(r)) == Some(r),
        rec_token(r).len() >= 2,
        !rec_token(r).contains(' '),
        !rec_token(r).contains(':'),
        !rec_token(r).contains('\n'),
        rec_token(r)[0] != '/',
    decreases 0int,
{
    lemma_num_token_inverse(r.num as int);
    let nt = num_token(r.num as int);
    let body = nt + seq![period_char(r.period)];
    let t = rec_token(r);
    assert(body.last() == period_char(r.period));
    assert(body.drop_last() =~= nt);
    assert(char_period(period_char(r.period)) == Some(r.period));
    if r.strict {
        assert(t[0] == '+');
        assert(t.drop_first() =~= body);
    } else {
        assert(t == body);
        assert(t[0] == nt[0]);
        assert(t[0] != '+');
    }
    assert forall|i: int| 0 <= i < t.len() implies t[i] != ' ' && t[i] != ':' && t[i] != '\n' by {
        let shift: int = if r.strict {
            1
        } else {
            0
        };
        if i == 0 && r.strict {
        } else if i == t.len() - 1 {
            assert(t[i] == period_char(r.period));
        } else {
            assert(t[i] == nt[i - shift]);
            if nt[0] == '-' && i - shift == 0 {
            } else if all_digits(nt) {
                assert(is_digit_char(nt[i - shift]));
            } else {
                assert(nt[i - shift] == nt.drop_first()[i - shift - 1]);
                assert(is_digit_char(nt[i - shift]));
            }
        }
    }
    assert(t[0] == '+' || t[0] == '-' || is_digit_char(t[0]));
}

pub fn period_char_x(p: Period) -> (r: char)
    ensures
        r == period_char(p),
{
    match p {
        Period::Day => 'd',
        Period::Week => 'w',
        Period::Month => 'm',
        Period::Year => 'y',
    }
}

pub fn char_period_x(c: char) -> (r: Option<Period>)
    ensures
        r == char_period(c),
{
    match c {
        'd' => Some(Period::Day),
        'w' => Some(Period::Week),
        'm' => Some(Period::Month),
        'y' => Some(Period::Year),
        _ => None,
    }
}

fn push_nat_digits(n: u64, out: &mut Vec<char>)
    ensures
        final(out)@ == old(out)@ + nat_digits(n as int),
    decreases n,
{
    if n <= 9 {
        out.push(digit_char_x(n as u8));
        assert(out@ =~= old(out)@ + nat_digits(n as int));
    } else {
        proof {
            vstd::arithmetic::div_mod::lemma_fundamental_div_mod(n as int, 10);
            vstd::arithmetic::div_mod::lemma_mod_bound(n as int, 10);
        }
        push_nat_digits(n / 10, out);
        out.push(digit_char_x((n % 10) as u8));
        assert(out@ =~= old(out)@ + nat_digits(n as int));
    }
}

/// Renders `n` in decimal, `-` first when negative.
pub fn format_num(n: i64, out: &mut Vec<char>)
    ensures
        final(out)@ == old(out)@ + num_token(n as int),
{
    if n < 0 {
        out.push('-');
        let mag: u64 = (-(n as i128)) as u64;
        push_nat_digits(mag, out);
        assert(out@ =~= old(out)@ + num_token(n as int));
    } else {
        push_nat_digits(n as u64, out);
    }
}

/// The value `digits_val` never shrinks as a digit string grows.
proof fn lemma_digits_val_monotone(t: Seq<char>, i: int)
    requires
        all_digits(t),
        0 <= i <= t.len(),
    ensures
        digits_val(t) >= digits_val(t.take(i)),
        digits_val(t) >= 0,
    decreases t.len() - i,
{
    if i == t.len() {
        assert(t.take(i) =~= t);
        lemma_digits_val_nonneg(t);
    } else {
        lemma_digits_val_monotone(t, i + 1);
        assert(t.take(i + 1).drop_last() =~= t.take(i));
        assert(all_digits(t.take(i + 1))) by {
            assert(forall|j: int| 0 <= j < i + 1 ==> #[trigger] t.take(i + 1)[j] == t[j]);
        }
        lemma_digits_val_nonneg(t.take(i));
        assert(digits_val(t.take(i + 1)) == 10 * digits_val(t.take(i)) + char_val(
            t.take(i + 1).last(),
        ));
        assert(char_val(t.take(i + 1).last()) >= 0);
    }
}

proof fn lemma_digits_val_nonneg(t: Seq<char>)
    requires
        all_digits(t),
    ensures
        digits_val(t) >= 0,
    decreases t.len(),
{
    if t.len() > 0 {
        assert(all_digits(t.drop_last())) by {
            assert(forall|j: int| 0 <= j < t.len() - 1 ==> #[trigger] t.drop_last()[j] == t[j]);
        }
        lemma_digits_val_nonneg(t.drop_last());
        assert(is_digit_char(t.last()));
    }
}

/// Reads an unsigned digit string, `None` past `bound`.
fn parse_digits(t: &Vec<char>, from: usize, bound: u64) -> (r: Option<u64>)
    requires
        from as int <= t@.len(),
    ensures
        match r {
            Some(v) => {
                &&& all_digits(t@.skip(from as int))
                &&& t@.len() > from as int
                &&& digits_val(t@.skip(from as int)) == v as int
                &&& v <= bound
            },
            None => !(t@.len() > from as int && all_digits(t@.skip(from as int)) && digits_val(
                t@.skip(from as int),
            ) <= bound as int),
        },
{
    let ghost whole = t@.skip(from as int);
    if t.len() == from {
        return None;
    }
    let mut acc: u64 = 0;
    let mut i: usize = from;
    while i < t.len()
        invariant
            from <= i <= t@.len(),
            t@.len() > from as int,
            whole == t@.skip(from as int),
            acc <= bound,
            all_digits(whole.take(i - from)),
            digits_val(whole.take(i - from)) == acc as int,
        decreases t@.len() - i,
    {
        let v = char_val_x(t[i]);
        if v >= 10 {
            proof {
                assert(whole[i - from] == t@[i as int]);
                assert(!all_digits(whole));
            }
            return None;
        }
        let wide: u128 = acc as u128 * 10 + v as u128;
        proof {
            assert(whole.take(i - from + 1).drop_last() =~= whole.take(i - from));
            assert(whole.take(i - from + 1).last() == t@[i as int]);
            assert(all_digits(whole.take(i - from + 1))) by {
                assert(forall|j: int|
                    0 <= j < i - from + 1 ==> #[trigger] whole.take(i - from + 1)[j] == whole.take(
                        i - from,
                    ).push(t@[i as int])[j]);
            }
        }
        if wide > bound as u128 {
            proof {
                if all_digits(whole) {
                    lemma_digits_val_monotone(whole, i - from + 1);
                    assert(digits_val(whole.take(i - from + 1)) == wide);
                    assert(digits_val(whole) > bound as int);
                }
            }
            return None;
        }
        acc = wide as u64;
        i = i + 1;
    }
    proof {
        assert(whole.take(i - from) =~= whole);
    }
    Some(acc)
}

/// Reads an optional `-` and digits as a signed 64-bit count.
pub fn parse_num_x(t: &Vec<char>) -> (r: Option<i64>)
    ensures
        match r {
            Some(v) => parse_num(t@) == Some(v as int),
            None => parse_num(t@) is None,
        },
{
    if t.len() >= 2 && t[0] == '-' {
        proof {
            assert(t@.skip(1) =~= t@.drop_first());
        }
        match parse_digits(t, 1, 0x8000_0000_0000_0000) {
            Some(mag) => Some((-(mag as i128)) as i64),
            None => None,
        }
    } else {
        proof {
            assert(t@.skip(0) =~= t@);
        }
        match parse_digits(t, 0, 0x7fff_ffff_ffff_ffff) {
            Some(v) => Some(v as i64),
            None => None,
        }
    }
}

impl Recurrence {
    /// Renders the tag value, for example `+2w`.
    pub fn to_chars(&self) -> (r: Vec<char>)
        ensures
            r@ == rec_token(*self),
    {
        let mut out: Vec<char> = Vec::new();
        if self.strict {
            out.push('+');
        }
        format_num(self.num, &mut out);
        out.push(period_char_x(self.period));
        proof {
            assert(out@ =~= rec_token(*self));
        }
        out
    }

    /// Reads a tag value as a recurrence.
    pub fn from_chars(t: &Vec<char>) -> (r: Option<Recurrence>)
        ensures
            r == parse_rec(t@),
    {
        let strict = t.len() > 0 && t[0] == '+';
        let from: usize = if strict {
            1
        } else {
            0
        };
        if t.len() < from + 2 {
            proof {
                if strict {
                    assert(t@.drop_first().len() < 2);
                }
            }
            return None;
        }
        let unit = t[t.len() - 1];
        let ghost body = if strict {
            t@.drop_first()
        } else {
            t@
        };
        proof {
            assert(body.last() == t@[t@.len() - 1]);
        }
        let period = match char_period_x(unit) {
            Some(p) => p,
            None => {
                return None;
            },
        };
        let mut numpart: Vec<char> = Vec::new();
        let mut i: usize = from;
        while i < t.len() - 1
            invariant
                from <= i <= t@.len() - 1,
                t@.len() >= from + 2,
                numpart@ =~= t@.subrange(from as int, i as int),
            decreases t@.len() - i,
        {
            numpart.push(t[i]);
            proof {
                assert(t@.subrange(from as int, i as int).push(t@[i as int]) =~= t@.subrange(
                    from as int,
                    i + 1,
                ));
            }
            i = i + 1;
        }
        proof {
            assert(numpart@ =~= body.drop_last());
        }
        match parse_num_x(&numpart) {
            Some(n) => Some(Recurrence { num: n, period, strict }),
            None => None,
        }
    }

    /// The next occurrence from `anchor`, or `None` when it would leave
    /// the supported year range.
    pub open spec fn apply_spec(self, anchor: Date) -> Option<Date> {
        match self.period {
            Period::Day => add_days_spec(anchor, self.num as int),
            Period::Week => add_days_spec(anchor, 7 * self.num as int),
            Period::Month => add_months_spec(anchor, self.num as int),
            Period::Year => add_months_spec(anchor, 12 * self.num as int),
        }
    }

    pub fn apply(self, anchor: Date) -> (r: Option<Date>)
        requires
            anchor.valid(),
        ensures
            r == self.apply_spec(anchor),
            r is Some ==> r.unwrap().valid(),
    {
        match self.period {
            Period::Day => add_days(anchor, self.num as i128),
            Period::Week => add_days(anchor, 7 * self.num as i128),
            Period::Month => add_months(anchor, self.num as i128),
            Period::Year => add_months(anchor, 12 * self.num as i128),
        }
    }
}

} // verus!
