//! A set alarm: when it is checked, what it says when it fires, and the datasets it
//! watches. Evaluating its condition is left to the expression engine.
use vstd::prelude::*;
use crate::access::add_field;
use crate::alarm_args::{conditions_readable, field_ref_at, field_refs, fields_of, readable_text, slice, time_condition_at, Weekday};
use crate::data_store::{DatasetId, FieldId};
use crate::pattern::{find_digits_end, lemma_digits_end};
use crate::text::{chars_of, parse_unsigned, parse_unsigned_exec, push_str};

verus! {

/// The numbers `x` can be shifted by without changing its time of day or day of week.
pub const WEEK_SHIFT: i64 = 12_096_000_000_000;

/// The earliest and latest second that a time stamp can name.
pub const MIN_TIME: i64 = -8_334_601_228_800;

pub const MAX_TIME: i64 = 8_210_266_876_799;

/// Seconds since midnight at unix time `now`, in the time zone `tz_hours` east of UTC.
pub open spec fn seconds_since_midnight(now: int, tz_hours: int) -> int {
    (now + tz_hours * 3600) % 86400
}

/// The day of the week at unix time `now`, in the time zone `tz_hours` east of UTC.
/// The first of January 1970 was a Thursday.
pub open spec fn weekday_at(now: int, tz_hours: int) -> Weekday {
    let d = ((now + tz_hours * 3600) / 86400 + 3) % 7;
    if d == 0 {
        Weekday::Mon
    } else if d == 1 {
        Weekday::Tue
    } else if d == 2 {
        Weekday::Wed
    } else if d == 3 {
        Weekday::Thu
    } else if d == 4 {
        Weekday::Fri
    } else if d == 5 {
        Weekday::Sat
    } else {
        Weekday::Sun
    }
}

/// An alarm as it is checked: its condition and the condition that re-enables it, whether
/// it waits for that one now, and when it may fire.
pub struct AlarmState {
    /// The condition, as stored.
    pub expression: String,
    /// The alarm has a condition that re-enables it after it fired.
    pub has_inverse: bool,
    /// The alarm fired and waits for the re-enabling condition.
    pub inverted: bool,
    pub weekday: Option<Vec<Weekday>>,
    /// Seconds that must pass before the alarm is checked.
    pub period: Option<u64>,
    pub message: Option<String>,
    /// Hours east of UTC.
    pub tz_offset: i32,
    /// Unix time from which the period is counted: when the alarm last fired, or, before
    /// it first fires, when it was set.
    pub cooldown_from: i64,
}

impl AlarmState {
    pub open spec fn wf(&self) -> bool {
        &&& !self.has_inverse ==> !self.inverted
        &&& -23 <= self.tz_offset <= 23
        &&& MIN_TIME <= self.cooldown_from <= MAX_TIME
    }

    /// At unix time `now` the period since the alarm last fired (or was set) has not
    /// passed yet.
    pub open spec fn cooling_down(&self, now: int) -> bool {
        match self.period {
            Some(p) => now - self.cooldown_from < p,
            None => false,
        }
    }

    /// An alarm set at unix time `set_at`, not waiting for its re-enabling condition.
    pub fn new(
        expression: String,
        has_inverse: bool,
        weekday: Option<Vec<Weekday>>,
        period: Option<u64>,
        message: Option<String>,
        tz_offset: i32,
        set_at: i64,
    ) -> (a: AlarmState)
        requires
            -23 <= tz_offset <= 23,
            MIN_TIME <= set_at <= MAX_TIME,
        ensures
            a.wf(),
            a.expression == expression,
            a.has_inverse == has_inverse,
            !a.inverted,
            a.weekday == weekday,
            a.period == period,
            a.message == message,
            a.tz_offset == tz_offset,
            a.cooldown_from == set_at,
    {
        AlarmState {
            expression,
            has_inverse,
            inverted: false,
            weekday,
            period,
            message,
            tz_offset,
            cooldown_from: set_at,
        }
    }
}

/// What a check of an alarm comes to before its condition is evaluated.
#[derive(PartialEq, Eq, Structural, Clone, Copy, Debug)]
pub enum Gate {
    /// The period since the alarm last fired (or was set) has not passed.
    Cooldown,
    /// The alarm is not checked on this day.
    WrongDay,
    /// Evaluate the condition (the re-enabling one where `inverse`), the variable `t`
    /// set to `seconds` since midnight.
    Evaluate { inverse: bool, seconds: u32 },
}

/// `x`, shifted into the non-negative numbers by a whole number of weeks.
fn shifted(x: i64) -> (y: u64)
    requires
        MIN_TIME - 23 * 3600 <= x <= MAX_TIME + 23 * 3600,
    ensures
        y == x + WEEK_SHIFT,
{
    (x + WEEK_SHIFT) as u64
}

fn day_of(d: u64) -> (w: Weekday)
    requires
        d < 7,
    ensures
        w == (if d == 0 {
            Weekday::Mon
        } else if d == 1 {
            Weekday::Tue
        } else if d == 2 {
            Weekday::Wed
        } else if d == 3 {
            Weekday::Thu
        } else if d == 4 {
            Weekday::Fri
        } else if d == 5 {
            Weekday::Sat
        } else {
            Weekday::Sun
        }),
{
    match d {
        0 => Weekday::Mon,
        1 => Weekday::Tue,
        2 => Weekday::Wed,
        3 => Weekday::Thu,
        4 => Weekday::Fri,
        5 => Weekday::Sat,
        _ => Weekday::Sun,
    }
}

proof fn lemma_shift(x: int)
    ensures
        (x + WEEK_SHIFT) % 86400 == x % 86400,
        ((x + WEEK_SHIFT) / 86400 + 3) % 7 == (x / 86400 + 3) % 7,
{
    let k: int = WEEK_SHIFT / 86400;
    assert(WEEK_SHIFT == 86400 * k);
    assert(k == 7 * 20_000_000);
    vstd::arithmetic::div_mod::lemma_mod_multiples_vanish(k, x, 86400);
    assert(86400 * k + x == x + WEEK_SHIFT);
    vstd::arithmetic::div_mod::lemma_hoist_over_denominator(x, k, 86400);
    assert(x + k * 86400 == x + WEEK_SHIFT);
    assert((x + WEEK_SHIFT) / 86400 + 3 == 7 * 20_000_000 + (x / 86400 + 3));
    vstd::arithmetic::div_mod::lemma_mod_multiples_vanish(20_000_000, x / 86400 + 3, 7);
}

/// The day of the week and the seconds since midnight at unix time `now` in the time
/// zone `tz_hours` east of UTC.
pub fn local_time(now: i64, tz_hours: i32) -> (r: (Weekday, u32))
    requires
        MIN_TIME <= now <= MAX_TIME,
        -23 <= tz_hours <= 23,
    ensures
        r.0 == weekday_at(now as int, tz_hours as int),
        r.1 == seconds_since_midnight(now as int, tz_hours as int),
{
    let x: i64 = now + (tz_hours as i64) * 3600;
    let y = shifted(x);
    proof {
        lemma_shift(x as int);
    }
    let secs = (y % 86400) as u32;
    let d = (y / 86400 + 3) % 7;
    (day_of(d), secs)
}

fn contains_day(days: &Vec<Weekday>, d: Weekday) -> (b: bool)
    ensures
        b == days@.contains(d),
{
    let mut k: usize = 0;
    while k < days.len()
        invariant
            k <= days@.len(),
            forall|m: int| 0 <= m < k ==> days@[m] != d,
        decreases days@.len() - k,
    {
        if days[k] == d {
            assert(days@[k as int] == d);
            return true;
        }
        k = k + 1;
    }
    false
}

impl AlarmState {
    /// Checks the alarm at unix time `now`: it waits while its period since it last
    /// fired (or was set) has not passed, is skipped on a day it is not set for, and is
    /// otherwise evaluated with the time of day in its time zone.
    pub fn gate(&self, now: i64) -> (g: Gate)
        requires
            self.wf(),
            MIN_TIME <= now <= MAX_TIME,
        ensures
            if self.cooling_down(now as int) {
                g == Gate::Cooldown
            } else {
                match self.weekday {
                    Some(days) if !days@.contains(
                        weekday_at(now as int, self.tz_offset as int),
                    ) => g == Gate::WrongDay,
                    _ => g == (Gate::Evaluate {
                        inverse: self.inverted,
                        seconds: seconds_since_midnight(now as int, self.tz_offset as int) as u32,
                    }),
                }
            },
    {
        if let Some(p) = self.period {
            if (now as i128) - (self.cooldown_from as i128) < (p as i128) {
                return Gate::Cooldown;
            }
        }
        let (day, seconds) = local_time(now, self.tz_offset);
        if let Some(days) = &self.weekday {
            if !contains_day(days, day) {
                return Gate::WrongDay;
            }
        }
        Gate::Evaluate { inverse: self.inverted, seconds }
    }
}

/// What an alarm whose condition held says: its message; or else `alarm fired: ` (or,
/// when it is re-enabled, `alarm re-enabled: `) and its condition with times of day as
/// clock times; `None` where such a time does not fit in 32 bits, so that the condition
/// cannot be written that way.
pub open spec fn alarm_text(message: Option<Seq<char>>, expression: Seq<char>, inverted: bool) -> Option<
    Seq<char>,
> {
    match message {
        Some(m) => Some(m),
        None => if conditions_readable(expression, 0) {
            Some(
                (if inverted {
                    "alarm re-enabled: "@
                } else {
                    "alarm fired: "@
                }) + readable_text(expression, 0),
            )
        } else {
            None
        },
    }
}

/// Whether the time conditions of `s` can be rewritten as clock times.
pub fn readable_conditions(s: &str) -> (b: bool)
    ensures
        b == conditions_readable(s@, 0),
{
    let c = chars_of(s);
    let n = c.len();
    let mut p: usize = 0;
    while p < n
        invariant
            n == c@.len(),
            c@ == s@,
            p <= n,
            conditions_readable(c@, 0) == conditions_readable(c@, p as int),
        decreases n - p,
    {
        match crate::alarm_args::time_condition_at_exec(c.as_slice(), p) {
            Some((o, l, a, b)) => {
                let digits = slice(&c, a, b);
                proof {
                    assert(time_condition_at(c@, p as int) == Some(
                        (o as int, l as int, a as int, b as int),
                    ));
                }
                match parse_unsigned_exec(digits.as_slice(), u32::MAX as u64) {
                    None => {
                        return false;
                    },
                    Some(_) => {},
                }
                p = b;
            },
            None => {
                proof {
                    assert(time_condition_at(c@, p as int) is None);
                }
                p = p + 1;
            },
        }
    }
    true
}

/// The outcome of an evaluated alarm.
pub enum Firing {
    /// The condition did not hold, or could not be evaluated.
    Quiet,
    /// The condition held; send this text.
    Notify(String),
}

impl AlarmState {
    /// Acts on the condition evaluated at unix time `now`: where it held, the alarm fires,
    /// its period starts anew from `now`, and an alarm with a re-enabling condition
    /// switches to waiting for it, or back.
    pub fn after_evaluation(&mut self, condition_held: bool, now: i64) -> (f: Firing)
        requires
            old(self).wf(),
            MIN_TIME <= now <= MAX_TIME,
            condition_held && old(self).message is None ==> conditions_readable(
                old(self).expression@,
                0,
            ),
        ensures
            final(self).wf(),
            final(self).expression == old(self).expression,
            final(self).has_inverse == old(self).has_inverse,
            final(self).weekday == old(self).weekday,
            final(self).period == old(self).period,
            final(self).message == old(self).message,
            final(self).tz_offset == old(self).tz_offset,
            !condition_held ==> f is Quiet && final(self).inverted == old(self).inverted
                && final(self).cooldown_from == old(self).cooldown_from,
            condition_held ==> {
                &&& final(self).cooldown_from == now
                &&& final(self).inverted == (if old(self).has_inverse {
                    !old(self).inverted
                } else {
                    old(self).inverted
                })
                &&& match alarm_text(
                    match old(self).message {
                        Some(m) => Some(m@),
                        None => None,
                    },
                    old(self).expression@,
                    old(self).inverted,
                ) {
                    Some(t) => f matches Firing::Notify(s) && s@ == t,
                    None => false,
                }
            },
    {
        if !condition_held {
            return Firing::Quiet;
        }
        let text = match &self.message {
            Some(m) => Firing::Notify(m.clone()),
            None => {
                let mut s = String::new();
                if self.inverted {
                    push_str(&mut s, "alarm re-enabled: ");
                } else {
                    push_str(&mut s, "alarm fired: ");
                }
                let r = crate::alarm_args::format_time_human_readable(self.expression.clone());
                push_str(&mut s, r.as_str());
                Firing::Notify(s)
            },
        };
        if self.has_inverse {
            self.inverted = !self.inverted;
        }
        self.cooldown_from = now;
        text
    }
}

/// An alarm with a period that fired at `fired_at` is not evaluated again before the
/// period has passed: at every later time within it, it cools down.
pub proof fn lemma_no_firing_within_period(a: AlarmState, fired_at: i64, later: i64)
    requires
        a.cooldown_from == fired_at,
        a.period matches Some(p) && fired_at <= later < fired_at + p,
    ensures
        a.cooling_down(later as int),
{
}

/// The datasets of the field references of `e`, in order, one for each reference.
pub open spec fn sets_of(refs: Seq<(Seq<char>, Seq<char>)>) -> Seq<DatasetId>
    decreases refs.len(),
{
    if refs.len() == 0 {
        Seq::empty()
    } else {
        sets_of(refs.drop_last()).push(
            parse_unsigned(refs.last().0, u16::MAX as nat)->0 as DatasetId,
        )
    }
}

/// Every field reference of `refs` names its dataset by a number that fits a dataset id.
pub open spec fn sets_readable(refs: Seq<(Seq<char>, Seq<char>)>) -> bool {
    forall|i: int| 0 <= i < refs.len() ==> parse_unsigned(#[trigger] refs[i].0, u16::MAX as nat) is Some
}

/// The dataset of each field reference in the condition, in order.
pub fn watched_sets(expression: &str) -> (sets: Vec<DatasetId>)
    requires
        sets_readable(field_refs(expression@, 0)),
    ensures
        sets@ == sets_of(field_refs(expression@, 0)),
{
    let e = chars_of(expression);
    let ghost refs = field_refs(e@, 0);
    let mut sets: Vec<DatasetId> = Vec::new();
    let ghost mut done: Seq<(Seq<char>, Seq<char>)> = Seq::empty();
    let n = e.len();
    let mut p: usize = 0;
    assert(field_refs(e@, 0) =~= done + field_refs(e@, 0));
    while p < n
        invariant
            n == e@.len(),
            p <= n,
            refs == field_refs(e@, 0),
            sets_readable(refs),
            refs == done + field_refs(e@, p as int),
            sets@ == sets_of(done),
        decreases n - p,
    {
        let q = find_digits_end(e.as_slice(), p);
        proof {
            lemma_digits_end(e@, p as int);
        }
        if q > p && q < n && e[q] == '_' {
            let r = find_digits_end(e.as_slice(), q + 1);
            proof {
                lemma_digits_end(e@, q + 1);
            }
            if r > q + 1 {
                let a = slice(&e, p, q);
                let ghost x = (a@, e@.subrange(q + 1, r as int));
                proof {
                    assert(field_ref_at(e@, p as int) == Some((q as int, r as int)));
                    assert(field_refs(e@, p as int) == seq![x] + field_refs(e@, r as int));
                    assert(refs =~= done.push(x) + field_refs(e@, r as int));
                    assert(refs[done.len() as int] == x);
                    assert(done.push(x).drop_last() =~= done);
                }
                let set = parse_unsigned_exec(a.as_slice(), u16::MAX as u64);
                let v: u64 = match set {
                    Some(v) => v,
                    None => 0,
                };
                sets.push(v as DatasetId);
                proof {
                    done = done.push(x);
                }
                p = r;
            } else {
                p = p + 1;
            }
        } else {
            p = p + 1;
        }
    }
    proof {
        assert(done + field_refs(e@, p as int) =~= done);
    }
    sets
}

/// The datasets an alarm is registered under when it is set (those its condition reads
/// fields of) are the datasets it is looked up under when it is removed.
pub proof fn lemma_watched_sets_are_read_sets(e: Seq<char>)
    requires
        fields_of(field_refs(e, 0)) is Some,
    ensures
        sets_readable(field_refs(e, 0)),
        sets_of(field_refs(e, 0)).to_set() == fields_of(field_refs(e, 0))->0.dom(),
{
    lemma_sets_of_fields(field_refs(e, 0));
}

proof fn lemma_sets_of_fields(refs: Seq<(Seq<char>, Seq<char>)>)
    requires
        fields_of(refs) is Some,
    ensures
        sets_readable(refs),
        sets_of(refs).to_set() == fields_of(refs)->0.dom(),
    decreases refs.len(),
{
    if refs.len() == 0 {
        assert(sets_of(refs).to_set() =~= Set::<DatasetId>::empty());
    } else {
        let rest = refs.drop_last();
        lemma_sets_of_fields(rest);
        let m = fields_of(rest)->0;
        let s = parse_unsigned(refs.last().0, u16::MAX as nat)->0 as DatasetId;
        let f = parse_unsigned(refs.last().1, u8::MAX as nat)->0 as FieldId;
        assert(fields_of(refs) == Some(add_field(m, s, f)));
        assert(add_field(m, s, f).dom() =~= m.dom().insert(s));
        assert(sets_of(refs) == sets_of(rest).push(s));
        assert(sets_of(refs).to_set() =~= sets_of(rest).to_set().insert(s)) by {
            assert forall|x: DatasetId| #[trigger] sets_of(refs).contains(x) <==> (sets_of(
                rest,
            ).contains(x) || x == s) by {
                if sets_of(refs).contains(x) {
                    let k = choose|k: int| 0 <= k < sets_of(refs).len() && sets_of(refs)[k] == x;
                    if k < sets_of(rest).len() {
                        assert(sets_of(rest)[k] == x);
                    }
                }
                if sets_of(rest).contains(x) {
                    let k = choose|k: int| 0 <= k < sets_of(rest).len() && sets_of(rest)[k] == x;
                    assert(sets_of(refs)[k] == x);
                }
                if x == s {
                    assert(sets_of(refs)[sets_of(refs).len() - 1] == x);
                }
            }
        }
        assert forall|i: int| 0 <= i < refs.len() implies parse_unsigned(
            #[trigger] refs[i].0,
            u16::MAX as nat,
        ) is Some by {
            if i < refs.len() - 1 {
                assert(refs[i] == rest[i]);
            }
        }
    }
}


/// Whether every field reference in `expression` names its dataset by a number that fits
/// a dataset id.
pub fn readable_sets(expression: &str) -> (b: bool)
    ensures
        b == sets_readable(field_refs(expression@, 0)),
{
    let e = chars_of(expression);
    let ghost refs = field_refs(e@, 0);
    let ghost mut done: Seq<(Seq<char>, Seq<char>)> = Seq::empty();
    let n = e.len();
    let mut p: usize = 0;
    assert(field_refs(e@, 0) =~= done + field_refs(e@, 0));
    while p < n
        invariant
            n == e@.len(),
            p <= n,
            refs == field_refs(e@, 0),
            refs == done + field_refs(e@, p as int),
            sets_readable(done),
            e@ == expression@,
        decreases n - p,
    {
        let q = find_digits_end(e.as_slice(), p);
        proof {
            lemma_digits_end(e@, p as int);
        }
        if q > p && q < n && e[q] == '_' {
            let r = find_digits_end(e.as_slice(), q + 1);
            proof {
                lemma_digits_end(e@, q + 1);
            }
            if r > q + 1 {
                let a = slice(&e, p, q);
                let ghost x = (a@, e@.subrange(q + 1, r as int));
                proof {
                    assert(field_ref_at(e@, p as int) == Some((q as int, r as int)));
                    assert(field_refs(e@, p as int) == seq![x] + field_refs(e@, r as int));
                    assert(refs =~= done.push(x) + field_refs(e@, r as int));
                    assert(refs[done.len() as int] == x);
                }
                match parse_unsigned_exec(a.as_slice(), u16::MAX as u64) {
                    None => {
                        proof {
                            assert(parse_unsigned(refs[done.len() as int].0, u16::MAX as nat) is None);
                        }
                        return false;
                    },
                    Some(_) => {},
                }
                proof {
                    assert forall|i: int| 0 <= i < done.push(x).len() implies parse_unsigned(
                        #[trigger] done.push(x)[i].0,
                        u16::MAX as nat,
                    ) is Some by {
                        if i < done.len() {
                            assert(done.push(x)[i] == done[i]);
                        }
                    }
                    done = done.push(x);
                }
                p = r;
            } else {
                p = p + 1;
            }
        } else {
            p = p + 1;
        }
    }
    proof {
        assert(done + field_refs(e@, p as int) =~= done);
    }
    true
}

} // verus!
