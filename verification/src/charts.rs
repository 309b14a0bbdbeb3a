//! The time side of plots and of `/show`: the time axis of a plot, how its labels are
//! written, the units a plotted period can be given in, and how long ago data came.
use vstd::prelude::*;
use crate::alarm::{MAX_TIME, MIN_TIME};
use crate::text::{decimal_repr, push_decimal, push_signed, push_str, signed_repr};

verus! {

/// Why the time axis of a plot cannot be drawn.
#[derive(PartialEq, Eq, Structural, Clone, Copy, Debug)]
pub enum LimitsError {
    /// The earliest first time stamp is later than the latest last one.
    DataLimitsAlarm,
}

/// The smallest first time stamp of the plotted datasets.
pub open spec fn min_first(ranges: Seq<(i64, i64)>) -> int
    decreases ranges.len(),
{
    if ranges.len() <= 1 {
        ranges[0].0 as int
    } else {
        let rest = min_first(ranges.drop_last());
        if ranges.last().0 < rest {
            ranges.last().0 as int
        } else {
            rest
        }
    }
}

/// The largest last time stamp of the plotted datasets.
pub open spec fn max_last(ranges: Seq<(i64, i64)>) -> int
    decreases ranges.len(),
{
    if ranges.len() <= 1 {
        ranges[0].1 as int
    } else {
        let rest = max_last(ranges.drop_last());
        if ranges.last().1 > rest {
            ranges.last().1 as int
        } else {
            rest
        }
    }
}

/// The start of the time axis is the first time stamp of one of the plotted datasets,
/// and no dataset starts before it.
pub proof fn lemma_min_first_is_smallest(ranges: Seq<(i64, i64)>)
    requires
        ranges.len() > 0,
    ensures
        forall|i: int| 0 <= i < ranges.len() ==> min_first(ranges) <= (#[trigger] ranges[i]).0,
        exists|i: int| 0 <= i < ranges.len() && (#[trigger] ranges[i]).0 == min_first(ranges),
    decreases ranges.len(),
{
    if ranges.len() > 1 {
        let rest = ranges.drop_last();
        lemma_min_first_is_smallest(rest);
        assert forall|i: int| 0 <= i < ranges.len() implies min_first(ranges) <= (#[trigger] ranges[i]).0 by {
            if i < ranges.len() - 1 {
                assert(ranges[i] == rest[i]);
            }
        }
        if ranges.last().0 < min_first(rest) {
            assert(ranges[ranges.len() - 1].0 == min_first(ranges));
        } else {
            let i = choose|i: int| 0 <= i < rest.len() && (#[trigger] rest[i]).0 == min_first(rest);
            assert(ranges[i] == rest[i]);
        }
    } else {
        assert(ranges[0].0 == min_first(ranges));
    }
}

/// The end of the time axis is the last time stamp of one of the plotted datasets, and
/// no dataset ends after it.
pub proof fn lemma_max_last_is_largest(ranges: Seq<(i64, i64)>)
    requires
        ranges.len() > 0,
    ensures
        forall|i: int| 0 <= i < ranges.len() ==> (#[trigger] ranges[i]).1 <= max_last(ranges),
        exists|i: int| 0 <= i < ranges.len() && (#[trigger] ranges[i]).1 == max_last(ranges),
    decreases ranges.len(),
{
    if ranges.len() > 1 {
        let rest = ranges.drop_last();
        lemma_max_last_is_largest(rest);
        assert forall|i: int| 0 <= i < ranges.len() implies (#[trigger] ranges[i]).1 <= max_last(ranges) by {
            if i < ranges.len() - 1 {
                assert(ranges[i] == rest[i]);
            }
        }
        if ranges.last().1 > max_last(rest) {
            assert(ranges[ranges.len() - 1].1 == max_last(ranges));
        } else {
            let i = choose|i: int| 0 <= i < rest.len() && (#[trigger] rest[i]).1 == max_last(rest);
            assert(ranges[i] == rest[i]);
        }
    } else {
        assert(ranges[0].1 == max_last(ranges));
    }
}

/// Every time stamp is one a date can be made of.
pub open spec fn times_in_range(ranges: Seq<(i64, i64)>) -> bool {
    forall|i: int|
        0 <= i < ranges.len() ==> MIN_TIME < (#[trigger] ranges[i]).0 < MAX_TIME && MIN_TIME
            < ranges[i].1 < MAX_TIME
}

proof fn lemma_min_max_bounds(ranges: Seq<(i64, i64)>)
    requires
        ranges.len() > 0,
        times_in_range(ranges),
    ensures
        MIN_TIME < min_first(ranges) < MAX_TIME,
        MIN_TIME < max_last(ranges) < MAX_TIME,
    decreases ranges.len(),
{
    assert(MIN_TIME < ranges[0].0 < MAX_TIME);
    if ranges.len() > 1 {
        assert forall|i: int| 0 <= i < ranges.drop_last().len() implies MIN_TIME < (
        #[trigger] ranges.drop_last()[i]).0 < MAX_TIME && MIN_TIME < ranges.drop_last()[i].1
            < MAX_TIME by {
            assert(ranges.drop_last()[i] == ranges[i]);
        }
        lemma_min_max_bounds(ranges.drop_last());
        assert(MIN_TIME < ranges[ranges.len() - 1].0 < MAX_TIME);
    }
}

/// The time axis of a plot, from the first and last time stamp of each dataset: from the
/// earliest first to the latest last one, widened by a second on each side where they
/// are the same.
pub fn xlimits_from_data(ranges: &Vec<(i64, i64)>) -> (r: Result<(i64, i64), LimitsError>)
    requires
        ranges@.len() > 0,
        times_in_range(ranges@),
    ensures
        r matches Ok((lo, hi)) ==> forall|i: int|
            0 <= i < ranges@.len() ==> lo <= (#[trigger] ranges@[i]).0 && ranges@[i].1 <= hi,
        min_first(ranges@) > max_last(ranges@) ==> r == Err::<(i64, i64), LimitsError>(
            LimitsError::DataLimitsAlarm,
        ),
        min_first(ranges@) == max_last(ranges@) ==> r == Ok::<(i64, i64), LimitsError>(
            ((min_first(ranges@) - 1) as i64, (max_last(ranges@) + 1) as i64),
        ),
        min_first(ranges@) < max_last(ranges@) ==> r == Ok::<(i64, i64), LimitsError>(
            (min_first(ranges@) as i64, max_last(ranges@) as i64),
        ),
{
    let mut min_ts = ranges[0].0;
    let mut max_ts = ranges[0].1;
    let mut i: usize = 1;
    while i < ranges.len()
        invariant
            1 <= i <= ranges@.len(),
            min_ts == min_first(ranges@.take(i as int)),
            max_ts == max_last(ranges@.take(i as int)),
        decreases ranges@.len() - i,
    {
        proof {
            assert(ranges@.take(i + 1).drop_last() =~= ranges@.take(i as int));
        }
        if ranges[i].0 < min_ts {
            min_ts = ranges[i].0;
        }
        if ranges[i].1 > max_ts {
            max_ts = ranges[i].1;
        }
        i = i + 1;
    }
    assert(ranges@.take(i as int) =~= ranges@);
    proof {
        lemma_min_max_bounds(ranges@);
        lemma_min_first_is_smallest(ranges@);
        lemma_max_last_is_largest(ranges@);
    }
    if min_ts > max_ts {
        return Err(LimitsError::DataLimitsAlarm);
    }
    if min_ts == max_ts {
        min_ts = min_ts - 1;
        max_ts = max_ts + 1;
    }
    Ok((min_ts, max_ts))
}

/// How the labels of a time axis spanning `span` seconds are written.
pub open spec fn label_format(span: int) -> Seq<char> {
    if span < 60 {
        "%Ss"@
    } else if span < 15 * 60 {
        "%Mm:%Ss"@
    } else if span < 3600 {
        "%Mm"@
    } else if span < 86400 {
        "%Hh:%Mm"@
    } else if span < 2 * 604800 {
        "%a %Hh"@
    } else if span < 5 * 604800 {
        "%d-%m"@
    } else {
        "%v"@
    }
}

/// The format of the labels of a time axis from `from` to `to`: the shorter the span,
/// the finer the labels.
pub fn format_str_from_limits(from: i64, to: i64) -> (f: &'static str)
    requires
        MIN_TIME <= from <= MAX_TIME,
        MIN_TIME <= to <= MAX_TIME,
    ensures
        f@ == label_format(to - from),
{
    let span = to - from;
    if span < 60 {
        "%Ss"
    } else if span < 15 * 60 {
        "%Mm:%Ss"
    } else if span < 3600 {
        "%Mm"
    } else if span < 86400 {
        "%Hh:%Mm"
    } else if span < 2 * 604800 {
        "%a %Hh"
    } else if span < 5 * 604800 {
        "%d-%m"
    } else {
        "%v"
    }
}

/// The seconds in one of a unit a plotted period is given in.
pub open spec fn plot_unit(unit: Seq<char>) -> Option<nat> {
    if unit == "s"@ {
        Some(1)
    } else if unit == "m"@ {
        Some(60)
    } else if unit == "h"@ {
        Some(3600)
    } else if unit == "d"@ {
        Some(24 * 3600)
    } else if unit == "w"@ {
        Some(7 * 24 * 3600)
    } else if unit == "monthes"@ {
        Some(4 * 7 * 24 * 3600)
    } else if unit == "years"@ {
        Some(365 * 24 * 3600)
    } else {
        None
    }
}

/// The seconds in one of a plot period's unit, `None` for an unknown unit.
pub fn plot_unit_seconds(unit: &str) -> (r: Option<u64>)
    ensures
        match plot_unit(unit@) {
            Some(n) => r == Some(n as u64),
            None => r is None,
        },
{
    let c = crate::text::chars_of(unit);
    if crate::bot::same_text(c.as_slice(), "s") {
        Some(1)
    } else if crate::bot::same_text(c.as_slice(), "m") {
        Some(60)
    } else if crate::bot::same_text(c.as_slice(), "h") {
        Some(3600)
    } else if crate::bot::same_text(c.as_slice(), "d") {
        Some(24 * 3600)
    } else if crate::bot::same_text(c.as_slice(), "w") {
        Some(7 * 24 * 3600)
    } else if crate::bot::same_text(c.as_slice(), "monthes") {
        Some(4 * 7 * 24 * 3600)
    } else if crate::bot::same_text(c.as_slice(), "years") {
        Some(365 * 24 * 3600)
    } else {
        None
    }
}

/// The whole seconds from time stamp `time` to the moment `now_secs` plus `now_nanos`
/// nanoseconds, rounded towards zero.
pub open spec fn whole_seconds(time: int, now_secs: int, now_nanos: int) -> int {
    let d = now_secs - time;
    if d < 0 && now_nanos > 0 {
        d + 1
    } else {
        d
    }
}

/// How long ago something happened, `s` seconds: in seconds below two minutes, then in
/// minutes below two hours, in hours below a day and a half, in days below 120 days,
/// and else in weeks, each rounded down.
pub open spec fn duration_text(s: int) -> Seq<char> {
    if s < 120 {
        signed_repr(s) + " seconds"@
    } else if s / 60 < 120 {
        decimal_repr((s / 60) as nat) + " minutes"@
    } else if s / 3600 < 36 {
        decimal_repr((s / 3600) as nat) + " hours"@
    } else if s / 86400 < 120 {
        decimal_repr((s / 86400) as nat) + " days"@
    } else {
        decimal_repr((s / 86400 / 7) as nat) + " weeks"@
    }
}

/// How long before the moment `now_secs` (plus `now_nanos` nanoseconds) the time stamp
/// `time` lies, for the reader.
pub fn format_to_duration(time: i64, now_secs: i64, now_nanos: u32) -> (text: String)
    requires
        MIN_TIME <= time <= MAX_TIME,
        MIN_TIME <= now_secs <= MAX_TIME,
        now_nanos < 1_000_000_000,
    ensures
        text@ == duration_text(whole_seconds(time as int, now_secs as int, now_nanos as int)),
{
    let d: i64 = now_secs - time;
    let s: i64 = if d < 0 && now_nanos > 0 {
        d + 1
    } else {
        d
    };
    let mut text = String::new();
    if s < 120 {
        push_signed(&mut text, s);
        push_str(&mut text, " seconds");
        assert(text@ =~= signed_repr(s as int) + " seconds"@);
    } else {
        let u = s as u64;
        if u / 60 < 120 {
            push_decimal(&mut text, u / 60);
            push_str(&mut text, " minutes");
        } else if u / 3600 < 36 {
            push_decimal(&mut text, u / 3600);
            push_str(&mut text, " hours");
        } else if u / 86400 < 120 {
            push_decimal(&mut text, u / 86400);
            push_str(&mut text, " days");
        } else {
            push_decimal(&mut text, u / 86400 / 7);
            push_str(&mut text, " weeks");
        }
    }
    text
}

} // verus!
