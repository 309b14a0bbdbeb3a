//! The `/alarm` chat command: its sub-commands, the list of a user's alarms, which
//! alarms to remove, and its messages.
use vstd::prelude::*;
use crate::alarm_args::{conditions_readable, format_time_human_readable, readable_text, Weekday};
use crate::data_store::{DatasetId, FieldId};
use crate::keyboard::words_as_strings;
use crate::text::{chars_of, decimal_repr, is_whitespace, is_ws, parse_unsigned, parse_unsigned_exec, push_decimal, push_str, string_of, words};

verus! {

broadcast use vstd::seq_lib::group_to_multiset_ensures;

pub const HELP_ADD: &'static str = "/alarm add [options] \"condition\"\nexample: add \"3_0> 3_1 & t>9:30 & t<12:00\" -d [Sunday,Saturday] -p 5h -c /plotables\ncondition; a boolean statement that may use these binairy operators: ^ * / % + - < > == != && || on sensor fields (see /plotables for options) or time (use the symbole \"t\")\npossible options:\n-d [Weekday, .... , Weekday]\ndays on which the condition should be evaluated example: -d [Saturday, Sunday]\n-p <number><unit>\noverride the default minimal time between activation of alarm. The time unit can be s,m,h,d or w\n-c <command>\nhere command should be a valid telegram command for this bot. If the command is more then one word long it should be enclosed in quotes\n-i <percentage>\nprevent alarm from being triggerd continuesly, once an alarm is triggerd disarm and set an inverse alarm that will re-enable it once one of the values it watches deviates the given percentage from the alarm activation value\n";
pub const HELP_LIST: &'static str = "/alarm list\nshows for all set alarms their: id, condition, timezone and actionperformed when the condition is satisfied.\n";
pub const HELP_REMOVE: &'static str = "/alarm remove list_numb_1 list_numb_2....list_numb_n\nremoves one or multiple active alarms, space seperate list of the numbers in front of the expressions of the alarm list.";

/// How an alarm's owner is told that it fired.
pub struct NotifyVia {
    pub email: Option<String>,
    /// The chat to send to.
    pub telegram: Option<i64>,
}

/// An alarm as it is stored.
pub struct Alarm {
    pub expression: String,
    /// The condition that re-enables the alarm after it fired.
    pub inv_expr: Option<String>,
    pub weekday: Option<Vec<Weekday>>,
    /// Seconds.
    pub period: Option<u64>,
    pub message: Option<String>,
    pub command: Option<String>,
    /// Hours east of UTC.
    pub tz_offset: i32,
    pub notify: NotifyVia,
}

/// The sub-commands of `/alarm`.
#[derive(PartialEq, Eq, Structural, Clone, Copy, Debug)]
pub enum AlarmCommand {
    Add,
    List,
    Remove,
    Unknown,
}

/// `s` without its leading white space.
pub open spec fn trim_start(s: Seq<char>) -> Seq<char>
    decreases s.len(),
{
    if s.len() > 0 && is_ws(s[0]) {
        trim_start(s.drop_first())
    } else {
        s
    }
}

/// The index of the first space in `s`, if any.
pub open spec fn first_space(s: Seq<char>) -> Option<int>
    decreases s.len(),
{
    if s.len() == 0 {
        None
    } else if s[0] == ' ' {
        Some(0)
    } else {
        match first_space(s.drop_first()) {
            Some(i) => Some(i + 1),
            None => None,
        }
    }
}

/// The sub-command named by `word`.
pub open spec fn alarm_command_named(word: Seq<char>) -> AlarmCommand {
    if word == "add"@ {
        AlarmCommand::Add
    } else if word == "list"@ {
        AlarmCommand::List
    } else if word == "remove"@ {
        AlarmCommand::Remove
    } else {
        AlarmCommand::Unknown
    }
}

proof fn lemma_trim_start(s: Seq<char>)
    ensures
        trim_start(s).len() <= s.len(),
        trim_start(s) == s.skip(s.len() - trim_start(s).len()),
    decreases s.len(),
{
    if s.len() > 0 && is_ws(s[0]) {
        lemma_trim_start(s.drop_first());
        assert(s.drop_first().skip(s.drop_first().len() - trim_start(s).len()) =~= s.skip(
            s.len() - trim_start(s).len(),
        ));
    } else {
        assert(s.skip(0) =~= s);
    }
}

proof fn lemma_first_space(s: Seq<char>)
    ensures
        first_space(s) matches Some(i) ==> 0 <= i < s.len() && s[i] == ' ' && forall|k: int|
            0 <= k < i ==> s[k] != ' ',
        first_space(s) is None ==> forall|k: int| 0 <= k < s.len() ==> s[k] != ' ',
    decreases s.len(),
{
    if s.len() > 0 && s[0] != ' ' {
        lemma_first_space(s.drop_first());
        assert forall|k: int| 0 < k < s.len() implies s[k] == s.drop_first()[k - 1] by {}
    }
}

/// Splits an `/alarm` message: leading white space dropped, its first word up to a space
/// names the sub-command, and what follows that space is the arguments.
pub fn alarm_subcommand(text: &str) -> (r: (AlarmCommand, String))
    ensures
        ({
            let t = trim_start(text@);
            match first_space(t) {
                Some(i) => r.0 == alarm_command_named(t.take(i)) && r.1@ == t.skip(i + 1),
                None => r.0 == alarm_command_named(t) && r.1@ == Seq::<char>::empty(),
            }
        }),
{
    let c = chars_of(text);
    let n = c.len();
    let mut start: usize = 0;
    assert(c@.skip(0) =~= c@);
    while start < n && is_whitespace(c[start])
        invariant
            n == c@.len(),
            c@ == text@,
            start <= n,
            trim_start(text@) == trim_start(c@.skip(start as int)),
        decreases n - start,
    {
        assert(c@.skip(start as int).drop_first() =~= c@.skip(start + 1));
        start = start + 1;
    }
    let ghost t = c@.skip(start as int);
    assert(trim_start(text@) == t);
    let mut i: usize = start;
    while i < n && c[i] != ' '
        invariant
            n == c@.len(),
            start <= i <= n,
            t == c@.skip(start as int),
            forall|k: int| start <= k < i ==> c@[k] != ' ',
        decreases n - i,
    {
        i = i + 1;
    }
    proof {
        lemma_first_space(t);
    }
    let word = crate::alarm_args::slice(&c, start, i);
    assert(word@ =~= t.take(i - start));
    let cmd = if crate::bot::same_text(word.as_slice(), "add") {
        AlarmCommand::Add
    } else if crate::bot::same_text(word.as_slice(), "list") {
        AlarmCommand::List
    } else if crate::bot::same_text(word.as_slice(), "remove") {
        AlarmCommand::Remove
    } else {
        AlarmCommand::Unknown
    };
    if i < n {
        proof {
            match first_space(t) {
                Some(j) => {
                    assert(t[i - start] == ' ');
                    if j < i - start {
                        assert(c@[start + j] == ' ');
                    }
                    assert(j == i - start);
                },
                None => {
                    assert(t[i - start] == ' ');
                },
            }
        }
        let args = crate::alarm_args::slice(&c, i + 1, n);
        assert(args@ =~= t.skip(i - start + 1));
        (cmd, string_of(args.as_slice()))
    } else {
        proof {
            assert(t.take(i - start) =~= t);
            if first_space(t) is Some {
                let j = first_space(t)->0;
                assert(c@[start + j] == ' ');
            }
        }
        (cmd, String::new())
    }
}

/// The alarm numbers in `s`, in order, or the first word that is none.
pub open spec fn numbers_of(ws: Seq<Seq<char>>) -> Result<Seq<usize>, Seq<char>>
    decreases ws.len(),
{
    if ws.len() == 0 {
        Ok(Seq::empty())
    } else {
        match numbers_of(ws.drop_last()) {
            Err(w) => Err(w),
            Ok(ns) => match parse_unsigned(ws.last(), usize::MAX as nat) {
                None => Err(ws.last()),
                Some(n) => Ok(ns.push(n as usize)),
            },
        }
    }
}

proof fn lemma_numbers_fault_sticks(ws: Seq<Seq<char>>, k: int)
    requires
        0 <= k <= ws.len(),
        numbers_of(ws.take(k)) is Err,
    ensures
        numbers_of(ws) == numbers_of(ws.take(k)),
    decreases ws.len() - k,
{
    if k < ws.len() {
        assert(ws.take(k + 1).drop_last() =~= ws.take(k));
        lemma_numbers_fault_sticks(ws, k + 1);
    } else {
        assert(ws.take(k) =~= ws);
    }
}

/// `s` is sorted from large to small.
pub open spec fn descending(s: Seq<usize>) -> bool {
    forall|i: int, j: int| 0 <= i < j < s.len() ==> s[i] >= s[j]
}

/// The numbers of the alarms to remove, from the largest down, so that removing one
/// does not renumber those still to be removed; or the first word that is no number.
pub fn alarm_numbers(args: &str) -> (r: Result<Vec<usize>, String>)
    ensures
        match numbers_of(words(args@)) {
            Err(w) => r matches Err(e) && e@ == w,
            Ok(ns) => r matches Ok(v) && descending(v@) && v@.to_multiset() == ns.to_multiset(),
        },
{
    let ws = words_as_strings(args);
    let ghost all = words(args@);
    let mut out: Vec<usize> = Vec::new();
    let ghost mut parsed: Seq<usize> = Seq::empty();
    let mut i: usize = 0;
    while i < ws.len()
        invariant
            i <= ws@.len(),
            crate::keyboard::row_view(ws@) == all,
            all == words(args@),
            numbers_of(all.take(i as int)) == Ok::<Seq<usize>, Seq<char>>(parsed),
            descending(out@),
            out@.to_multiset() == parsed.to_multiset(),
        decreases ws@.len() - i,
    {
        let w = chars_of(ws[i].as_str());
        proof {
            assert(all.take(i + 1).drop_last() =~= all.take(i as int));
            assert(all[i as int] == ws@[i as int]@);
        }
        match parse_unsigned_exec(w.as_slice(), usize::MAX as u64) {
            None => {
                proof {
                    assert(numbers_of(all.take(i + 1)) == Err::<Seq<usize>, Seq<char>>(
                        all[i as int],
                    ));
                    lemma_numbers_fault_sticks(all, i + 1);
                }
                return Err(string_of(w.as_slice()));
            },
            Some(v) => {
                let x = v as usize;
                let mut k: usize = 0;
                while k < out.len() && out[k] >= x
                    invariant
                        k <= out@.len(),
                        forall|m: int| 0 <= m < k ==> out@[m] >= x,
                    decreases out@.len() - k,
                {
                    k = k + 1;
                }
                let ghost before = out@;
                out.insert(k, x);
                proof {
                    assert(out@ == before.insert(k as int, x));
                    assert forall|a: int, b: int| 0 <= a < b < out@.len() implies out@[a] >= out@[
                        b
                    ] by {
                        if a < k && b < k {
                            assert(out@[a] == before[a]);
                            assert(out@[b] == before[b]);
                        } else if a < k && b == k {
                        } else if a < k && b > k {
                            assert(out@[b] == before[b - 1]);
                            assert(before[a] >= before[b - 1]);
                        } else if a == k {
                            assert(out@[b] == before[b - 1]);
                            if k < before.len() {
                                assert(before[k as int] < x);
                                assert(before[k as int] >= before[b - 1]);
                            }
                        } else {
                            assert(out@[a] == before[a - 1]);
                            assert(out@[b] == before[b - 1]);
                        }
                    }
                    parsed = parsed.push(x);
                }
            },
        }
        i = i + 1;
    }
    assert(all.take(i as int) =~= all);
    Ok(out)
}

/// The reply after removing alarms.
pub fn removal_reply(n_removed: usize) -> (text: &'static str)
    ensures
        n_removed > 1 ==> text@ == "alarms removed"@,
        n_removed <= 1 ==> text@ == "alarm removed"@,
{
    if n_removed > 1 {
        "alarms removed"
    } else {
        "alarm removed"
    }
}

/// The name of a day as its debug form writes it.
pub open spec fn day_name(d: Weekday) -> Seq<char> {
    match d {
        Weekday::Mon => "Mon"@,
        Weekday::Tue => "Tue"@,
        Weekday::Wed => "Wed"@,
        Weekday::Thu => "Thu"@,
        Weekday::Fri => "Fri"@,
        Weekday::Sat => "Sat"@,
        Weekday::Sun => "Sun"@,
    }
}

/// The name a listing gives a day is read back as that day by the day parser of
/// `/alarm add`, so a listed alarm's days can be given again as they are shown.
pub proof fn lemma_day_names_read_back(d: Weekday)
    ensures
        crate::alarm_args::weekday_named(day_name(d)) == Some(d),
{
    reveal_strlit("Mon");
    reveal_strlit("Tue");
    reveal_strlit("Wed");
    reveal_strlit("Thu");
    reveal_strlit("Fri");
    reveal_strlit("Sat");
    reveal_strlit("Sun");
    reveal_strlit("mon");
    reveal_strlit("tue");
    reveal_strlit("wed");
    reveal_strlit("thu");
    reveal_strlit("fri");
    reveal_strlit("sat");
    reveal_strlit("sun");
    reveal_strlit("monday");
    reveal_strlit("tuesday");
    reveal_strlit("wednesday");
    reveal_strlit("thursday");
    reveal_strlit("friday");
    reveal_strlit("saturday");
    reveal_strlit("sunday");
    assert(crate::alarm_args::ascii_lower('M') == 'm');
    assert(crate::alarm_args::ascii_lower('T') == 't');
    assert(crate::alarm_args::ascii_lower('W') == 'w');
    assert(crate::alarm_args::ascii_lower('F') == 'f');
    assert(crate::alarm_args::ascii_lower('S') == 's');
    let n = day_name(d);
    assert(n.len() == 3);
    assert(crate::alarm_args::ascii_lower(n[1]) == n[1]);
    assert(crate::alarm_args::ascii_lower(n[2]) == n[2]);
}

fn day_name_exec(d: Weekday) -> (s: &'static str)
    ensures
        s@ == day_name(d),
{
    match d {
        Weekday::Mon => "Mon",
        Weekday::Tue => "Tue",
        Weekday::Wed => "Wed",
        Weekday::Thu => "Thu",
        Weekday::Fri => "Fri",
        Weekday::Sat => "Sat",
        Weekday::Sun => "Sun",
    }
}

/// Each day's name followed by a comma.
pub open spec fn days_text(days: Seq<Weekday>) -> Seq<char>
    decreases days.len(),
{
    if days.len() == 0 {
        Seq::empty()
    } else {
        days_text(days.drop_last()) + day_name(days.last()) + ","@
    }
}

/// The first line of an alarm in a listing: its number and its condition.
pub open spec fn entry_head(counter: nat, alarm: &Alarm) -> Seq<char> {
    decimal_repr(counter) + "\texpr: "@ + readable_text(alarm.expression@, 0) + "\n"@
}

/// The line of the days an alarm is checked on, if it is set for some.
pub open spec fn entry_days(alarm: &Alarm) -> Seq<char> {
    match alarm.weekday {
        Some(days) => "valid on: ["@ + days_text(days@) + "]\n"@,
        None => Seq::empty(),
    }
}

/// The line of an alarm's period, if it has one.
pub open spec fn entry_period(alarm: &Alarm) -> Seq<char> {
    match alarm.period {
        Some(p) => "cooldown: "@ + decimal_repr(p as nat) + "s\n"@,
        None => Seq::empty(),
    }
}

/// The line of an alarm's message, if it has one.
pub open spec fn entry_message(alarm: &Alarm) -> Seq<char> {
    match alarm.message {
        Some(m) => "message: "@ + m@ + "\n"@,
        None => Seq::empty(),
    }
}

/// The line of an alarm's re-enabling condition, if it has one.
pub open spec fn entry_inverse(alarm: &Alarm) -> Seq<char> {
    match alarm.inv_expr {
        Some(e) => "reactivating if: "@ + readable_text(e@, 0) + "\n"@,
        None => Seq::empty(),
    }
}

/// The lines that list one alarm, numbered `counter`.
pub open spec fn alarm_entry(counter: nat, alarm: &Alarm) -> Seq<char> {
    entry_head(counter, alarm) + entry_days(alarm) + entry_period(alarm) + entry_message(alarm)
        + entry_inverse(alarm)
}

/// The conditions of an alarm can be listed: their time conditions fit in 32 bits.
pub open spec fn listable(alarm: &Alarm) -> bool {
    &&& conditions_readable(alarm.expression@, 0)
    &&& match alarm.inv_expr {
        Some(e) => conditions_readable(e@, 0),
        None => true,
    }
}

/// The listing of a user's alarms, each numbered by its place in the list.
pub open spec fn alarm_listing(alarms: Seq<Alarm>) -> Seq<char>
    decreases alarms.len(),
{
    if alarms.len() == 0 {
        Seq::empty()
    } else {
        alarm_listing(alarms.drop_last()) + alarm_entry((alarms.len() - 1) as nat, &alarms.last())
    }
}

/// The reply to `/alarm list`.
pub fn list_alarms(alarms: &Vec<Alarm>) -> (text: String)
    requires
        forall|i: int| 0 <= i < alarms@.len() ==> listable(&#[trigger] alarms@[i]),
    ensures
        alarms@.len() == 0 ==> text@ == "I have no alarms for you"@,
        alarms@.len() > 0 ==> text@ == alarm_listing(alarms@),
{
    let mut text = String::new();
    if alarms.len() == 0 {
        push_str(&mut text, "I have no alarms for you");
        return text;
    }
    let mut i: usize = 0;
    while i < alarms.len()
        invariant
            i <= alarms@.len(),
            forall|k: int| 0 <= k < alarms@.len() ==> listable(&#[trigger] alarms@[k]),
            text@ == alarm_listing(alarms@.take(i as int)),
        decreases alarms@.len() - i,
    {
        let alarm = &alarms[i];
        let ghost before = text@;
        assert(listable(&alarms@[i as int]));
        push_entry(&mut text, i, alarm);
        proof {
            assert(alarms@.take(i + 1).drop_last() =~= alarms@.take(i as int));
            assert(alarms@.take(i + 1).last() == alarms@[i as int]);
        }
        i = i + 1;
    }
    assert(alarms@.take(i as int) =~= alarms@);
    text
}

fn push_entry(text: &mut String, counter: usize, alarm: &Alarm)
    requires
        listable(alarm),
    ensures
        final(text)@ == old(text)@ + alarm_entry(counter as nat, alarm),
{
    push_head(text, counter, alarm);
    let ghost a = text@;
    push_days(text, alarm);
    let ghost b = text@;
    push_period(text, alarm);
    let ghost c = text@;
    push_message(text, alarm);
    let ghost d = text@;
    push_inverse(text, alarm);
    assert(text@ =~= old(text)@ + alarm_entry(counter as nat, alarm));
}

fn push_head(text: &mut String, counter: usize, alarm: &Alarm)
    requires
        conditions_readable(alarm.expression@, 0),
    ensures
        final(text)@ == old(text)@ + entry_head(counter as nat, alarm),
{
    push_decimal(text, counter as u64);
    push_str(text, "\texpr: ");
    let e = format_time_human_readable(alarm.expression.clone());
    push_str(text, e.as_str());
    push_str(text, "\n");
    assert(text@ =~= old(text)@ + entry_head(counter as nat, alarm));
}

fn push_days(text: &mut String, alarm: &Alarm)
    ensures
        final(text)@ == old(text)@ + entry_days(alarm),
{
    match &alarm.weekday {
        Some(days) => {
            push_str(text, "valid on: [");
            let ghost mid = text@;
            let mut k: usize = 0;
            assert(days@.take(0) =~= Seq::<Weekday>::empty());
            assert(mid =~= mid + days_text(days@.take(0)));
            while k < days.len()
                invariant
                    k <= days@.len(),
                    text@ == mid + days_text(days@.take(k as int)),
                decreases days@.len() - k,
            {
                push_str(text, day_name_exec(days[k]));
                push_str(text, ",");
                proof {
                    assert(days@.take(k + 1).drop_last() =~= days@.take(k as int));
                    assert(text@ =~= mid + days_text(days@.take(k + 1)));
                }
                k = k + 1;
            }
            assert(days@.take(k as int) =~= days@);
            push_str(text, "]\n");
            assert(text@ =~= old(text)@ + entry_days(alarm));
        },
        None => {
            assert(text@ =~= old(text)@ + entry_days(alarm));
        },
    }
}

fn push_period(text: &mut String, alarm: &Alarm)
    ensures
        final(text)@ == old(text)@ + entry_period(alarm),
{
    match alarm.period {
        Some(p) => {
            push_str(text, "cooldown: ");
            push_decimal(text, p);
            push_str(text, "s\n");
            assert(text@ =~= old(text)@ + entry_period(alarm));
        },
        None => {
            assert(text@ =~= old(text)@ + entry_period(alarm));
        },
    }
}

fn push_message(text: &mut String, alarm: &Alarm)
    ensures
        final(text)@ == old(text)@ + entry_message(alarm),
{
    match &alarm.message {
        Some(m) => {
            push_str(text, "message: ");
            push_str(text, m.as_str());
            push_str(text, "\n");
            assert(text@ =~= old(text)@ + entry_message(alarm));
        },
        None => {
            assert(text@ =~= old(text)@ + entry_message(alarm));
        },
    }
}

fn push_inverse(text: &mut String, alarm: &Alarm)
    requires
        listable(alarm),
    ensures
        final(text)@ == old(text)@ + entry_inverse(alarm),
{
    match &alarm.inv_expr {
        Some(inv) => {
            push_str(text, "reactivating if: ");
            let r = format_time_human_readable(inv.clone());
            push_str(text, r.as_str());
            push_str(text, "\n");
            assert(text@ =~= old(text)@ + entry_inverse(alarm));
        },
        None => {
            assert(text@ =~= old(text)@ + entry_inverse(alarm));
        },
    }
}

/// Why an `/alarm` command was refused.
pub enum AlarmError {
    NotEnoughArguments,
    NoAccessToField(FieldId),
    NoAccessToDataSet(DatasetId),
    IncorrectFieldSpecifier(String),
    NoExpression,
    IncorrectTimeUnit(String),
    ArgumentParseError,
    /// The condition is not a valid expression; the expression engine's explanation.
    ExpressionError(String),
    InvalidDay(String),
    InvalidSubCommand(String),
    TooManyAlarms,
    NotAnAlarmNumber(String),
    /// The alarm to remove was removed already.
    AlreadyRemoved,
    /// The alarm database failed.
    DatabaseError,
    /// The condition is longer than `MAX_CONDITION_LEN` characters.
    ConditionTooLong,
}

/// The most characters a condition may have. The expression engine builds its tree
/// recursively, one level for each nested operator, so a condition this short cannot
/// exhaust the stack.
pub const MAX_CONDITION_LEN: usize = 1000;

impl AlarmError {
    /// The message for the user.
    pub fn to_text(&self) -> (s: String)
        ensures
            s@ == match self {
                AlarmError::NotEnoughArguments => "Not enough arguments, usage: "@ + HELP_ADD@,
                AlarmError::ArgumentParseError => "One of the arguments could not be converted to a number\nuse: "@
                    + HELP_ADD@,
                AlarmError::NoAccessToField(f) => "You do not have access to field: "@
                    + decimal_repr(*f as nat),
                AlarmError::NoAccessToDataSet(d) => "You do not have access to dataset: "@
                    + decimal_repr(*d as nat),
                AlarmError::IncorrectFieldSpecifier(field) => "This \""@ + field@
                    + "\" is not a valid field specification, see the plotables command"@,
                AlarmError::NoExpression => "An alarm must have a condition, type /alarms for help"@,
                AlarmError::IncorrectTimeUnit(unit) => "This \""@ + unit@
                    + "\" is not a valid duration unit, options are s, m, h, d, w"@,
                AlarmError::ExpressionError(cause) => "I could not understand the alarms condition. Cause: "@
                    + cause@,
                AlarmError::InvalidDay(day) => "I could not understand what day this is: "@ + day@,
                AlarmError::InvalidSubCommand(input) => "not a sub command for alarms: "@ + input@,
                AlarmError::TooManyAlarms => "can not set more then 255 alarms"@,
                AlarmError::NotAnAlarmNumber(input) => "Could not recognise an alarm number in: "@
                    + input@,
                AlarmError::AlreadyRemoved => "alarm was already removed"@,
                AlarmError::DatabaseError => "internal error in database"@,
                AlarmError::ConditionTooLong => "The alarms condition is too long, it may have at most 1000 characters"@,
            },
    {
        let mut s = String::new();
        match self {
            AlarmError::NotEnoughArguments => {
                push_str(&mut s, "Not enough arguments, usage: ");
                push_str(&mut s, HELP_ADD);
            },
            AlarmError::ArgumentParseError => {
                push_str(&mut s, "One of the arguments could not be converted to a number\nuse: ");
                push_str(&mut s, HELP_ADD);
            },
            AlarmError::NoAccessToField(f) => {
                push_str(&mut s, "You do not have access to field: ");
                push_decimal(&mut s, *f as u64);
            },
            AlarmError::NoAccessToDataSet(d) => {
                push_str(&mut s, "You do not have access to dataset: ");
                push_decimal(&mut s, *d as u64);
            },
            AlarmError::IncorrectFieldSpecifier(field) => {
                push_str(&mut s, "This \"");
                push_str(&mut s, field.as_str());
                push_str(&mut s, "\" is not a valid field specification, see the plotables command");
            },
            AlarmError::NoExpression => {
                push_str(&mut s, "An alarm must have a condition, type /alarms for help");
            },
            AlarmError::IncorrectTimeUnit(unit) => {
                push_str(&mut s, "This \"");
                push_str(&mut s, unit.as_str());
                push_str(&mut s, "\" is not a valid duration unit, options are s, m, h, d, w");
            },
            AlarmError::ExpressionError(cause) => {
                push_str(&mut s, "I could not understand the alarms condition. Cause: ");
                push_str(&mut s, cause.as_str());
            },
            AlarmError::InvalidDay(day) => {
                push_str(&mut s, "I could not understand what day this is: ");
                push_str(&mut s, day.as_str());
            },
            AlarmError::InvalidSubCommand(input) => {
                push_str(&mut s, "not a sub command for alarms: ");
                push_str(&mut s, input.as_str());
            },
            AlarmError::TooManyAlarms => {
                push_str(&mut s, "can not set more then 255 alarms");
            },
            AlarmError::NotAnAlarmNumber(input) => {
                push_str(&mut s, "Could not recognise an alarm number in: ");
                push_str(&mut s, input.as_str());
            },
            AlarmError::AlreadyRemoved => {
                push_str(&mut s, "alarm was already removed");
            },
            AlarmError::DatabaseError => {
                push_str(&mut s, "internal error in database");
            },
            AlarmError::ConditionTooLong => {
                push_str(&mut s, "The alarms condition is too long, it may have at most 1000 characters");
            },
        }
        s
    }
}

/// The reply to an `/alarm` message with no known sub-command.
pub fn unknown_subcommand_text() -> (s: String)
    ensures
        s@ == "Could not recognise the subcommand, see documentation: \n"@ + HELP_LIST@ + "\n"@
            + HELP_ADD@ + "\n"@ + HELP_REMOVE@,
{
    let mut s = String::new();
    push_str(&mut s, "Could not recognise the subcommand, see documentation: \n");
    push_str(&mut s, HELP_LIST);
    push_str(&mut s, "\n");
    push_str(&mut s, HELP_ADD);
    push_str(&mut s, "\n");
    push_str(&mut s, HELP_REMOVE);
    s
}


/// What `evalexpr::build_operator_tree` makes of `text`: `None` where it builds an
/// expression tree, else the message of its error.
pub uninterp spec fn operator_tree_error(text: Seq<char>) -> Option<Seq<char>>;

/// `evalexpr::build_operator_tree`, for its verdict only: whether `text` is an
/// expression the engine can evaluate, and the message of its error where it is not.
/// Which texts it accepts is named, not stated. The engine builds the tree by recursion,
/// a level for each nested operator, so a long enough text would exhaust the stack; the
/// text is kept short.
#[verifier::external_body]
fn check_condition(text: &str) -> (r: Option<String>)
    requires
        text@.len() <= MAX_CONDITION_LEN,
    ensures
        match r {
            None => operator_tree_error(text@) is None,
            Some(e) => operator_tree_error(text@) == Some(e@),
        },
{
    match evalexpr::build_operator_tree::<evalexpr::DefaultNumericTypes>(text) {
        Ok(_) => None,
        Err(e) => Some(format!("{}", e)),
    }
}

/// Checks a new alarm before it is stored: the user may see every field its condition
/// reads, the condition is at most `MAX_CONDITION_LEN` characters long, and it is an
/// expression the engine can evaluate.
pub fn check_new_alarm(args: &crate::alarm_args::AlarmArguments, user: &crate::user::User) -> (r:
    Result<(), AlarmError>)
    ensures
        r is Ok ==> (forall|i: int|
            0 <= i < args.fields@.len() ==> crate::access::set_granted(
                #[trigger] args.fields@[i],
                crate::user::access_of(user),
            )) && args.expression@.len() <= MAX_CONDITION_LEN && operator_tree_error(
                args.expression@,
            ) is None,
        r matches Err(AlarmError::NoAccessToDataSet(s)) ==> !crate::user::access_of(
            user,
        ).contains_key(s),
        crate::user::access_sorted(user) ==> match crate::access::authorization(
            args.fields@,
            crate::user::access_of(user),
        ) {
            Err(crate::access::AccessError::NoAccessToDataSet(s)) => r matches Err(
                AlarmError::NoAccessToDataSet(t),
            ) && t == s,
            Err(crate::access::AccessError::NoAccessToField(f)) => r matches Err(
                AlarmError::NoAccessToField(g),
            ) && g == f,
            Ok(()) => if args.expression@.len() > MAX_CONDITION_LEN {
                r matches Err(AlarmError::ConditionTooLong)
            } else {
                match operator_tree_error(args.expression@) {
                    None => r is Ok,
                    Some(e) => r matches Err(AlarmError::ExpressionError(m)) && m@ == e,
                }
            },
        },
{
    match crate::access::authorized(args.fields.as_slice(), user) {
        Err(crate::access::AccessError::NoAccessToDataSet(s)) => {
            return Err(AlarmError::NoAccessToDataSet(s));
        },
        Err(crate::access::AccessError::NoAccessToField(f)) => {
            return Err(AlarmError::NoAccessToField(f));
        },
        Ok(()) => {},
    }
    if chars_of(args.expression.as_str()).len() > MAX_CONDITION_LEN {
        return Err(AlarmError::ConditionTooLong);
    }
    match check_condition(args.expression.as_str()) {
        None => Ok(()),
        Some(e) => Err(AlarmError::ExpressionError(e)),
    }
}

} // verus!
