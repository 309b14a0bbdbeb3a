//! The arguments of the `/alarm add` command: the condition, the days, the cool-down
//! period, the message, the command to run and the fields the condition reads; and the
//! rewriting of clock times in conditions to seconds since midnight and back.
use vstd::prelude::*;
use crate::access::{add_field, add_to_listing, sorted_listing};
use crate::data_store::{DatasetId, FieldId};
use crate::pattern::{
    digits_end, find_digits_end, find_first, find_last, find_line_end, first_index_of, holds_at,
    holds_lit, is_decimal_number, last_index_of, leftmost, lemma_digits_end, line_end,
};
use crate::text::{
    all_digits, chars_of, decimal_repr, decimal_value, digit_char, digit_value, is_digit, is_whitespace, is_ws,
    lemma_char_of_digit_value, lemma_decimal_repr, parse_unsigned, parse_unsigned_exec, push_char,
    push_chars, push_decimal, push_str, unsigned_digits,
};

verus! {

/// `e` holds a decimal digit at `k`.
pub open spec fn digit_at(e: Seq<char>, k: int) -> bool {
    0 <= k < e.len() && is_decimal_number(e[k])
}

/// `e` holds `c` at `k`.
pub open spec fn char_at(e: Seq<char>, k: int, c: char) -> bool {
    0 <= k < e.len() && e[k] == c
}

/// `e` holds an ASCII digit at `k`.
pub open spec fn ascii_digit_at(e: Seq<char>, k: int) -> bool {
    0 <= k < e.len() && '0' <= e[k] <= '9'
}

/// A clock time `h:mm` or `hh:mm` starting at `p` (hours of two digits preferred): its
/// length.
pub open spec fn time_at(e: Seq<char>, p: int) -> Option<int> {
    if digit_at(e, p) && digit_at(e, p + 1) && char_at(e, p + 2, ':') && digit_at(e, p + 3)
        && digit_at(e, p + 4) {
        Some(5)
    } else if digit_at(e, p) && char_at(e, p + 1, ':') && digit_at(e, p + 2) && digit_at(e, p + 3) {
        Some(4)
    } else {
        None
    }
}

/// The digits of the clock time of length `n` at `p` are ASCII digits, so that they can
/// be read as a number.
pub open spec fn time_ascii(e: Seq<char>, p: int, n: int) -> bool {
    if n == 5 {
        ascii_digit_at(e, p) && ascii_digit_at(e, p + 1) && ascii_digit_at(e, p + 3)
            && ascii_digit_at(e, p + 4)
    } else {
        ascii_digit_at(e, p) && ascii_digit_at(e, p + 2) && ascii_digit_at(e, p + 3)
    }
}

/// The seconds since midnight of the clock time of length `n` at `p`.
pub open spec fn time_seconds(e: Seq<char>, p: int, n: int) -> nat {
    if n == 5 {
        (10 * digit_value(e[p]) + digit_value(e[p + 1])) * 3600 + (10 * digit_value(e[p + 3])
            + digit_value(e[p + 4])) * 60
    } else {
        digit_value(e[p]) * 3600 + (10 * digit_value(e[p + 2]) + digit_value(e[p + 3])) * 60
    }
}

/// `e` from `p` on with every clock time replaced by the seconds since midnight it
/// names, the times found left to right without overlapping.
pub open spec fn seconds_text(e: Seq<char>, p: int) -> Seq<char>
    decreases e.len() - p,
{
    if p >= e.len() {
        Seq::empty()
    } else {
        match time_at(e, p) {
            Some(n) => decimal_repr(time_seconds(e, p, n)) + seconds_text(e, p + n),
            None => seq![e[p]] + seconds_text(e, p + 1),
        }
    }
}

/// Every clock time that `seconds_text` replaces in `e` from `p` on is written with
/// ASCII digits.
pub open spec fn times_readable(e: Seq<char>, p: int) -> bool
    decreases e.len() - p,
{
    if p >= e.len() {
        true
    } else {
        match time_at(e, p) {
            Some(n) => time_ascii(e, p, n) && times_readable(e, p + n),
            None => times_readable(e, p + 1),
        }
    }
}

fn digit_at_exec(e: &[char], k: usize) -> (b: bool)
    ensures
        b == digit_at(e@, k as int),
{
    k < e.len() && crate::pattern::decimal_number(e[k])
}

fn char_at_exec(e: &[char], k: usize, c: char) -> (b: bool)
    ensures
        b == char_at(e@, k as int, c),
{
    k < e.len() && e[k] == c
}

fn time_at_exec(e: &[char], p: usize) -> (r: Option<usize>)
    requires
        p < e@.len(),
    ensures
        r == match time_at(e@, p as int) {
            Some(n) => Some(n as usize),
            None => None::<usize>,
        },
{
    let len = e.len();
    assert(p < len);
    if digit_at_exec(e, p) && digit_at_exec(e, p + 1) && char_at_exec(e, p + 2, ':')
        && digit_at_exec(e, p + 3) && digit_at_exec(e, p + 4) {
        Some(5)
    } else if digit_at_exec(e, p) && char_at_exec(e, p + 1, ':') && digit_at_exec(e, p + 2)
        && digit_at_exec(e, p + 3) {
        Some(4)
    } else {
        None
    }
}

fn ascii_value(c: char) -> (v: u32)
    requires
        '0' <= c <= '9',
    ensures
        v == digit_value(c),
{
    (c as u32) - ('0' as u32)
}

/// Rewrites every clock time `h:mm` or `hh:mm` in `expression` to the number of seconds
/// since midnight it names.
pub fn format_time_to_seconds(expression: String) -> (r: String)
    requires
        times_readable(expression@, 0),
    ensures
        r@ == seconds_text(expression@, 0),
{
    let e = chars_of(expression.as_str());
    let mut out = String::new();
    let mut p: usize = 0;
    while p < e.len()
        invariant
            e@ == expression@,
            p <= e@.len(),
            times_readable(e@, p as int),
            seconds_text(e@, 0) == out@ + seconds_text(e@, p as int),
        decreases e@.len() - p,
    {
        match time_at_exec(e.as_slice(), p) {
            Some(n) => {
                let secs: u32 = if n == 5 {
                    (10 * ascii_value(e[p]) + ascii_value(e[p + 1])) * 3600 + (10 * ascii_value(
                        e[p + 3],
                    ) + ascii_value(e[p + 4])) * 60
                } else {
                    ascii_value(e[p]) * 3600 + (10 * ascii_value(e[p + 2]) + ascii_value(e[p + 3]))
                        * 60
                };
                let ghost before = out@;
                push_decimal(&mut out, secs as u64);
                proof {
                    assert(secs == time_seconds(e@, p as int, n as int));
                    assert(out@ + seconds_text(e@, p + n) =~= before + (decimal_repr(
                        time_seconds(e@, p as int, n as int),
                    ) + seconds_text(e@, p + n)));
                }
                p = p + n;
            },
            None => {
                let ghost before = out@;
                push_char(&mut out, e[p]);
                proof {
                    assert(out@ + seconds_text(e@, p + 1) =~= before + (seq![e@[p as int]]
                        + seconds_text(e@, p + 1)));
                }
                p = p + 1;
            },
        }
    }
    proof {
        assert(out@ + seconds_text(e@, p as int) =~= out@);
    }
    out
}


/// A number after an optional white space at `k`: where its digits start and end.
pub open spec fn number_at(s: Seq<char>, k: int) -> Option<(int, int)> {
    let k2 = if 0 <= k < s.len() && is_ws(s[k]) {
        k + 1
    } else {
        k
    };
    let end = digits_end(s, k2);
    if end > k2 {
        Some((k2, end))
    } else {
        None
    }
}

/// A comparison `<`, `>`, `>=` or `<=` at `k` (tried in that order) followed by a number:
/// the comparison's length and where the number's digits start and end.
pub open spec fn comparison_at(s: Seq<char>, k: int) -> Option<(int, int, int)> {
    let one = number_at(s, k + 1);
    let two = number_at(s, k + 2);
    if char_at(s, k, '<') && one is Some {
        with_length(1, one)
    } else if char_at(s, k, '>') && one is Some {
        with_length(1, one)
    } else if char_at(s, k, '>') && char_at(s, k + 1, '=') && two is Some {
        with_length(2, two)
    } else if char_at(s, k, '<') && char_at(s, k + 1, '=') && two is Some {
        with_length(2, two)
    } else {
        None
    }
}

pub open spec fn with_length(l: int, n: Option<(int, int)>) -> Option<(int, int, int)> {
    match n {
        Some((a, b)) => Some((l, a, b)),
        None => None,
    }
}

/// A condition on the time, `t` then an optional white space then a comparison, at `p`:
/// where the comparison starts, its length, and where the number's digits start and end.
pub open spec fn time_condition_at(s: Seq<char>, p: int) -> Option<(int, int, int, int)> {
    if !char_at(s, p, 't') {
        None
    } else if 0 <= p + 1 < s.len() && is_ws(s[p + 1]) && comparison_at(s, p + 2) is Some {
        match comparison_at(s, p + 2) {
            Some((l, a, b)) => Some((p + 2, l, a, b)),
            None => None,
        }
    } else {
        match comparison_at(s, p + 1) {
            Some(c) => Some((p + 1, c.0, c.1, c.2)),
            None => None,
        }
    }
}

/// `n` with at least two digits.
pub open spec fn two_digits(n: nat) -> Seq<char> {
    if n < 10 {
        seq!['0'] + decimal_repr(n)
    } else {
        decimal_repr(n)
    }
}

/// `hh:mm` for a number of seconds since midnight.
pub open spec fn clock_text(secs: nat) -> Seq<char> {
    two_digits(secs / 3600) + seq![':'] + two_digits((secs / 60) % 60)
}

/// `s` from `p` on with every time condition `t < 34440` written as `t < 09:34`.
pub open spec fn readable_text(s: Seq<char>, p: int) -> Seq<char>
    decreases s.len() - p,
{
    if p >= s.len() {
        Seq::empty()
    } else {
        match time_condition_at(s, p) {
            Some((o, l, a, b)) => if p < b <= s.len() {
                "t "@ + s.subrange(o, o + l) + seq![' '] + clock_text(
                    parse_unsigned(s.subrange(a, b), u32::MAX as nat)->0,
                ) + readable_text(s, b)
            } else {
                Seq::empty()
            },
            None => seq![s[p]] + readable_text(s, p + 1),
        }
    }
}

/// Every number of a time condition that `readable_text` rewrites fits in 32 bits and is
/// written with ASCII digits.
pub open spec fn conditions_readable(s: Seq<char>, p: int) -> bool
    decreases s.len() - p,
{
    if p >= s.len() {
        true
    } else {
        match time_condition_at(s, p) {
            Some((o, l, a, b)) => p < b <= s.len() && parse_unsigned(s.subrange(a, b), u32::MAX as nat) is Some
                && conditions_readable(s, b),
            None => conditions_readable(s, p + 1),
        }
    }
}

fn number_at_exec(s: &[char], k: usize) -> (r: Option<(usize, usize)>)
    requires
        k <= s@.len(),
    ensures
        r matches Some((a, b)) ==> number_at(s@, k as int) == Some((a as int, b as int)) && k <= a
            < b <= s@.len(),
        r is None ==> number_at(s@, k as int) is None,
{
    let k2 = if k < s.len() && is_whitespace(s[k]) {
        k + 1
    } else {
        k
    };
    let end = find_digits_end(s, k2);
    proof {
        lemma_digits_end(s@, k2 as int);
    }
    if end > k2 {
        Some((k2, end))
    } else {
        None
    }
}

fn comparison_at_exec(s: &[char], k: usize) -> (r: Option<(usize, usize, usize)>)
    requires
        k <= s@.len(),
    ensures
        r matches Some((l, a, b)) ==> comparison_at(s@, k as int) == Some(
            (l as int, a as int, b as int),
        ) && k < a < b <= s@.len() && k + l <= a,
        r is None ==> comparison_at(s@, k as int) is None,
{
    if k >= s.len() {
        return None;
    }
    if s[k] == '<' {
        if let Some((a, b)) = number_at_exec(s, k + 1) {
            return Some((1, a, b));
        }
    }
    if s[k] == '>' {
        if let Some((a, b)) = number_at_exec(s, k + 1) {
            return Some((1, a, b));
        }
    }
    if k + 1 < s.len() && s[k] == '>' && s[k + 1] == '=' {
        if let Some((a, b)) = number_at_exec(s, k + 2) {
            return Some((2, a, b));
        }
    }
    if k + 1 < s.len() && s[k] == '<' && s[k + 1] == '=' {
        if let Some((a, b)) = number_at_exec(s, k + 2) {
            return Some((2, a, b));
        }
    }
    None
}

pub(crate) fn time_condition_at_exec(s: &[char], p: usize) -> (r: Option<(usize, usize, usize, usize)>)
    requires
        p < s@.len(),
    ensures
        r matches Some((o, l, a, b)) ==> time_condition_at(s@, p as int) == Some(
            (o as int, l as int, a as int, b as int),
        ) && p < o && o + l <= a && a < b <= s@.len(),
        r is None ==> time_condition_at(s@, p as int) is None,
{
    if s[p] != 't' {
        return None;
    }
    if p + 1 < s.len() && is_whitespace(s[p + 1]) {
        if let Some((l, a, b)) = comparison_at_exec(s, p + 2) {
            return Some((p + 2, l, a, b));
        }
    }
    match comparison_at_exec(s, p + 1) {
        Some((l, a, b)) => Some((p + 1, l, a, b)),
        None => None,
    }
}

fn push_two_digits(out: &mut String, n: u32)
    ensures
        final(out)@ == old(out)@ + two_digits(n as nat),
{
    if n < 10 {
        push_char(out, '0');
    }
    let ghost mid = out@;
    push_decimal(out, n as u64);
    assert(final(out)@ =~= old(out)@ + two_digits(n as nat));
}

/// Rewrites every time condition `t < 34440` in `expression`, the number counting
/// seconds since midnight, to the clock time it names: `t < 09:34`.
pub fn format_time_human_readable(expression: String) -> (r: String)
    requires
        conditions_readable(expression@, 0),
    ensures
        r@ == readable_text(expression@, 0),
{
    let s = chars_of(expression.as_str());
    let mut out = String::new();
    let mut p: usize = 0;
    while p < s.len()
        invariant
            s@ == expression@,
            p <= s@.len(),
            conditions_readable(s@, p as int),
            readable_text(s@, 0) == out@ + readable_text(s@, p as int),
        decreases s@.len() - p,
    {
        match time_condition_at_exec(s.as_slice(), p) {
            Some((o, l, a, b)) => {
                let digits = slice(&s, a, b);
                proof {
                    assert(time_condition_at(s@, p as int) == Some(
                        (o as int, l as int, a as int, b as int),
                    ));
                    assert(parse_unsigned(digits@, u32::MAX as nat) is Some);
                }
                let parsed = parse_unsigned_exec(digits.as_slice(), u32::MAX as u64);
                let v64: u64 = match parsed {
                    Some(v) => v,
                    None => 0,
                };
                assert(v64 <= u32::MAX);
                let secs = v64 as u32;
                let op = slice(&s, o, o + l);
                let ghost before = out@;
                push_str(&mut out, "t ");
                push_chars(&mut out, op.as_slice());
                push_char(&mut out, ' ');
                push_two_digits(&mut out, secs / 3600);
                push_char(&mut out, ':');
                push_two_digits(&mut out, (secs / 60) % 60);
                proof {
                    let v = parse_unsigned(s@.subrange(a as int, b as int), u32::MAX as nat)->0;
                    assert(v == secs);
                    assert(out@ =~= before + ("t "@ + s@.subrange(o as int, o + l) + seq![' ']
                        + clock_text(v)));
                    assert(out@ + readable_text(s@, b as int) =~= before + ("t "@ + s@.subrange(
                        o as int,
                        o + l,
                    ) + seq![' '] + clock_text(v) + readable_text(s@, b as int)));
                }
                p = b;
            },
            None => {
                let ghost before = out@;
                push_char(&mut out, s[p]);
                proof {
                    assert(out@ + readable_text(s@, p + 1) =~= before + (seq![s@[p as int]]
                        + readable_text(s@, p + 1)));
                }
                p = p + 1;
            },
        }
    }
    proof {
        assert(out@ + readable_text(s@, p as int) =~= out@);
    }
    out
}

/// White space is no decimal digit.
proof fn lemma_ws_not_digit(c: char)
    requires
        is_ws(c),
    ensures
        !is_decimal_number(c),
{
}

/// A run of decimal digits from `i` to the end ends at the end.
proof fn lemma_digits_to_end(s: Seq<char>, i: int)
    requires
        0 <= i <= s.len(),
        forall|j: int| i <= j < s.len() ==> is_decimal_number(#[trigger] s[j]),
    ensures
        digits_end(s, i) == s.len(),
    decreases s.len() - i,
{
    if i < s.len() {
        lemma_digits_to_end(s, i + 1);
    }
}

/// Where no clock time starts between `q` and `k`, `seconds_text` copies that stretch.
proof fn lemma_seconds_text_copies(e: Seq<char>, q: int, k: int)
    requires
        0 <= q <= k <= e.len(),
        forall|j: int| q <= j < k ==> #[trigger] time_at(e, j) is None,
    ensures
        seconds_text(e, q) == e.subrange(q, k) + seconds_text(e, k),
    decreases k - q,
{
    if q < k {
        lemma_seconds_text_copies(e, q + 1, k);
        assert(e.subrange(q, k) =~= seq![e[q]] + e.subrange(q + 1, k));
    } else {
        assert(e.subrange(q, k) =~= Seq::<char>::empty());
    }
}

/// Where no clock time starts between `q` and `k`, whether the clock times from `q` on
/// can be read is decided from `k` on.
proof fn lemma_times_readable_copies(e: Seq<char>, q: int, k: int)
    requires
        0 <= q <= k <= e.len(),
        forall|j: int| q <= j < k ==> #[trigger] time_at(e, j) is None,
    ensures
        times_readable(e, q) == times_readable(e, k),
    decreases k - q,
{
    if q < k {
        lemma_times_readable_copies(e, q + 1, k);
    }
}

/// A clock time `hh:mm` written with ASCII digits, with fewer than sixty minutes.
pub open spec fn plain_clock_time(time: Seq<char>) -> bool {
    &&& time.len() == 5
    &&& is_digit(time[0])
    &&& is_digit(time[1])
    &&& time[2] == ':'
    &&& is_digit(time[3])
    &&& is_digit(time[4])
    &&& 10 * digit_value(time[3]) + digit_value(time[4]) < 60
}

/// Two ASCII digits `a` `b` are `two_digits` of the number they spell.
proof fn lemma_two_digits(a: char, b: char)
    requires
        is_digit(a),
        is_digit(b),
    ensures
        two_digits(10 * digit_value(a) + digit_value(b)) == seq![a, b],
{
    let x = digit_value(a);
    let y = digit_value(b);
    lemma_char_of_digit_value(a);
    lemma_char_of_digit_value(b);
    let n = 10 * x + y;
    if n < 10 {
        assert(x == 0);
        assert(a == digit_char(0));
        assert(two_digits(n) =~= seq![a, b]);
    } else {
        assert(n / 10 == x && n % 10 == y);
        assert(decimal_repr(x) == seq![digit_char(x)]);
        assert(decimal_repr(n) =~= seq![a, b]);
    }
}

/// The seconds since midnight of a clock time `hh:mm` are written back as `hh:mm`.
proof fn lemma_clock_text_of_time(e: Seq<char>, k: int, time: Seq<char>)
    requires
        plain_clock_time(time),
        0 <= k,
        k + 5 <= e.len(),
        e.subrange(k, k + 5) == time,
    ensures
        clock_text(time_seconds(e, k, 5)) == time,
{
    assert(e[k] == time[0] && e[k + 1] == time[1] && e[k + 3] == time[3] && e[k + 4] == time[4]);
    let h = 10 * digit_value(time[0]) + digit_value(time[1]);
    let m = 10 * digit_value(time[3]) + digit_value(time[4]);
    let secs = time_seconds(e, k, 5);
    assert(secs == h * 3600 + m * 60);
    assert(secs / 3600 == h && (secs / 60) % 60 == m) by (nonlinear_arith)
        requires
            secs == h * 3600 + m * 60,
            0 <= m < 60,
            0 <= h,
    ;
    lemma_two_digits(time[0], time[1]);
    lemma_two_digits(time[3], time[4]);
    assert(clock_text(secs) =~= time);
}

/// The comparison `op` at `o` in `s`, followed by an optional white space `ws` and
/// then by decimal digits up to the end of `s` from `a` on, is found as such.
proof fn lemma_comparison_found(s: Seq<char>, o: int, op: Seq<char>, ws: Seq<char>, a: int)
    requires
        op == "<"@ || op == ">"@ || op == "<="@ || op == ">="@,
        ws.len() == 0 || (ws.len() == 1 && is_ws(ws[0])),
        0 <= o,
        a == o + op.len() + ws.len(),
        a < s.len(),
        s.subrange(o, a) == op + ws,
        forall|j: int| a <= j < s.len() ==> is_decimal_number(#[trigger] s[j]),
    ensures
        comparison_at(s, o) == Some((op.len() as int, a, s.len() as int)),
{
    reveal_strlit("<");
    reveal_strlit(">");
    reveal_strlit("<=");
    reveal_strlit(">=");
    lemma_digits_to_end(s, a);
    let l = op.len() as int;
    assert(s.subrange(o, a)[0] == s[o] && (op + ws)[0] == op[0]);
    if l == 2 {
        assert(s.subrange(o, a)[1] == s[o + 1] && (op + ws)[1] == op[1]);
        assert(s[o + 1] == '=');
        assert(!is_ws(s[o + 1]) && !is_decimal_number(s[o + 1]));
        assert(digits_end(s, o + 1) == o + 1);
        assert(number_at(s, o + 1) is None);
    }
    if ws.len() == 1 {
        assert(s.subrange(o, a)[l] == s[o + l] && (op + ws)[l] == ws[0]);
    } else {
        assert(s[o + l] == s[a]);
        assert(!is_ws(s[a])) by {
            if is_ws(s[a]) {
                lemma_ws_not_digit(s[a]);
            }
        }
    }
    assert(number_at(s, o + l) == Some((a, s.len() as int)));
}

/// The seconds since midnight of a clock time `hh:mm`.
pub open spec fn clock_seconds(time: Seq<char>) -> nat {
    time_seconds(time, 0, 5)
}

/// The start of a time condition, `t`, an optional white space, a comparison and an
/// optional white space.
pub open spec fn condition_head(ws1: Seq<char>, op: Seq<char>, ws2: Seq<char>) -> bool {
    &&& ws1.len() == 0 || (ws1.len() == 1 && is_ws(ws1[0]))
    &&& ws2.len() == 0 || (ws2.len() == 1 && is_ws(ws2[0]))
    &&& op == "<"@ || op == ">"@ || op == "<="@ || op == ">="@
}

/// Text before a time condition that holds no `t` and no `:`, so that neither rewriting
/// finds anything in it.
pub open spec fn plain_lead(lead: Seq<char>) -> bool {
    forall|i: int| 0 <= i < lead.len() ==> (#[trigger] lead[i]) != 't' && lead[i] != ':'
}

/// Where no time condition starts between `q` and `k`, `readable_text` copies that
/// stretch, and whether the conditions can be read is decided from `k` on.
proof fn lemma_readable_text_copies(s: Seq<char>, q: int, k: int)
    requires
        0 <= q <= k <= s.len(),
        forall|j: int| q <= j < k ==> #[trigger] time_condition_at(s, j) is None,
    ensures
        readable_text(s, q) == s.subrange(q, k) + readable_text(s, k),
        conditions_readable(s, q) == conditions_readable(s, k),
    decreases k - q,
{
    if q < k {
        lemma_readable_text_copies(s, q + 1, k);
        assert(s.subrange(q, k) =~= seq![s[q]] + s.subrange(q + 1, k));
    } else {
        assert(s.subrange(q, k) =~= Seq::<char>::empty());
    }
}

/// In a time condition on a clock time, after plain text, only the clock time is
/// rewritten to seconds.
proof fn lemma_condition_to_seconds(
    lead: Seq<char>,
    ws1: Seq<char>,
    op: Seq<char>,
    ws2: Seq<char>,
    time: Seq<char>,
)
    requires
        plain_lead(lead),
        condition_head(ws1, op, ws2),
        plain_clock_time(time),
    ensures
        seconds_text(lead + "t"@ + ws1 + op + ws2 + time, 0) == lead + "t"@ + ws1 + op + ws2
            + decimal_repr(clock_seconds(time)),
        times_readable(lead + "t"@ + ws1 + op + ws2 + time, 0),
{
    reveal_strlit("t");
    reveal_strlit("<");
    reveal_strlit(">");
    reveal_strlit("<=");
    reveal_strlit(">=");
    let pre = lead + "t"@ + ws1 + op + ws2;
    let e = pre + time;
    let l = lead.len() as int;
    let k = pre.len() as int;
    assert(e =~= lead + "t"@ + ws1 + op + ws2 + time);
    assert forall|j: int| l <= j < k implies !is_decimal_number(#[trigger] e[j]) by {
        assert(e[j] == pre[j]);
        if j == l {
        } else if j < l + 1 + ws1.len() {
            assert(pre[j] == ws1[j - l - 1]);
            lemma_ws_not_digit(ws1[j - l - 1]);
        } else if j < l + 1 + ws1.len() + op.len() {
            assert(pre[j] == op[j - l - 1 - ws1.len()]);
        } else {
            assert(pre[j] == ws2[j - l - 1 - ws1.len() - op.len()]);
            lemma_ws_not_digit(ws2[j - l - 1 - ws1.len() - op.len()]);
        }
    }
    assert(e[l] == 't');
    assert(e[l + 1] != ':') by {
        if ws1.len() == 1 {
            assert(e[l + 1] == ws1[0]);
        } else {
            assert(e[l + 1] == op[0]);
        }
    }
    assert forall|j: int| 0 <= j < k implies #[trigger] time_at(e, j) is None by {
        if j < l {
            assert(e[j + 1] != ':') by {
                if j + 1 < l {
                    assert(e[j + 1] == lead[j + 1]);
                }
            }
            assert(e[j + 2] != ':') by {
                if j + 2 < l {
                    assert(e[j + 2] == lead[j + 2]);
                }
            }
        } else {
            assert(!digit_at(e, j));
        }
    }
    lemma_seconds_text_copies(e, 0, k);
    lemma_times_readable_copies(e, 0, k);
    assert(forall|i: int| 0 <= i < 5 ==> e[k + i] == time[i]);
    assert(times_readable(e, k + 5));
    assert(time_ascii(e, k, 5));
    assert(time_at(e, k) == Some(5int));
    assert(time_seconds(e, k, 5) == clock_seconds(time));
    assert(seconds_text(e, k + 5) == Seq::<char>::empty());
    assert(e.subrange(0, k) =~= pre);
    assert(seconds_text(e, 0) =~= pre + decimal_repr(clock_seconds(time)));
}

/// A time condition on a number of seconds, after plain text, is rewritten to one on the
/// clock time.
proof fn lemma_condition_to_clock(
    lead: Seq<char>,
    ws1: Seq<char>,
    op: Seq<char>,
    ws2: Seq<char>,
    d: Seq<char>,
)
    requires
        plain_lead(lead),
        condition_head(ws1, op, ws2),
        d.len() > 0,
        all_digits(d),
        decimal_value(d) <= u32::MAX,
    ensures
        readable_text(lead + "t"@ + ws1 + op + ws2 + d, 0) == lead + "t "@ + op + " "@ + clock_text(
            decimal_value(d),
        ),
        conditions_readable(lead + "t"@ + ws1 + op + ws2 + d, 0),
{
    reveal_strlit("t");
    reveal_strlit("<");
    reveal_strlit(">");
    reveal_strlit("<=");
    reveal_strlit(">=");
    let s = lead + "t"@ + ws1 + op + ws2 + d;
    let l = lead.len() as int;
    let k = s.len() - d.len();
    let b = s.len() as int;
    assert forall|j: int| k <= j < b implies is_decimal_number(#[trigger] s[j]) by {
        assert(s[j] == d[j - k]);
        assert(is_digit(d[j - k]));
    }
    assert forall|j: int| 0 <= j < l implies #[trigger] time_condition_at(s, j) is None by {
        assert(s[j] == lead[j]);
    }
    lemma_readable_text_copies(s, 0, l);
    assert(s.subrange(0, l) =~= lead);
    let o = l + 1 + ws1.len() as int;
    let a = o + op.len() + ws2.len();
    assert(a == k);
    assert(s.subrange(o, a) =~= op + ws2);
    lemma_comparison_found(s, o, op, ws2, a);
    assert(s[l] == 't');
    if ws1.len() == 1 {
        assert(s[l + 1] == ws1[0]);
    } else {
        assert(s[l + 1] == op[0]);
        assert(!is_ws(s[l + 1]));
    }
    assert(time_condition_at(s, l) == Some((o, op.len() as int, a, b)));
    assert(s.subrange(a, b) =~= d);
    assert(unsigned_digits(d) == d) by {
        assert(is_digit(d[0]));
    }
    assert(parse_unsigned(d, u32::MAX as nat) == Some(decimal_value(d)));
    assert(readable_text(s, b) == Seq::<char>::empty());
    assert(conditions_readable(s, b));
    assert(s.subrange(o, o + op.len()) =~= op);
    reveal_strlit("t ");
    reveal_strlit(" ");
    assert(readable_text(s, l) == "t "@ + s.subrange(o, o + op.len()) + seq![' '] + clock_text(
        parse_unsigned(s.subrange(a, b), u32::MAX as nat)->0,
    ) + readable_text(s, b));
    assert(readable_text(s, 0) =~= lead + "t "@ + op + " "@ + clock_text(decimal_value(d)));
}

/// A time condition on a clock time `hh:mm`, after any text that holds no `t` and no `:`
/// (such as other conditions on fields), comes back as it was written, with one space
/// around the comparison, when its clock time is rewritten to seconds since midnight and
/// those back to the clock time; both rewritings accept it.
pub proof fn lemma_time_condition_round_trip(
    lead: Seq<char>,
    ws1: Seq<char>,
    op: Seq<char>,
    ws2: Seq<char>,
    time: Seq<char>,
)
    requires
        plain_lead(lead),
        condition_head(ws1, op, ws2),
        plain_clock_time(time),
    ensures
        times_readable(lead + "t"@ + ws1 + op + ws2 + time, 0),
        conditions_readable(seconds_text(lead + "t"@ + ws1 + op + ws2 + time, 0), 0),
        readable_text(seconds_text(lead + "t"@ + ws1 + op + ws2 + time, 0), 0) == lead + "t "@
            + op + " "@ + time,
{
    lemma_condition_to_seconds(lead, ws1, op, ws2, time);
    let secs = clock_seconds(time);
    lemma_decimal_repr(secs);
    assert(secs <= u32::MAX);
    lemma_condition_to_clock(lead, ws1, op, ws2, decimal_repr(secs));
    assert(time.subrange(0, 5) =~= time);
    lemma_clock_text_of_time(time, 0, time);
}


/// `v[from..to]`.
pub fn slice(v: &Vec<char>, from: usize, to: usize) -> (out: Vec<char>)
    requires
        from <= to <= v@.len(),
    ensures
        out@ == v@.subrange(from as int, to as int),
{
    let mut out: Vec<char> = Vec::new();
    let mut i: usize = from;
    while i < to
        invariant
            from <= i <= to,
            to <= v@.len(),
            out@ == v@.subrange(from as int, i as int),
        decreases to - i,
    {
        out.push(v[i]);
        i = i + 1;
        assert(out@ =~= v@.subrange(from as int, i as int));
    }
    out
}


/// The days of the week.
#[derive(PartialEq, Eq, Structural, Clone, Copy, Debug)]
pub enum Weekday {
    Mon,
    Tue,
    Wed,
    Thu,
    Fri,
    Sat,
    Sun,
}

/// `c` with an ASCII capital made small.
pub open spec fn ascii_lower(c: char) -> char {
    if 'A' <= c <= 'Z' {
        ((c as u32) + 32) as char
    } else {
        c
    }
}

/// `s` is `name`, ASCII letters compared without regard to case.
pub open spec fn same_ignoring_case(s: Seq<char>, name: Seq<char>) -> bool {
    s.len() == name.len() && forall|i: int| 0 <= i < s.len() ==> ascii_lower(#[trigger] s[i]) == name[i]
}

/// The day that `s` names in English, in full or by its first three letters, in any case.
pub open spec fn weekday_named(s: Seq<char>) -> Option<Weekday> {
    if same_ignoring_case(s, "mon"@) || same_ignoring_case(s, "monday"@) {
        Some(Weekday::Mon)
    } else if same_ignoring_case(s, "tue"@) || same_ignoring_case(s, "tuesday"@) {
        Some(Weekday::Tue)
    } else if same_ignoring_case(s, "wed"@) || same_ignoring_case(s, "wednesday"@) {
        Some(Weekday::Wed)
    } else if same_ignoring_case(s, "thu"@) || same_ignoring_case(s, "thursday"@) {
        Some(Weekday::Thu)
    } else if same_ignoring_case(s, "fri"@) || same_ignoring_case(s, "friday"@) {
        Some(Weekday::Fri)
    } else if same_ignoring_case(s, "sat"@) || same_ignoring_case(s, "saturday"@) {
        Some(Weekday::Sat)
    } else if same_ignoring_case(s, "sun"@) || same_ignoring_case(s, "sunday"@) {
        Some(Weekday::Sun)
    } else {
        None
    }
}

/// `str::parse::<chrono::Weekday>`: by chrono's source, the text must be a day's
/// three-letter abbreviation, optionally followed by the rest of its English name,
/// ASCII letters in any case, and nothing else.
#[verifier::external_body]
fn parse_weekday(s: &str) -> (r: Option<Weekday>)
    ensures
        r == weekday_named(s@),
{
    match s.parse::<chrono::Weekday>() {
        Ok(chrono::Weekday::Mon) => Some(Weekday::Mon),
        Ok(chrono::Weekday::Tue) => Some(Weekday::Tue),
        Ok(chrono::Weekday::Wed) => Some(Weekday::Wed),
        Ok(chrono::Weekday::Thu) => Some(Weekday::Thu),
        Ok(chrono::Weekday::Fri) => Some(Weekday::Fri),
        Ok(chrono::Weekday::Sat) => Some(Weekday::Sat),
        Ok(chrono::Weekday::Sun) => Some(Weekday::Sun),
        Err(_) => None,
    }
}

/// The number of bytes `c` takes in UTF-8.
pub open spec fn char_utf8_len(c: char) -> nat {
    if (c as u32) < 0x80 {
        1
    } else if (c as u32) < 0x800 {
        2
    } else if (c as u32) < 0x10000 {
        3
    } else {
        4
    }
}

/// The number of bytes `s` takes in UTF-8.
pub open spec fn utf8_len(s: Seq<char>) -> nat
    decreases s.len(),
{
    if s.len() == 0 {
        0
    } else {
        utf8_len(s.drop_last()) + char_utf8_len(s.last())
    }
}

/// Whether `s` takes more than five bytes in UTF-8.
fn longer_than_five_bytes(s: &Vec<char>) -> (b: bool)
    ensures
        b == (utf8_len(s@) > 5),
{
    let mut n: usize = 0;
    let mut i: usize = 0;
    while i < s.len()
        invariant
            i <= s@.len(),
            n <= 5,
            n == utf8_len(s@.take(i as int)),
        decreases s@.len() - i,
    {
        let c = s[i];
        let w: usize = if (c as u32) < 0x80 {
            1
        } else if (c as u32) < 0x800 {
            2
        } else if (c as u32) < 0x10000 {
            3
        } else {
            4
        };
        assert(s@.take(i + 1).drop_last() =~= s@.take(i as int));
        if n + w > 5 {
            proof {
                lemma_utf8_len_prefix(s@, i + 1);
            }
            return true;
        }
        n = n + w;
        i = i + 1;
    }
    assert(s@.take(i as int) =~= s@);
    false
}

proof fn lemma_utf8_len_prefix(s: Seq<char>, k: int)
    requires
        0 <= k <= s.len(),
    ensures
        utf8_len(s.take(k)) <= utf8_len(s),
    decreases s.len() - k,
{
    if k < s.len() {
        lemma_utf8_len_prefix(s, k + 1);
        assert(s.take(k + 1).drop_last() =~= s.take(k));
    } else {
        assert(s.take(k) =~= s);
    }
}

/// A piece of a day list is read when it takes more than five bytes: then it must name a
/// day, and that day joins the days the rest of the list names; else the piece is
/// ignored.
pub open spec fn with_piece(piece: Seq<char>, rest: Result<Set<Weekday>, Seq<char>>) -> Result<
    Set<Weekday>,
    Seq<char>,
> {
    if utf8_len(piece) <= 5 {
        rest
    } else {
        match weekday_named(piece) {
            None => Err(piece),
            Some(d) => match rest {
                Ok(days) => Ok(days.insert(d)),
                Err(e) => Err(e),
            },
        }
    }
}

pub open spec fn is_day_separator(c: char) -> bool {
    c == ',' || c == ' '
}

/// The days the list `c` names from `i` on, `cur` being the piece read so far: the list
/// is cut at each comma and space; or the first piece read that names no day.
pub open spec fn days_from(c: Seq<char>, i: int, cur: Seq<char>) -> Result<Set<Weekday>, Seq<char>>
    decreases c.len() - i,
{
    if i >= c.len() {
        with_piece(cur, Ok(Set::empty()))
    } else if is_day_separator(c[i]) {
        with_piece(cur, days_from(c, i + 1, Seq::empty()))
    } else {
        days_from(c, i + 1, cur.push(c[i]))
    }
}

/// `days` joined to the days of a list, or the list's fault.
pub open spec fn join_days(days: Set<Weekday>, r: Result<Set<Weekday>, Seq<char>>) -> Result<
    Set<Weekday>,
    Seq<char>,
> {
    match r {
        Ok(s) => Ok(s + days),
        Err(e) => Err(e),
    }
}

/// Reads a day list: the days it names, each once, or the first piece that names none.
pub fn read_days(c: &Vec<char>) -> (r: Result<Vec<Weekday>, String>)
    ensures
        match days_from(c@, 0, Seq::empty()) {
            Ok(days) => r matches Ok(v) && v@.to_set() == days,
            Err(piece) => r matches Err(p) && p@ == piece,
        },
{
    let mut days: Vec<Weekday> = Vec::new();
    let mut cur: Vec<char> = Vec::new();
    let mut i: usize = 0;
    assert(days@.to_set() =~= Set::<Weekday>::empty());
    proof {
        match days_from(c@, 0, Seq::empty()) {
            Ok(s) => {
                assert(s + Set::<Weekday>::empty() =~= s);
            },
            Err(_) => {},
        }
        assert(cur@ =~= Seq::<char>::empty());
    }
    while i < c.len()
        invariant
            i <= c@.len(),
            days_from(c@, 0, Seq::empty()) == join_days(
                days@.to_set(),
                days_from(c@, i as int, cur@),
            ),
        decreases c@.len() - i,
    {
        if c[i] == ',' || c[i] == ' ' {
            match take_piece(&cur, &mut days) {
                Err(p) => {
                    return Err(p);
                },
                Ok(()) => {},
            }
            cur = Vec::new();
        } else {
            cur.push(c[i]);
        }
        i = i + 1;
    }
    match take_piece(&cur, &mut days) {
        Err(p) => Err(p),
        Ok(()) => {
            assert(Set::<Weekday>::empty() + days@.to_set() =~= days@.to_set());
            Ok(days)
        },
    }
}

/// Reads one piece of a day list into `days`, or gives it back where it names no day.
fn take_piece(cur: &Vec<char>, days: &mut Vec<Weekday>) -> (r: Result<(), String>)
    ensures
        forall|rest: Result<Set<Weekday>, Seq<char>>|
            match r {
                Ok(()) => join_days(old(days)@.to_set(), #[trigger] with_piece(cur@, rest))
                    == join_days(final(days)@.to_set(), rest),
                Err(p) => p@ == cur@ && join_days(old(days)@.to_set(), with_piece(cur@, rest))
                    == Err::<Set<Weekday>, Seq<char>>(cur@),
            },
{
    if !longer_than_five_bytes(cur) {
        assert forall|rest: Result<Set<Weekday>, Seq<char>>|
            join_days(old(days)@.to_set(), #[trigger] with_piece(cur@, rest)) == join_days(
                days@.to_set(),
                rest,
            ) by {}
        return Ok(());
    }
    let piece = crate::text::string_of(cur.as_slice());
    match parse_weekday(piece.as_str()) {
        None => Err(piece),
        Some(d) => {
            let ghost before = days@.to_set();
            if !contains_day(days, d) {
                days.push(d);
                proof {
                    assert(days@.to_set() =~= before.insert(d)) by {
                        assert forall|x: Weekday| #[trigger] days@.contains(x) <==> (old(days)@.contains(x) || x == d) by {
                            if days@.contains(x) {
                                let k = choose|k: int| 0 <= k < days@.len() && days@[k] == x;
                                if k < old(days)@.len() {
                                    assert(old(days)@[k] == x);
                                }
                            }
                            if old(days)@.contains(x) {
                                let k = choose|k: int| 0 <= k < old(days)@.len() && old(days)@[k] == x;
                                assert(days@[k] == x);
                            }
                            if x == d {
                                assert(days@[days@.len() - 1] == d);
                            }
                        }
                    }
                }
            } else {
                proof {
                    assert(before.contains(d));
                    assert(before.insert(d) =~= before);
                }
            }
            proof {
                assert forall|rest: Result<Set<Weekday>, Seq<char>>|
                    join_days(before, #[trigger] with_piece(cur@, rest)) == join_days(
                        days@.to_set(),
                        rest,
                    ) by {
                    match rest {
                        Ok(s) => {
                            assert(s.insert(d) + before =~= s + before.insert(d));
                        },
                        Err(_) => {},
                    }
                }
            }
            Ok(())
        },
    }
}

fn contains_day(days: &Vec<Weekday>, d: Weekday) -> (b: bool)
    ensures
        b == days@.to_set().contains(d),
{
    let mut k: usize = 0;
    while k < days.len()
        invariant
            k <= days@.len(),
            forall|m: int| 0 <= m < k ==> days@[m] != d,
        decreases days@.len() - k,
    {
        if days[k] == d {
            assert(days@.contains(d));
            return true;
        }
        k = k + 1;
    }
    false
}


/// `s` holds the option name `-c ` or `-m ` just before `i`.
pub open spec fn after_option(s: Seq<char>, i: int) -> bool {
    holds_at(s, i - 3, "-c "@) || holds_at(s, i - 3, "-m "@)
}

/// At `i`, the condition: a text in double quotes on one line, its opening quote at the
/// start or after white space, that is not the value of a `-c` or `-m` option. The index
/// of its closing quote, the first one after it.
pub open spec fn quoted_at(s: Seq<char>, i: int) -> Option<int> {
    if char_at(s, i, '"') && (i == 0 || is_ws(s[i - 1])) && !after_option(s, i) {
        first_index_of(s, '"', i + 1, line_end(s, i + 1))
    } else {
        None
    }
}

pub open spec fn quoted_search() -> spec_fn(Seq<char>, int) -> Option<int> {
    |t: Seq<char>, i: int| quoted_at(t, i)
}

/// At `i`, a day list `-d [...]` on one line: the index of its closing bracket, the last
/// one on the line.
pub open spec fn day_list_at(s: Seq<char>, i: int) -> Option<int> {
    if holds_at(s, i, "-d ["@) {
        last_index_of(s, ']', i + 5, line_end(s, i + 4))
    } else {
        None
    }
}

pub open spec fn day_list_search() -> spec_fn(Seq<char>, int) -> Option<int> {
    |t: Seq<char>, i: int| day_list_at(t, i)
}

pub open spec fn is_unit(c: char) -> bool {
    c == 's' || c == 'm' || c == 'h' || c == 'd' || c == 'w'
}

/// The seconds in one of a time unit: second, minute, hour, day or week.
pub open spec fn unit_seconds(c: char) -> nat {
    if c == 's' {
        1
    } else if c == 'm' {
        60
    } else if c == 'h' {
        3600
    } else if c == 'd' {
        86400
    } else {
        604800
    }
}

/// At `i`, a period `-p <digits><unit>`: the index of its unit.
pub open spec fn period_at(s: Seq<char>, i: int) -> Option<int> {
    if holds_at(s, i, "-p "@) {
        let k = digits_end(s, i + 3);
        if k > i + 3 && k < s.len() && is_unit(s[k]) {
            Some(k)
        } else {
            None
        }
    } else {
        None
    }
}

pub open spec fn period_search() -> spec_fn(Seq<char>, int) -> Option<int> {
    |t: Seq<char>, i: int| period_at(t, i)
}

/// At `i`, a message `-m "..."` on one line: the index of its closing quote, the first
/// one after the opening quote.
pub open spec fn message_at(s: Seq<char>, i: int) -> Option<int> {
    if holds_at(s, i, "-m \""@) {
        first_index_of(s, '"', i + 4, line_end(s, i + 4))
    } else {
        None
    }
}

pub open spec fn message_search() -> spec_fn(Seq<char>, int) -> Option<int> {
    |t: Seq<char>, i: int| message_at(t, i)
}

/// A character of a command given without quotes.
pub open spec fn plain_command_char(c: char) -> bool {
    c != '"' && c != '-' && !is_ws(c)
}

pub open spec fn plain_end(s: Seq<char>, i: int) -> int
    decreases s.len() - i,
{
    if 0 <= i < s.len() && plain_command_char(s[i]) {
        plain_end(s, i + 1)
    } else {
        i
    }
}

/// At `i`, a command `-c word` or `-c "words"` (on one line, to the first closing quote):
/// where the command starts and ends, quotes left out.
pub open spec fn command_at(s: Seq<char>, i: int) -> Option<(int, int)> {
    if !holds_at(s, i, "-c "@) || i + 3 >= s.len() {
        None
    } else if plain_command_char(s[i + 3]) {
        Some((i + 3, plain_end(s, i + 3)))
    } else if s[i + 3] == '"' {
        match first_index_of(s, '"', i + 4, line_end(s, i + 4)) {
            Some(j) => Some((i + 4, j)),
            None => None,
        }
    } else {
        None
    }
}

pub open spec fn command_search() -> spec_fn(Seq<char>, int) -> Option<(int, int)> {
    |t: Seq<char>, i: int| command_at(t, i)
}

/// The condition as written between the first pair of quotes.
pub open spec fn raw_expression(s: Seq<char>) -> Option<Seq<char>> {
    match leftmost(s, 0, quoted_search()) {
        Some((i, j)) => Some(s.subrange(i + 1, j)),
        None => None,
    }
}

/// The days of the `-d` option: `None` without one, else its days or the piece that
/// names no day.
pub open spec fn alarm_days(s: Seq<char>) -> Option<Result<Set<Weekday>, Seq<char>>> {
    match leftmost(s, 0, day_list_search()) {
        Some((i, j)) => Some(days_from(s.subrange(i + 4, j), 0, Seq::empty())),
        None => None,
    }
}

/// The cool-down period in seconds: an hour without a `-p` option, none for a period of
/// zero; `None` where the number cannot be read.
pub open spec fn alarm_period(s: Seq<char>) -> Option<Option<nat>> {
    match leftmost(s, 0, period_search()) {
        None => Some(Some(3600)),
        Some((i, k)) => match parse_unsigned(s.subrange(i + 3, k), u64::MAX as nat) {
            None => None,
            Some(n) => if n == 0 {
                Some(None)
            } else {
                Some(Some(n * unit_seconds(s[k])))
            },
        },
    }
}

/// The period's number times its unit fits in 64 bits.
pub open spec fn period_fits(s: Seq<char>) -> bool {
    match leftmost(s, 0, period_search()) {
        None => true,
        Some((i, k)) => match parse_unsigned(s.subrange(i + 3, k), u64::MAX as nat) {
            None => true,
            Some(n) => n * unit_seconds(s[k]) <= u64::MAX,
        },
    }
}

/// The text of the `-m` option, between its quotes.
pub open spec fn alarm_message(s: Seq<char>) -> Option<Seq<char>> {
    match leftmost(s, 0, message_search()) {
        Some((i, j)) => Some(s.subrange(i + 4, j)),
        None => None,
    }
}

/// The command of the `-c` option: its word, or its text between quotes.
pub open spec fn alarm_command(s: Seq<char>) -> Option<Seq<char>> {
    match leftmost(s, 0, command_search()) {
        Some((_, (a, b))) => Some(s.subrange(a, b)),
        None => None,
    }
}

/// At `i`, a re-enabling option `-i <digits>`: where its digits end.
pub open spec fn inverse_at(s: Seq<char>, i: int) -> Option<int> {
    if holds_at(s, i, "-i "@) && digits_end(s, i + 3) > i + 3 {
        Some(digits_end(s, i + 3))
    } else {
        None
    }
}

pub open spec fn inverse_search() -> spec_fn(Seq<char>, int) -> Option<int> {
    |t: Seq<char>, i: int| inverse_at(t, i)
}

/// The percentage of the `-i` option: `None` without one, else its number, or `None`
/// inside where the number cannot be read.
pub open spec fn alarm_inverse(s: Seq<char>) -> Option<Option<nat>> {
    match leftmost(s, 0, inverse_search()) {
        None => None,
        Some((i, k)) => Some(parse_unsigned(s.subrange(i + 3, k), u64::MAX as nat)),
    }
}

/// At `p`, a field reference `<digits>_<digits>`: the index of the underscore and the end.
pub open spec fn field_ref_at(e: Seq<char>, p: int) -> Option<(int, int)> {
    let q = digits_end(e, p);
    if q > p && char_at(e, q, '_') {
        let r = digits_end(e, q + 1);
        if r > q + 1 {
            Some((q, r))
        } else {
            None
        }
    } else {
        None
    }
}

/// The field references in `e` from `p` on, left to right, each as its two numbers' digits.
pub open spec fn field_refs(e: Seq<char>, p: int) -> Seq<(Seq<char>, Seq<char>)>
    decreases e.len() - p,
{
    if p < 0 || p >= e.len() {
        Seq::empty()
    } else {
        match field_ref_at(e, p) {
            Some((q, r)) => if p < q < r <= e.len() {
                seq![(e.subrange(p, q), e.subrange(q + 1, r))] + field_refs(e, r)
            } else {
                Seq::empty()
            },
            None => field_refs(e, p + 1),
        }
    }
}

/// The fields of each dataset that field references name, or `None` where one of their
/// numbers is no dataset or field id.
pub open spec fn fields_of(refs: Seq<(Seq<char>, Seq<char>)>) -> Option<Map<DatasetId, Seq<FieldId>>>
    decreases refs.len(),
{
    if refs.len() == 0 {
        Some(Map::empty())
    } else {
        match fields_of(refs.drop_last()) {
            None => None,
            Some(m) => match parse_unsigned(refs.last().0, u16::MAX as nat) {
                None => None,
                Some(set) => match parse_unsigned(refs.last().1, u8::MAX as nat) {
                    None => None,
                    Some(field) => Some(add_field(m, set as DatasetId, field as FieldId)),
                },
            },
        }
    }
}

proof fn lemma_fields_fault_sticks(refs: Seq<(Seq<char>, Seq<char>)>, k: int)
    requires
        0 <= k <= refs.len(),
        fields_of(refs.take(k)) is None,
    ensures
        fields_of(refs) is None,
    decreases refs.len() - k,
{
    if k < refs.len() {
        assert(refs.take(k + 1).drop_last() =~= refs.take(k));
        lemma_fields_fault_sticks(refs, k + 1);
    } else {
        assert(refs.take(k) =~= refs);
    }
}

/// The arguments of `/alarm add`, read.
pub struct AlarmArguments {
    pub expression: String,
    /// The alarm gets a re-enabling condition (`-i`).
    pub counter_expr: bool,
    /// The percentage of the `-i` option.
    pub inverse_percentage: Option<u64>,
    pub day: Option<Vec<Weekday>>,
    /// Seconds.
    pub period: Option<u64>,
    pub message: Option<String>,
    pub command: Option<String>,
    /// Sorted by dataset id.
    pub fields: Vec<(DatasetId, Vec<FieldId>)>,
}

pub enum ArgumentsError {
    NoExpression,
    InvalidDay(String),
    /// A number could not be read.
    ArgumentParseError,
}

fn after_option_exec(s: &[char], i: usize) -> (b: bool)
    ensures
        b == after_option(s@, i as int),
{
    i >= 3 && (holds_lit(s, i - 3, "-c ") || holds_lit(s, i - 3, "-m "))
}

fn find_quoted(s: &Vec<char>) -> (r: Option<(usize, usize)>)
    ensures
        match leftmost(s@, 0, quoted_search()) {
            Some((i, j)) => r == Some((i as usize, j as usize)) && 0 <= i < j < s@.len(),
            None => r is None,
        },
{
    let n = s.len();
    let mut i: usize = 0;
    while i < n
        invariant
            n == s@.len(),
            i <= s@.len(),
            leftmost(s@, 0, quoted_search()) == leftmost(s@, i as int, quoted_search()),
        decreases s@.len() - i,
    {
        if s[i] == '"' && (i == 0 || is_whitespace(s[i - 1])) && !after_option_exec(
            s.as_slice(),
            i,
        ) {
            let le = find_line_end(s.as_slice(), i + 1);
            match find_first(s.as_slice(), '"', i + 1, le) {
                Some(j) => {
                    return Some((i, j));
                },
                None => {},
            }
        }
        i = i + 1;
    }
    proof {
        assert(quoted_search()(s@, n as int) is None);
        assert(leftmost(s@, n + 1, quoted_search()) is None);
    }
    None
}

fn find_day_list(s: &Vec<char>) -> (r: Option<(usize, usize)>)
    ensures
        match leftmost(s@, 0, day_list_search()) {
            Some((i, j)) => r == Some((i as usize, j as usize)) && 0 <= i && i + 4 < j < s@.len(),
            None => r is None,
        },
{
    proof {
        reveal_strlit("-d [");
    }
    let n = s.len();
    let mut i: usize = 0;
    while i < n
        invariant
            n == s@.len(),
            i <= s@.len(),
            leftmost(s@, 0, day_list_search()) == leftmost(s@, i as int, day_list_search()),
        decreases s@.len() - i,
    {
        proof {
            reveal_strlit("-d [");
        }
        if holds_lit(s.as_slice(), i, "-d [") {
            let le = find_line_end(s.as_slice(), i + 4);
            if i + 4 < le {
                match find_last(s.as_slice(), ']', i + 5, le) {
                    Some(j) => {
                        return Some((i, j));
                    },
                    None => {},
                }
            }
        }
        i = i + 1;
    }
    proof {
        assert(day_list_search()(s@, n as int) is None);
        assert(leftmost(s@, n + 1, day_list_search()) is None);
    }
    None
}

fn find_period(s: &Vec<char>) -> (r: Option<(usize, usize)>)
    ensures
        match leftmost(s@, 0, period_search()) {
            Some((i, k)) => r == Some((i as usize, k as usize)) && 0 <= i && i + 3 < k < s@.len(),
            None => r is None,
        },
{
    proof {
        reveal_strlit("-p ");
    }
    let n = s.len();
    let mut i: usize = 0;
    while i < n
        invariant
            n == s@.len(),
            i <= s@.len(),
            leftmost(s@, 0, period_search()) == leftmost(s@, i as int, period_search()),
        decreases s@.len() - i,
    {
        proof {
            reveal_strlit("-p ");
        }
        if holds_lit(s.as_slice(), i, "-p ") {
            let k = find_digits_end(s.as_slice(), i + 3);
            if k > i + 3 && k < s.len() && (s[k] == 's' || s[k] == 'm' || s[k] == 'h' || s[k]
                == 'd' || s[k] == 'w') {
                return Some((i, k));
            }
        }
        i = i + 1;
    }
    proof {
        assert(period_search()(s@, n as int) is None);
        assert(leftmost(s@, n + 1, period_search()) is None);
    }
    None
}

fn find_message(s: &Vec<char>) -> (r: Option<(usize, usize)>)
    ensures
        match leftmost(s@, 0, message_search()) {
            Some((i, j)) => r == Some((i as usize, j as usize)) && 0 <= i && i + 4 <= j < s@.len(),
            None => r is None,
        },
{
    proof {
        reveal_strlit("-m \"");
    }
    let n = s.len();
    let mut i: usize = 0;
    while i < n
        invariant
            n == s@.len(),
            i <= s@.len(),
            leftmost(s@, 0, message_search()) == leftmost(s@, i as int, message_search()),
        decreases s@.len() - i,
    {
        proof {
            reveal_strlit("-m \"");
        }
        if holds_lit(s.as_slice(), i, "-m \"") {
            let le = find_line_end(s.as_slice(), i + 4);
            match find_first(s.as_slice(), '"', i + 4, le) {
                Some(j) => {
                    return Some((i, j));
                },
                None => {},
            }
        }
        i = i + 1;
    }
    proof {
        assert(message_search()(s@, n as int) is None);
        assert(leftmost(s@, n + 1, message_search()) is None);
    }
    None
}

fn find_plain_end(s: &[char], i: usize) -> (e: usize)
    requires
        i <= s@.len(),
    ensures
        e == plain_end(s@, i as int),
        i <= e <= s@.len(),
{
    let mut k: usize = i;
    while k < s.len() && s[k] != '"' && s[k] != '-' && !is_whitespace(s[k])
        invariant
            i <= k <= s@.len(),
            plain_end(s@, i as int) == plain_end(s@, k as int),
        decreases s@.len() - k,
    {
        k = k + 1;
    }
    k
}

fn find_command(s: &Vec<char>) -> (r: Option<(usize, usize)>)
    ensures
        match leftmost(s@, 0, command_search()) {
            Some((_, (a, b))) => r == Some((a as usize, b as usize)) && 0 <= a <= b <= s@.len(),
            None => r is None,
        },
{
    proof {
        reveal_strlit("-c ");
    }
    let n = s.len();
    let mut i: usize = 0;
    while i < n
        invariant
            n == s@.len(),
            i <= s@.len(),
            leftmost(s@, 0, command_search()) == leftmost(s@, i as int, command_search()),
        decreases s@.len() - i,
    {
        proof {
            reveal_strlit("-c ");
        }
        if holds_lit(s.as_slice(), i, "-c ") && i + 3 < s.len() {
            let c = s[i + 3];
            if c != '"' && c != '-' && !is_whitespace(c) {
                let e = find_plain_end(s.as_slice(), i + 3);
                return Some((i + 3, e));
            } else if c == '"' {
                let le = find_line_end(s.as_slice(), i + 4);
                match find_first(s.as_slice(), '"', i + 4, le) {
                    Some(j) => {
                        return Some((i + 4, j));
                    },
                    None => {},
                }
            }
        }
        i = i + 1;
    }
    proof {
        assert(command_search()(s@, n as int) is None);
        assert(leftmost(s@, n + 1, command_search()) is None);
    }
    None
}

fn find_inverse(s: &Vec<char>) -> (r: Option<(usize, usize)>)
    ensures
        match leftmost(s@, 0, inverse_search()) {
            Some((i, k)) => r == Some((i as usize, k as usize)) && 0 <= i && i + 3 < k <= s@.len(),
            None => r is None,
        },
{
    proof {
        reveal_strlit("-i ");
    }
    let n = s.len();
    let mut i: usize = 0;
    while i < n
        invariant
            n == s@.len(),
            i <= s@.len(),
            leftmost(s@, 0, inverse_search()) == leftmost(s@, i as int, inverse_search()),
        decreases s@.len() - i,
    {
        proof {
            reveal_strlit("-i ");
        }
        if holds_lit(s.as_slice(), i, "-i ") {
            let k = find_digits_end(s.as_slice(), i + 3);
            proof {
                lemma_digits_end(s@, i + 3);
            }
            if k > i + 3 {
                return Some((i, k));
            }
        }
        i = i + 1;
    }
    proof {
        assert(inverse_search()(s@, n as int) is None);
        assert(leftmost(s@, n + 1, inverse_search()) is None);
    }
    None
}

fn read_fields(e: &Vec<char>) -> (r: Option<Vec<(DatasetId, Vec<FieldId>)>>)
    ensures
        match fields_of(field_refs(e@, 0)) {
            None => r is None,
            Some(m) => r matches Some(list) && sorted_listing(list@, m),
        },
{
    let mut list: Vec<(DatasetId, Vec<FieldId>)> = Vec::new();
    let ghost mut done: Seq<(Seq<char>, Seq<char>)> = Seq::empty();
    let ghost mut m: Map<DatasetId, Seq<FieldId>> = Map::empty();
    let n = e.len();
    let mut p: usize = 0;
    assert(field_refs(e@, 0) =~= done + field_refs(e@, 0));
    assert(sorted_listing(list@, m));
    while p < n
        invariant
            n == e@.len(),
            p <= n,
            field_refs(e@, 0) == done + field_refs(e@, p as int),
            fields_of(done) == Some(m),
            sorted_listing(list@, m),
        decreases n - p,
    {
        let q = find_digits_end(e.as_slice(), p);
        proof {
            lemma_digits_end(e@, p as int);
        }
        if q > p && q < n && e[q] == '_' {
            let r = find_digits_end(e.as_slice(), q + 1);
            proof {
                lemma_digits_end(e@, q + 1);
            }
            if r > q + 1 {
                let a = slice(e, p, q);
                let b = slice(e, q + 1, r);
                let ghost x = (a@, b@);
                proof {
                    assert(field_ref_at(e@, p as int) == Some((q as int, r as int)));
                    assert(field_refs(e@, p as int) == seq![x] + field_refs(e@, r as int));
                    assert(field_refs(e@, 0) =~= done.push(x) + field_refs(e@, r as int));
                    assert(done.push(x).drop_last() =~= done);
                    assert((done.push(x) + field_refs(e@, r as int)).take(done.len() as int + 1) =~= done.push(x));
                }
                let set = parse_unsigned_exec(a.as_slice(), u16::MAX as u64);
                let field = parse_unsigned_exec(b.as_slice(), u8::MAX as u64);
                match (set, field) {
                    (Some(sv), Some(fv)) => {
                        add_to_listing(&mut list, sv as DatasetId, fv as FieldId, Ghost(m));
                        proof {
                            m = add_field(m, sv as DatasetId, fv as FieldId);
                            done = done.push(x);
                        }
                        p = r;
                    },
                    _ => {
                        proof {
                            lemma_fields_fault_sticks(field_refs(e@, 0), done.len() as int + 1);
                        }
                        return None;
                    },
                }
            } else {
                proof {
                    assert(field_ref_at(e@, p as int) is None);
                }
                p = p + 1;
            }
        } else {
            proof {
                assert(field_ref_at(e@, p as int) is None);
            }
            p = p + 1;
        }
    }
    proof {
        assert(done + field_refs(e@, p as int) =~= done);
    }
    Some(list)
}

fn unit_factor(c: char) -> (f: u64)
    ensures
        f == unit_seconds(c),
{
    if c == 's' {
        1
    } else if c == 'm' {
        60
    } else if c == 'h' {
        3600
    } else if c == 'd' {
        86400
    } else {
        604800
    }
}

/// Reading the arguments does not fail on a number: the clock times in the condition are
/// written with ASCII digits, and, where the day list is read, the period fits in 64 bits.
pub open spec fn arguments_readable(s: Seq<char>) -> bool {
    match raw_expression(s) {
        None => true,
        Some(raw) => times_readable(raw, 0) && (!(alarm_days(s) matches Some(Err(_)))
            ==> period_fits(s)),
    }
}

/// The `/alarm add` arguments as read, or why they are refused: no quoted condition; a
/// day list piece that names no day; a period, a percentage or a field reference whose
/// number cannot be read, in that order.
pub fn parse_arguments(args: &str) -> (r: Result<AlarmArguments, ArgumentsError>)
    requires
        arguments_readable(args@),
    ensures
        match raw_expression(args@) {
            None => r matches Err(ArgumentsError::NoExpression),
            Some(raw) => match alarm_days(args@) {
                Some(Err(piece)) => r matches Err(ArgumentsError::InvalidDay(p)) && p@ == piece,
                days => match alarm_period(args@) {
                    None => r matches Err(ArgumentsError::ArgumentParseError),
                    Some(period) => if alarm_inverse(args@) matches Some(None) {
                        r matches Err(ArgumentsError::ArgumentParseError)
                    } else {
                    match fields_of(field_refs(seconds_text(raw, 0), 0)) {
                        None => r matches Err(ArgumentsError::ArgumentParseError),
                        Some(m) => r matches Ok(a) && {
                            &&& a.expression@ == seconds_text(raw, 0)
                            &&& a.counter_expr == alarm_inverse(args@) is Some
                            &&& match alarm_inverse(args@) {
                                Some(Some(pc)) => a.inverse_percentage == Some(pc as u64),
                                _ => a.inverse_percentage is None,
                            }
                            &&& match days {
                                Some(Ok(ds)) => a.day matches Some(v) && v@.to_set() == ds,
                                _ => a.day is None,
                            }
                            &&& match period {
                                Some(secs) => a.period == Some(secs as u64),
                                None => a.period is None,
                            }
                            &&& match alarm_message(args@) {
                                Some(msg) => a.message matches Some(t) && t@ == msg,
                                None => a.message is None,
                            }
                            &&& match alarm_command(args@) {
                                Some(cmd) => a.command matches Some(t) && t@ == cmd,
                                None => a.command is None,
                            }
                            &&& sorted_listing(a.fields@, m)
                        },
                    }
                    },
                },
            },
        },
{
    let s = chars_of(args);
    let (qi, qj) = match find_quoted(&s) {
        None => {
            return Err(ArgumentsError::NoExpression);
        },
        Some(x) => x,
    };
    let raw = slice(&s, qi + 1, qj);
    let expression = format_time_to_seconds(crate::text::string_of(raw.as_slice()));
    let day = match find_day_list(&s) {
        None => None,
        Some((i, j)) => {
            let c = slice(&s, i + 4, j);
            match read_days(&c) {
                Err(p) => {
                    return Err(ArgumentsError::InvalidDay(p));
                },
                Ok(v) => Some(v),
            }
        },
    };
    let period: Option<u64> = match find_period(&s) {
        None => Some(3600),
        Some((i, k)) => {
            let d = slice(&s, i + 3, k);
            match parse_unsigned_exec(d.as_slice(), u64::MAX) {
                None => {
                    return Err(ArgumentsError::ArgumentParseError);
                },
                Some(n) => {
                    if n == 0 {
                        None
                    } else {
                        let f = unit_factor(s[k]);
                        Some(n * f)
                    }
                },
            }
        },
    };
    let inverse_percentage: Option<u64> = match find_inverse(&s) {
        None => None,
        Some((i, k)) => {
            let d = slice(&s, i + 3, k);
            match parse_unsigned_exec(d.as_slice(), u64::MAX) {
                None => {
                    return Err(ArgumentsError::ArgumentParseError);
                },
                Some(n) => Some(n),
            }
        },
    };
    let message = match find_message(&s) {
        None => None,
        Some((i, j)) => Some(crate::text::string_of(slice(&s, i + 4, j).as_slice())),
    };
    let command = match find_command(&s) {
        None => None,
        Some((a, b)) => Some(crate::text::string_of(slice(&s, a, b).as_slice())),
    };
    let counter_expr = inverse_percentage.is_some();
    let e = chars_of(expression.as_str());
    let fields = match read_fields(&e) {
        None => {
            return Err(ArgumentsError::ArgumentParseError);
        },
        Some(list) => list,
    };
    Ok(
        AlarmArguments {
            expression,
            counter_expr,
            inverse_percentage,
            day,
            period,
            message,
            command,
            fields,
        },
    )
}


fn ascii_digit_exec(e: &[char], k: usize) -> (b: bool)
    ensures
        b == ascii_digit_at(e@, k as int),
{
    k < e.len() && '0' <= e[k] && e[k] <= '9'
}

/// Whether every clock time in `e` is written with ASCII digits.
fn times_readable_exec(e: &Vec<char>) -> (b: bool)
    ensures
        b == times_readable(e@, 0),
{
    let n = e.len();
    let mut p: usize = 0;
    while p < n
        invariant
            n == e@.len(),
            p <= n,
            times_readable(e@, 0) == times_readable(e@, p as int),
        decreases n - p,
    {
        match time_at_exec(e.as_slice(), p) {
            Some(l) => {
                let ok = if l == 5 {
                    ascii_digit_exec(e.as_slice(), p) && ascii_digit_exec(e.as_slice(), p + 1)
                        && ascii_digit_exec(e.as_slice(), p + 3) && ascii_digit_exec(
                        e.as_slice(),
                        p + 4,
                    )
                } else {
                    ascii_digit_exec(e.as_slice(), p) && ascii_digit_exec(e.as_slice(), p + 2)
                        && ascii_digit_exec(e.as_slice(), p + 3)
                };
                if !ok {
                    return false;
                }
                p = p + l;
            },
            None => {
                p = p + 1;
            },
        }
    }
    true
}

/// Whether `parse_arguments` can read `args` without a number failing it.
pub fn readable_arguments(args: &str) -> (b: bool)
    ensures
        b == arguments_readable(args@),
{
    let s = chars_of(args);
    let (qi, qj) = match find_quoted(&s) {
        None => {
            return true;
        },
        Some(x) => x,
    };
    let raw = slice(&s, qi + 1, qj);
    if !times_readable_exec(&raw) {
        return false;
    }
    match find_day_list(&s) {
        None => {},
        Some((i, j)) => {
            let c = slice(&s, i + 4, j);
            match read_days(&c) {
                Err(_) => {
                    return true;
                },
                Ok(_) => {},
            }
        },
    }
    match find_period(&s) {
        None => true,
        Some((i, k)) => {
            let d = slice(&s, i + 3, k);
            match parse_unsigned_exec(d.as_slice(), u64::MAX) {
                None => true,
                Some(n) => {
                    let f = unit_factor(s[k]);
                    proof {
                        vstd::arithmetic::div_mod::lemma_fundamental_div_mod(u64::MAX as int, f as int);
                        if n <= u64::MAX / f {
                            assert(n * f <= (u64::MAX / f) * f) by (nonlinear_arith)
                                requires n <= u64::MAX / f, f > 0;
                        } else {
                            assert(n * f >= (u64::MAX / f + 1) * f) by (nonlinear_arith)
                                requires n >= u64::MAX / f + 1, f > 0;
                        }
                    }
                    n <= u64::MAX / f
                },
            }
        },
    }
}


/// Whether every clock time in `expression` is written with ASCII digits.
pub fn readable_times(expression: &str) -> (b: bool)
    ensures
        b == times_readable(expression@, 0),
{
    let e = chars_of(expression);
    times_readable_exec(&e)
}

} // verus!
