//! Scanning text the way the chat commands' patterns read it.
use vstd::prelude::*;

verus! {

/// A decimal digit of any script (Unicode general category Nd), as a pattern's `\d`
/// matches it.
pub open spec fn is_decimal_number(c: char) -> bool {
    ||| ('\u{30}' <= c && c <= '\u{39}')
    ||| ('\u{660}' <= c && c <= '\u{669}')
    ||| ('\u{6f0}' <= c && c <= '\u{6f9}')
    ||| ('\u{7c0}' <= c && c <= '\u{7c9}')
    ||| ('\u{966}' <= c && c <= '\u{96f}')
    ||| ('\u{9e6}' <= c && c <= '\u{9ef}')
    ||| ('\u{a66}' <= c && c <= '\u{a6f}')
    ||| ('\u{ae6}' <= c && c <= '\u{aef}')
    ||| ('\u{b66}' <= c && c <= '\u{b6f}')
    ||| ('\u{be6}' <= c && c <= '\u{bef}')
    ||| ('\u{c66}' <= c && c <= '\u{c6f}')
    ||| ('\u{ce6}' <= c && c <= '\u{cef}')
    ||| ('\u{d66}' <= c && c <= '\u{d6f}')
    ||| ('\u{de6}' <= c && c <= '\u{def}')
    ||| ('\u{e50}' <= c && c <= '\u{e59}')
    ||| ('\u{ed0}' <= c && c <= '\u{ed9}')
    ||| ('\u{f20}' <= c && c <= '\u{f29}')
    ||| ('\u{1040}' <= c && c <= '\u{1049}')
    ||| ('\u{1090}' <= c && c <= '\u{1099}')
    ||| ('\u{17e0}' <= c && c <= '\u{17e9}')
    ||| ('\u{1810}' <= c && c <= '\u{1819}')
    ||| ('\u{1946}' <= c && c <= '\u{194f}')
    ||| ('\u{19d0}' <= c && c <= '\u{19d9}')
    ||| ('\u{1a80}' <= c && c <= '\u{1a89}')
    ||| ('\u{1a90}' <= c && c <= '\u{1a99}')
    ||| ('\u{1b50}' <= c && c <= '\u{1b59}')
    ||| ('\u{1bb0}' <= c && c <= '\u{1bb9}')
    ||| ('\u{1c40}' <= c && c <= '\u{1c49}')
    ||| ('\u{1c50}' <= c && c <= '\u{1c59}')
    ||| ('\u{a620}' <= c && c <= '\u{a629}')
    ||| ('\u{a8d0}' <= c && c <= '\u{a8d9}')
    ||| ('\u{a900}' <= c && c <= '\u{a909}')
    ||| ('\u{a9d0}' <= c && c <= '\u{a9d9}')
    ||| ('\u{a9f0}' <= c && c <= '\u{a9f9}')
    ||| ('\u{aa50}' <= c && c <= '\u{aa59}')
    ||| ('\u{abf0}' <= c && c <= '\u{abf9}')
    ||| ('\u{ff10}' <= c && c <= '\u{ff19}')
    ||| ('\u{104a0}' <= c && c <= '\u{104a9}')
    ||| ('\u{10d30}' <= c && c <= '\u{10d39}')
    ||| ('\u{10d40}' <= c && c <= '\u{10d49}')
    ||| ('\u{11066}' <= c && c <= '\u{1106f}')
    ||| ('\u{110f0}' <= c && c <= '\u{110f9}')
    ||| ('\u{11136}' <= c && c <= '\u{1113f}')
    ||| ('\u{111d0}' <= c && c <= '\u{111d9}')
    ||| ('\u{112f0}' <= c && c <= '\u{112f9}')
    ||| ('\u{11450}' <= c && c <= '\u{11459}')
    ||| ('\u{114d0}' <= c && c <= '\u{114d9}')
    ||| ('\u{11650}' <= c && c <= '\u{11659}')
    ||| ('\u{116c0}' <= c && c <= '\u{116c9}')
    ||| ('\u{116d0}' <= c && c <= '\u{116e3}')
    ||| ('\u{11730}' <= c && c <= '\u{11739}')
    ||| ('\u{118e0}' <= c && c <= '\u{118e9}')
    ||| ('\u{11950}' <= c && c <= '\u{11959}')
    ||| ('\u{11bf0}' <= c && c <= '\u{11bf9}')
    ||| ('\u{11c50}' <= c && c <= '\u{11c59}')
    ||| ('\u{11d50}' <= c && c <= '\u{11d59}')
    ||| ('\u{11da0}' <= c && c <= '\u{11da9}')
    ||| ('\u{11f50}' <= c && c <= '\u{11f59}')
    ||| ('\u{16130}' <= c && c <= '\u{16139}')
    ||| ('\u{16a60}' <= c && c <= '\u{16a69}')
    ||| ('\u{16ac0}' <= c && c <= '\u{16ac9}')
    ||| ('\u{16b50}' <= c && c <= '\u{16b59}')
    ||| ('\u{16d70}' <= c && c <= '\u{16d79}')
    ||| ('\u{1ccf0}' <= c && c <= '\u{1ccf9}')
    ||| ('\u{1d7ce}' <= c && c <= '\u{1d7ff}')
    ||| ('\u{1e140}' <= c && c <= '\u{1e149}')
    ||| ('\u{1e2f0}' <= c && c <= '\u{1e2f9}')
    ||| ('\u{1e4f0}' <= c && c <= '\u{1e4f9}')
    ||| ('\u{1e5f1}' <= c && c <= '\u{1e5fa}')
    ||| ('\u{1e950}' <= c && c <= '\u{1e959}')
    ||| ('\u{1fbf0}' <= c && c <= '\u{1fbf9}')
}

pub fn decimal_number(c: char) -> (b: bool)
    ensures
        b == is_decimal_number(c),
{
    ('\u{30}' <= c && c <= '\u{39}') || ('\u{660}' <= c && c <= '\u{669}') || ('\u{6f0}' <= c &&
        c <= '\u{6f9}') || ('\u{7c0}' <= c && c <= '\u{7c9}') || ('\u{966}' <= c && c <= '\u{96f}')
        || ('\u{9e6}' <= c && c <= '\u{9ef}') || ('\u{a66}' <= c && c <= '\u{a6f}') || ('\u{ae6}' <=
        c && c <= '\u{aef}') || ('\u{b66}' <= c && c <= '\u{b6f}') || ('\u{be6}' <= c && c <=
        '\u{bef}') || ('\u{c66}' <= c && c <= '\u{c6f}') || ('\u{ce6}' <= c && c <= '\u{cef}') ||
        ('\u{d66}' <= c && c <= '\u{d6f}') || ('\u{de6}' <= c && c <= '\u{def}') || ('\u{e50}' <= c
        && c <= '\u{e59}') || ('\u{ed0}' <= c && c <= '\u{ed9}') || ('\u{f20}' <= c && c <=
        '\u{f29}') || ('\u{1040}' <= c && c <= '\u{1049}') || ('\u{1090}' <= c && c <= '\u{1099}')
        || ('\u{17e0}' <= c && c <= '\u{17e9}') || ('\u{1810}' <= c && c <= '\u{1819}') ||
        ('\u{1946}' <= c && c <= '\u{194f}') || ('\u{19d0}' <= c && c <= '\u{19d9}') || ('\u{1a80}'
        <= c && c <= '\u{1a89}') || ('\u{1a90}' <= c && c <= '\u{1a99}') || ('\u{1b50}' <= c && c <=
        '\u{1b59}') || ('\u{1bb0}' <= c && c <= '\u{1bb9}') || ('\u{1c40}' <= c && c <= '\u{1c49}')
        || ('\u{1c50}' <= c && c <= '\u{1c59}') || ('\u{a620}' <= c && c <= '\u{a629}') ||
        ('\u{a8d0}' <= c && c <= '\u{a8d9}') || ('\u{a900}' <= c && c <= '\u{a909}') || ('\u{a9d0}'
        <= c && c <= '\u{a9d9}') || ('\u{a9f0}' <= c && c <= '\u{a9f9}') || ('\u{aa50}' <= c && c <=
        '\u{aa59}') || ('\u{abf0}' <= c && c <= '\u{abf9}') || ('\u{ff10}' <= c && c <= '\u{ff19}')
        || ('\u{104a0}' <= c && c <= '\u{104a9}') || ('\u{10d30}' <= c && c <= '\u{10d39}') ||
        ('\u{10d40}' <= c && c <= '\u{10d49}') || ('\u{11066}' <= c && c <= '\u{1106f}') ||
        ('\u{110f0}' <= c && c <= '\u{110f9}') || ('\u{11136}' <= c && c <= '\u{1113f}') ||
        ('\u{111d0}' <= c && c <= '\u{111d9}') || ('\u{112f0}' <= c && c <= '\u{112f9}') ||
        ('\u{11450}' <= c && c <= '\u{11459}') || ('\u{114d0}' <= c && c <= '\u{114d9}') ||
        ('\u{11650}' <= c && c <= '\u{11659}') || ('\u{116c0}' <= c && c <= '\u{116c9}') ||
        ('\u{116d0}' <= c && c <= '\u{116e3}') || ('\u{11730}' <= c && c <= '\u{11739}') ||
        ('\u{118e0}' <= c && c <= '\u{118e9}') || ('\u{11950}' <= c && c <= '\u{11959}') ||
        ('\u{11bf0}' <= c && c <= '\u{11bf9}') || ('\u{11c50}' <= c && c <= '\u{11c59}') ||
        ('\u{11d50}' <= c && c <= '\u{11d59}') || ('\u{11da0}' <= c && c <= '\u{11da9}') ||
        ('\u{11f50}' <= c && c <= '\u{11f59}') || ('\u{16130}' <= c && c <= '\u{16139}') ||
        ('\u{16a60}' <= c && c <= '\u{16a69}') || ('\u{16ac0}' <= c && c <= '\u{16ac9}') ||
        ('\u{16b50}' <= c && c <= '\u{16b59}') || ('\u{16d70}' <= c && c <= '\u{16d79}') ||
        ('\u{1ccf0}' <= c && c <= '\u{1ccf9}') || ('\u{1d7ce}' <= c && c <= '\u{1d7ff}') ||
        ('\u{1e140}' <= c && c <= '\u{1e149}') || ('\u{1e2f0}' <= c && c <= '\u{1e2f9}') ||
        ('\u{1e4f0}' <= c && c <= '\u{1e4f9}') || ('\u{1e5f1}' <= c && c <= '\u{1e5fa}') ||
        ('\u{1e950}' <= c && c <= '\u{1e959}') || ('\u{1fbf0}' <= c && c <= '\u{1fbf9}')
}


/// The index of the first line break at or after `i`, or the length of `s`: how far a
/// pattern's `.` can run from `i`.
pub open spec fn line_end(s: Seq<char>, i: int) -> int
    decreases s.len() - i,
{
    if i >= s.len() {
        s.len() as int
    } else if s[i] == '\n' {
        i
    } else {
        line_end(s, i + 1)
    }
}

pub fn find_line_end(s: &[char], i: usize) -> (e: usize)
    ensures
        e == line_end(s@, i as int),
        i <= s@.len() ==> i <= e <= s@.len(),
{
    if i >= s.len() {
        return s.len();
    }
    let mut k: usize = i;
    while k < s.len() && s[k] != '\n'
        invariant
            i <= k <= s@.len(),
            line_end(s@, i as int) == line_end(s@, k as int),
        decreases s@.len() - k,
    {
        k = k + 1;
    }
    k
}

/// The last index in `from..to` that holds `c`.
pub open spec fn last_index_of(s: Seq<char>, c: char, from: int, to: int) -> Option<int>
    decreases to - from,
{
    if to <= from {
        None
    } else if s[to - 1] == c {
        Some(to - 1)
    } else {
        last_index_of(s, c, from, to - 1)
    }
}

pub fn find_last(s: &[char], c: char, from: usize, to: usize) -> (r: Option<usize>)
    requires
        to <= s@.len(),
    ensures
        r matches Some(j) ==> last_index_of(s@, c, from as int, to as int) == Some(j as int)
            && from <= j < to,
        r is None ==> last_index_of(s@, c, from as int, to as int) is None,
{
    let mut k: usize = to;
    while k > from
        invariant
            k <= to <= s@.len(),
            from <= to ==> from <= k,
            last_index_of(s@, c, from as int, to as int) == last_index_of(
                s@,
                c,
                from as int,
                k as int,
            ),
        decreases k,
    {
        if s[k - 1] == c {
            return Some(k - 1);
        }
        k = k - 1;
    }
    None
}

/// The first index in `from..to` that holds `c`.
pub open spec fn first_index_of(s: Seq<char>, c: char, from: int, to: int) -> Option<int>
    decreases to - from,
{
    if to <= from {
        None
    } else if s[from] == c {
        Some(from)
    } else {
        first_index_of(s, c, from + 1, to)
    }
}

pub fn find_first(s: &[char], c: char, from: usize, to: usize) -> (r: Option<usize>)
    requires
        to <= s@.len(),
    ensures
        r matches Some(j) ==> first_index_of(s@, c, from as int, to as int) == Some(j as int)
            && from <= j < to,
        r is None ==> first_index_of(s@, c, from as int, to as int) is None,
{
    let mut k: usize = from;
    while k < to
        invariant
            to <= s@.len(),
            from <= k || to <= from,
            first_index_of(s@, c, from as int, to as int) == first_index_of(
                s@,
                c,
                k as int,
                to as int,
            ),
        decreases to - k,
    {
        if s[k] == c {
            return Some(k);
        }
        k = k + 1;
    }
    None
}

/// `s` holds `lit` at `i`.
pub open spec fn holds_at(s: Seq<char>, i: int, lit: Seq<char>) -> bool {
    0 <= i && i + lit.len() <= s.len() && s.subrange(i, i + lit.len()) == lit
}

pub fn holds_lit(s: &[char], i: usize, lit: &str) -> (b: bool)
    ensures
        b == holds_at(s@, i as int, lit@),
{
    let l = crate::text::chars_of(lit);
    if i > s.len() || l.len() > s.len() - i {
        return false;
    }
    let n = s.len();
    let mut k: usize = 0;
    while k < l.len()
        invariant
            k <= l@.len(),
            l@ == lit@,
            n == s@.len(),
            i + l@.len() <= n,
            forall|m: int| 0 <= m < k ==> s@[i + m] == l@[m],
        decreases l@.len() - k,
    {
        if s[i + k] != l[k] {
            assert(s@.subrange(i as int, i + l@.len())[k as int] != l@[k as int]);
            return false;
        }
        k = k + 1;
    }
    assert(s@.subrange(i as int, i + l@.len()) =~= l@);
    true
}

/// The end of the run of decimal digits that starts at `i`.
pub open spec fn digits_end(s: Seq<char>, i: int) -> int
    decreases s.len() - i,
{
    if 0 <= i < s.len() && is_decimal_number(s[i]) {
        digits_end(s, i + 1)
    } else {
        i
    }
}

pub proof fn lemma_digits_end(s: Seq<char>, i: int)
    requires
        0 <= i,
    ensures
        i <= digits_end(s, i),
        i <= s.len() ==> digits_end(s, i) <= s.len(),
        forall|k: int| i <= k < digits_end(s, i) ==> is_decimal_number(#[trigger] s[k]),
        digits_end(s, i) < s.len() ==> !is_decimal_number(s[digits_end(s, i)]),
    decreases s.len() - i,
{
    if 0 <= i < s.len() && is_decimal_number(s[i]) {
        lemma_digits_end(s, i + 1);
    }
}

pub fn find_digits_end(s: &[char], i: usize) -> (e: usize)
    ensures
        e == digits_end(s@, i as int),
{
    let mut k: usize = i;
    while k < s.len() && decimal_number(s[k])
        invariant
            i <= k,
            i <= s@.len() ==> k <= s@.len(),
            k > s@.len() ==> k == i,
            digits_end(s@, i as int) == digits_end(s@, k as int),
        decreases s@.len() - k,
    {
        k = k + 1;
    }
    k
}

/// The leftmost position, from `i` on, where `m` matches, with what it matched there.
pub open spec fn leftmost<T>(s: Seq<char>, i: int, m: spec_fn(Seq<char>, int) -> Option<T>) -> Option<
    (int, T),
>
    decreases s.len() + 1 - i,
{
    if i < 0 || i > s.len() {
        None
    } else {
        match m(s, i) {
            Some(t) => Some((i, t)),
            None => leftmost(s, i + 1, m),
        }
    }
}

pub proof fn lemma_leftmost_bound<T>(s: Seq<char>, i: int, m: spec_fn(Seq<char>, int) -> Option<T>)
    ensures
        leftmost(s, i, m) matches Some((k, t)) ==> i <= k <= s.len() && m(s, k) == Some(t),
    decreases s.len() + 1 - i,
{
    if 0 <= i <= s.len() && m(s, i) is None {
        lemma_leftmost_bound(s, i + 1, m);
    }
}

} // verus!
