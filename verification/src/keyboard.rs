//! The user's chat keyboard: rows of buttons, each button an alias the user set.
use vstd::prelude::*;
use crate::text::{chars_of, split_whitespace, string_of, words, push_str, push_decimal, decimal_repr};

verus! {

pub const MAX_ROW: usize = 3;

pub const MAX_COLUMN: usize = 4;

/// How many buttons fit on a keyboard.
pub const CAPACITY: usize = 12;

pub enum KeyboardError {
    NoKeyboardSet,
    /// Not enough room; the number of free spots.
    NotEnoughSpace(usize),
    /// The stored keyboard is not a non-empty list of rows of at most `CAPACITY` buttons.
    MalformedKeyboard,
}

/// A row of buttons, each as its characters.
pub open spec fn row_view(r: Seq<String>) -> Seq<Seq<char>> {
    r.map_values(|b: String| b@)
}

/// A keyboard, each button as its characters.
pub open spec fn kb_view(kb: Seq<Vec<String>>) -> Seq<Seq<Seq<char>>> {
    kb.map_values(|r: Vec<String>| row_view(r@))
}

/// The buttons of a keyboard, row after row.
pub open spec fn flatten(kb: Seq<Seq<Seq<char>>>) -> Seq<Seq<char>>
    decreases kb.len(),
{
    if kb.len() == 0 {
        Seq::empty()
    } else {
        flatten(kb.drop_last()) + kb.last()
    }
}

/// The number of buttons on a keyboard.
pub open spec fn used_spots(kb: Seq<Seq<Seq<char>>>) -> nat {
    flatten(kb).len()
}

/// The keyboard after `buttons` are added at its end: each goes on the last row,
/// or on a new row where the last one holds `MAX_COLUMN` buttons.
pub open spec fn place_buttons(kb: Seq<Seq<Seq<char>>>, buttons: Seq<Seq<char>>) -> Seq<
    Seq<Seq<char>>,
>
    decreases buttons.len(),
{
    if buttons.len() == 0 {
        kb
    } else if kb.last().len() == MAX_COLUMN {
        place_buttons(kb.push(seq![buttons[0]]), buttons.drop_first())
    } else {
        place_buttons(kb.update(kb.len() - 1, kb.last().push(buttons[0])), buttons.drop_first())
    }
}

/// The buttons of `s` that `removed` does not name, in order.
pub open spec fn kept_buttons(s: Seq<Seq<char>>, removed: Seq<Seq<char>>) -> Seq<Seq<char>>
    decreases s.len(),
{
    if s.len() == 0 {
        Seq::empty()
    } else if removed.contains(s.last()) {
        kept_buttons(s.drop_last(), removed)
    } else {
        kept_buttons(s.drop_last(), removed).push(s.last())
    }
}

/// `s` cut into rows of `MAX_COLUMN` buttons, the last row possibly shorter.
pub open spec fn chunk_rows(s: Seq<Seq<char>>) -> Seq<Seq<Seq<char>>>
    decreases s.len(),
{
    if s.len() == 0 {
        Seq::empty()
    } else if s.len() <= MAX_COLUMN {
        seq![s]
    } else {
        seq![s.take(MAX_COLUMN as int)] + chunk_rows(s.skip(MAX_COLUMN as int))
    }
}

/// The keyboard without the buttons `removed` names, the rest moved up to fill full rows.
pub open spec fn without_buttons(kb: Seq<Seq<Seq<char>>>, removed: Seq<Seq<char>>) -> Seq<
    Seq<Seq<char>>,
> {
    chunk_rows(kept_buttons(flatten(kb), removed))
}

/// What `serde_json::from_str` makes of `text` read as rows of strings; `None` where it fails.
pub uninterp spec fn rows_from_json(text: Seq<char>) -> Option<Seq<Seq<Seq<char>>>>;

/// What `serde_json::to_string` writes for rows of strings.
pub uninterp spec fn rows_to_json(rows: Seq<Seq<Seq<char>>>) -> Seq<char>;

/// `serde_json::from_str::<Vec<Vec<String>>>`: the rows the JSON text holds, or `None`
/// where it is no such list. What it accepts is not stated; it is named.
#[verifier::external_body]
fn parse_rows(text: &str) -> (r: Option<Vec<Vec<String>>>)
    ensures
        r is Some <==> rows_from_json(text@) is Some,
        r matches Some(kb) ==> rows_from_json(text@) == Some(kb_view(kb@)),
{
    serde_json::from_str::<Vec<Vec<String>>>(text).ok()
}

/// `serde_json::to_string` on rows of strings; its documentation names no error that
/// such a value can give. The text is named, not stated; reading it back with
/// `serde_json::from_str` gives the same rows (strings are written with every character
/// that JSON cannot hold escaped).
#[verifier::external_body]
fn rows_json(kb: &Vec<Vec<String>>) -> (r: String)
    ensures
        r@ == rows_to_json(kb_view(kb@)),
        rows_from_json(r@) == Some(kb_view(kb@)),
{
    serde_json::to_string(kb).unwrap_or_default()
}

proof fn lemma_row_view_push(r: Seq<String>, b: String)
    ensures
        row_view(r.push(b)) == row_view(r).push(b@),
{
    assert(row_view(r.push(b)) =~= row_view(r).push(b@));
}

proof fn lemma_kb_view_push(kb: Seq<Vec<String>>, r: Vec<String>)
    ensures
        kb_view(kb.push(r)) == kb_view(kb).push(row_view(r@)),
{
    assert(kb_view(kb.push(r)) =~= kb_view(kb).push(row_view(r@)));
}

proof fn lemma_flatten_push(kb: Seq<Seq<Seq<char>>>, row: Seq<Seq<char>>)
    ensures
        flatten(kb.push(row)) == flatten(kb) + row,
{
    assert(kb.push(row).drop_last() =~= kb);
}

/// Puts `to_add` at the end of `keyboard`, unless fewer spots are free than that.
pub fn add_buttons(keyboard: &mut Vec<Vec<String>>, to_add: Vec<String>) -> (r: Result<
    (),
    KeyboardError,
>)
    requires
        old(keyboard)@.len() > 0,
        used_spots(kb_view(old(keyboard)@)) <= CAPACITY,
    ensures
        match r {
            Ok(()) => {
                &&& to_add@.len() <= CAPACITY - used_spots(kb_view(old(keyboard)@))
                &&& kb_view(final(keyboard)@) == place_buttons(
                    kb_view(old(keyboard)@),
                    row_view(to_add@),
                )
            },
            Err(KeyboardError::NotEnoughSpace(free)) => {
                &&& free == CAPACITY - used_spots(kb_view(old(keyboard)@))
                &&& to_add@.len() > free
                &&& final(keyboard)@ == old(keyboard)@
            },
            Err(_) => false,
        },
{
    let used = count_buttons(keyboard);
    let free = CAPACITY - used;
    if free < to_add.len() {
        return Err(KeyboardError::NotEnoughSpace(free));
    }
    let ghost old_view = kb_view(keyboard@);
    let ghost buttons = row_view(to_add@);
    let ghost old_kb = keyboard@;
    let mut row = keyboard.pop().unwrap();
    proof {
        assert(old_kb =~= keyboard@.push(row));
        lemma_kb_view_push(keyboard@, row);
        assert(buttons.skip(0) =~= buttons);
    }
    let ghost mut i: int = 0;
    for button in it: to_add
        invariant
            i == it.index(),
            it.seq() == to_add@,
            buttons == row_view(to_add@),
            place_buttons(old_view, buttons) == place_buttons(
                kb_view(keyboard@).push(row_view(row@)),
                buttons.skip(i as int),
            ),
    {
        let ghost before = kb_view(keyboard@).push(row_view(row@));
        let ghost old_row = row@;
        let ghost old_row_v = row;
        let ghost kb_before = keyboard@;
        proof {
            assert(buttons.skip(i as int).drop_first() =~= buttons.skip(i + 1));
            assert(buttons[i as int] == to_add@[i as int]@);
            assert(buttons.skip(i as int)[0] == buttons[i as int]);
        }
        if row.len() == MAX_COLUMN {
            keyboard.push(row);
            row = Vec::new();
            row.push(button);
            proof {
                assert(keyboard@ == kb_before.push(old_row_v));
                lemma_kb_view_push(kb_before, old_row_v);
                assert(row_view(row@) =~= seq![buttons[i as int]]);
                lemma_kb_view_push(keyboard@, row);
                assert(kb_view(keyboard@).push(row_view(row@)) =~= before.push(seq![buttons[i as int]]));
            }
        } else {
            row.push(button);
            proof {
                lemma_row_view_push(old_row, button);
                assert(kb_view(keyboard@).push(row_view(row@)) =~= before.update(
                    before.len() - 1,
                    before.last().push(buttons[i as int]),
                ));
            }
        }
        proof { i = i + 1; }
    }
    keyboard.push(row);
    proof {
        assert(buttons.skip(i as int) =~= Seq::<Seq<char>>::empty());
    }
    Ok(())
}

/// The number of buttons on `keyboard`.
fn count_buttons(keyboard: &Vec<Vec<String>>) -> (n: usize)
    requires
        used_spots(kb_view(keyboard@)) <= CAPACITY,
    ensures
        n == used_spots(kb_view(keyboard@)),
{
    let mut n: usize = 0;
    let mut i: usize = 0;
    while i < keyboard.len()
        invariant
            i <= keyboard@.len(),
            used_spots(kb_view(keyboard@)) <= CAPACITY,
            n == flatten(kb_view(keyboard@.take(i as int))).len(),
        decreases keyboard@.len() - i,
    {
        proof {
            lemma_flatten_prefix_len(kb_view(keyboard@), i as int + 1);
            assert(kb_view(keyboard@.take(i + 1)) =~= kb_view(keyboard@).take(i + 1));
            assert(kb_view(keyboard@.take(i + 1)) =~= kb_view(keyboard@.take(i as int)).push(
                row_view(keyboard@[i as int]@),
            ));
            lemma_flatten_push(kb_view(keyboard@.take(i as int)), row_view(keyboard@[i as int]@));
        }
        n = n + keyboard[i].len();
        i = i + 1;
    }
    assert(keyboard@.take(i as int) =~= keyboard@);
    n
}

/// A prefix of a keyboard holds no more buttons than the keyboard.
proof fn lemma_flatten_prefix_len(kb: Seq<Seq<Seq<char>>>, k: int)
    requires
        0 <= k <= kb.len(),
    ensures
        flatten(kb.take(k)).len() <= flatten(kb).len(),
    decreases kb.len() - k,
{
    if k < kb.len() {
        lemma_flatten_prefix_len(kb, k + 1);
        assert(kb.take(k + 1).drop_last() =~= kb.take(k));
    } else {
        assert(kb.take(k) =~= kb);
    }
}

/// The keyboard without the buttons that `to_remove` names, the others moved up into
/// rows of `MAX_COLUMN`.
pub fn remove_buttons(keyboard: &Vec<Vec<String>>, to_remove: &Vec<String>) -> (r: Vec<
    Vec<String>,
>)
    ensures
        kb_view(r@) == without_buttons(kb_view(keyboard@), row_view(to_remove@)),
{
    let ghost removed = row_view(to_remove@);
    // flatten, keeping the buttons not removed
    let mut kept: Vec<String> = Vec::new();
    let mut i: usize = 0;
    while i < keyboard.len()
        invariant
            i <= keyboard@.len(),
            removed == row_view(to_remove@),
            row_view(kept@) == kept_buttons(flatten(kb_view(keyboard@.take(i as int))), removed),
        decreases keyboard@.len() - i,
    {
        let row = &keyboard[i];
        let ghost prefix = flatten(kb_view(keyboard@.take(i as int)));
        proof {
            assert(kb_view(keyboard@.take(i + 1)) =~= kb_view(keyboard@.take(i as int)).push(
                row_view(row@),
            ));
            lemma_flatten_push(kb_view(keyboard@.take(i as int)), row_view(row@));
        }
        let mut j: usize = 0;
        while j < row.len()
            invariant
                j <= row@.len(),
                removed == row_view(to_remove@),
                row_view(kept@) == kept_buttons(prefix + row_view(row@).take(j as int), removed),
            decreases row@.len() - j,
        {
            let button = &row[j];
            let named = names_button(to_remove, button);
            proof {
                let s = prefix + row_view(row@).take(j + 1);
                assert(s.drop_last() =~= prefix + row_view(row@).take(j as int));
                assert(s.last() == button@);
            }
            if !named {
                kept.push(button.clone());
                proof {
                    assert(row_view(kept@) =~= row_view(kept@.drop_last()).push(button@));
                }
            }
            j = j + 1;
        }
        proof {
            assert(row_view(row@).take(j as int) =~= row_view(row@));
        }
        i = i + 1;
    }
    assert(keyboard@.take(i as int) =~= keyboard@);
    chunk(kept)
}

/// Whether `to_remove` names `button`.
fn names_button(to_remove: &Vec<String>, button: &String) -> (b: bool)
    ensures
        b == row_view(to_remove@).contains(button@),
{
    let mut k: usize = 0;
    while k < to_remove.len()
        invariant
            k <= to_remove@.len(),
            forall|m: int| 0 <= m < k ==> to_remove@[m]@ != button@,
        decreases to_remove@.len() - k,
    {
        if to_remove[k] == *button {
            assert(row_view(to_remove@)[k as int] == button@);
            return true;
        }
        k = k + 1;
    }
    proof {
        if row_view(to_remove@).contains(button@) {
            let m = choose|m: int| 0 <= m < row_view(to_remove@).len() && row_view(to_remove@)[m] == button@;
            assert(to_remove@[m]@ == button@);
        }
    }
    false
}

/// `buttons` cut into rows of `MAX_COLUMN`.
fn chunk(buttons: Vec<String>) -> (r: Vec<Vec<String>>)
    ensures
        kb_view(r@) == chunk_rows(row_view(buttons@)),
{
    let ghost all = row_view(buttons@);
    let mut out: Vec<Vec<String>> = Vec::new();
    let mut row: Vec<String> = Vec::new();
    let ghost mut i: int = 0;
    assert(all.subrange(0, all.len() as int) =~= all);
    assert(row_view(row@) =~= all.subrange(0, 0));
    for button in it: buttons
        invariant
            i == it.index(),
            it.seq() == buttons@,
            all == row_view(buttons@),
            row@.len() <= MAX_COLUMN,
            row@.len() <= i,
            i == 0 ==> row@.len() == 0,
            i > 0 ==> row@.len() > 0,
            row@.len() == 0 ==> i == 0,
            chunk_rows(all) == kb_view(out@) + chunk_rows(
                all.subrange(i - row@.len(), all.len() as int),
            ),
            row_view(row@) == all.subrange(i - row@.len(), i as int),
    {
        let ghost start = i - row@.len();
        assert(i < all.len());
        assert(all[i as int] == button@);
        if row.len() == MAX_COLUMN {
            proof {
                lemma_kb_view_push(out@, row);
                let rest = all.subrange(start, all.len() as int);
                assert(rest.len() > MAX_COLUMN);
                assert(rest.take(MAX_COLUMN as int) =~= row_view(row@));
                assert(rest.skip(MAX_COLUMN as int) =~= all.subrange(i as int, all.len() as int));
                assert(kb_view(out@.push(row)) =~= kb_view(out@).push(row_view(row@)));
                assert(kb_view(out@) + chunk_rows(rest) =~= kb_view(out@.push(row)) + chunk_rows(
                    all.subrange(i as int, all.len() as int),
                ));
            }
            out.push(row);
            row = Vec::new();
        }
        let ghost row_before = row@;
        row.push(button);
        proof { i = i + 1; }
        proof {
            lemma_row_view_push(row_before, button);
            assert(row_view(row@) =~= all.subrange(i - row@.len(), i as int));
        }
    }
    if row.len() > 0 {
        proof {
            let rest = all.subrange(i - row@.len(), all.len() as int);
            assert(rest =~= row_view(row@));
            assert(chunk_rows(rest) == seq![rest]);
            lemma_kb_view_push(out@, row);
            assert(kb_view(out@.push(row)) =~= kb_view(out@) + seq![rest]);
        }
        out.push(row);
    } else {
        proof {
            assert(all.subrange(i as int, all.len() as int) =~= Seq::<Seq<char>>::empty());
            assert(kb_view(out@) + Seq::<Seq<Seq<char>>>::empty() =~= kb_view(out@));
        }
    }
    out
}

/// The words of `s`, each as a `String`.
pub fn words_as_strings(s: &str) -> (r: Vec<String>)
    ensures
        row_view(r@) == words(s@),
{
    let chars = chars_of(s);
    let ws = split_whitespace(chars.as_slice());
    let mut out: Vec<String> = Vec::new();
    let mut i: usize = 0;
    while i < ws.len()
        invariant
            i <= ws@.len(),
            ws@.len() == words(s@).len(),
            chars@ == s@,
            forall|k: int| 0 <= k < ws@.len() ==> (#[trigger] ws@[k])@ == words(s@)[k],
            row_view(out@) == words(s@).take(i as int),
        decreases ws@.len() - i,
    {
        let w = string_of(ws[i].as_slice());
        let ghost out_before = out@;
        out.push(w);
        proof {
            lemma_row_view_push(out_before, w);
        }
        i = i + 1;
        assert(row_view(out@) =~= words(s@).take(i as int));
    }
    assert(words(s@).take(i as int) =~= words(s@));
    out
}

/// The keyboard `keyboard_json` holds, or a new one of one empty row where there is none.
pub open spec fn loaded_keyboard(keyboard_json: Option<String>) -> Option<Seq<Seq<Seq<char>>>> {
    match keyboard_json {
        None => Some(seq![Seq::empty()]),
        Some(text) => rows_from_json(text@),
    }
}

/// A keyboard that buttons can be added to.
pub open spec fn well_shaped(kb: Seq<Seq<Seq<char>>>) -> bool {
    kb.len() > 0 && used_spots(kb) <= CAPACITY
}

/// Adds the aliases in `args` to the stored keyboard (a new one where the user has none)
/// and gives the keyboard to store.
pub fn add_button(keyboard_json: &Option<String>, args: &str) -> (r: Result<String, KeyboardError>)
    ensures
        match loaded_keyboard(*keyboard_json) {
            None => r == Err::<String, KeyboardError>(KeyboardError::MalformedKeyboard),
            Some(kb) => if !well_shaped(kb) {
                r == Err::<String, KeyboardError>(KeyboardError::MalformedKeyboard)
            } else if words(args@).len() > CAPACITY - used_spots(kb) {
                r == Err::<String, KeyboardError>(
                    KeyboardError::NotEnoughSpace((CAPACITY - used_spots(kb)) as usize),
                )
            } else {
                r matches Ok(text) && text@ == rows_to_json(place_buttons(kb, words(args@)))
                    && rows_from_json(text@) == Some(place_buttons(kb, words(args@)))
            },
        },
{
    let mut keyboard: Vec<Vec<String>> = match keyboard_json {
        Some(text) => match parse_rows(text.as_str()) {
            Some(kb) => kb,
            None => {
                return Err(KeyboardError::MalformedKeyboard);
            },
        },
        None => {
            let mut kb: Vec<Vec<String>> = Vec::new();
            kb.push(Vec::new());
            assert(row_view(kb@[0]@) =~= Seq::<Seq<char>>::empty());
            assert(kb_view(kb@) =~= seq![Seq::<Seq<char>>::empty()]);
            kb
        },
    };
    if keyboard.len() == 0 || !fits(&keyboard) {
        return Err(KeyboardError::MalformedKeyboard);
    }
    let to_add = words_as_strings(args);
    match add_buttons(&mut keyboard, to_add) {
        Ok(()) => Ok(rows_json(&keyboard)),
        Err(e) => Err(e),
    }
}

/// Whether `keyboard` holds at most `CAPACITY` buttons.
fn fits(keyboard: &Vec<Vec<String>>) -> (b: bool)
    ensures
        b == (used_spots(kb_view(keyboard@)) <= CAPACITY),
{
    let mut n: usize = 0;
    let mut i: usize = 0;
    while i < keyboard.len()
        invariant
            i <= keyboard@.len(),
            n <= CAPACITY,
            n == flatten(kb_view(keyboard@.take(i as int))).len(),
        decreases keyboard@.len() - i,
    {
        proof {
            assert(kb_view(keyboard@.take(i + 1)) =~= kb_view(keyboard@.take(i as int)).push(
                row_view(keyboard@[i as int]@),
            ));
            lemma_flatten_push(kb_view(keyboard@.take(i as int)), row_view(keyboard@[i as int]@));
        }
        let len = keyboard[i].len();
        if len > CAPACITY - n {
            proof {
                lemma_flatten_prefix_len(kb_view(keyboard@), i + 1);
                assert(kb_view(keyboard@.take(i + 1)) =~= kb_view(keyboard@).take(i + 1));
            }
            return false;
        }
        n = n + len;
        i = i + 1;
    }
    assert(keyboard@.take(i as int) =~= keyboard@);
    true
}

/// Removes the aliases in `args` from the stored keyboard and gives the keyboard to store.
pub fn remove_button(keyboard_json: &Option<String>, args: &str) -> (r: Result<
    String,
    KeyboardError,
>)
    ensures
        match keyboard_json {
            None => r == Err::<String, KeyboardError>(KeyboardError::NoKeyboardSet),
            Some(text) => match rows_from_json(text@) {
                None => r == Err::<String, KeyboardError>(KeyboardError::MalformedKeyboard),
                Some(kb) => r matches Ok(out) && out@ == rows_to_json(
                    without_buttons(kb, words(args@)),
                ) && rows_from_json(out@) == Some(without_buttons(kb, words(args@))),
            },
        },
{
    let text = match keyboard_json {
        Some(t) => t,
        None => {
            return Err(KeyboardError::NoKeyboardSet);
        },
    };
    let keyboard = match parse_rows(text.as_str()) {
        Some(kb) => kb,
        None => {
            return Err(KeyboardError::MalformedKeyboard);
        },
    };
    let to_remove = words_as_strings(args);
    let kb = remove_buttons(&keyboard, &to_remove);
    Ok(rows_json(&kb))
}

/// The reply markup that shows the stored keyboard:
/// `{"keyboard":` the keyboard `,"resize_keyboard": true}`.
pub fn reply_markup(keyboard_json: &Option<String>) -> (r: Result<String, KeyboardError>)
    ensures
        match keyboard_json {
            None => r == Err::<String, KeyboardError>(KeyboardError::NoKeyboardSet),
            Some(text) => r matches Ok(m) && m@ == "{\"keyboard\":"@ + text@
                + ",\"resize_keyboard\": true}"@,
        },
{
    match keyboard_json {
        None => Err(KeyboardError::NoKeyboardSet),
        Some(text) => {
            let mut m = String::new();
            push_str(&mut m, "{\"keyboard\":");
            push_str(&mut m, text.as_str());
            push_str(&mut m, ",\"resize_keyboard\": true}");
            Ok(m)
        },
    }
}

impl KeyboardError {
    /// The message for the user.
    pub fn to_text(&self) -> (s: String)
        ensures
            match self {
                KeyboardError::NoKeyboardSet => s@
                    == "No keyboard set, set one by adding a button: /keyboard_add <alias> ... <alias>"@,
                KeyboardError::NotEnoughSpace(free) => s@ == "Not enough space on the keyboard, "@
                    + decimal_repr(*free as nat) + " of 12 spots left"@,
                KeyboardError::MalformedKeyboard => s@
                    == "The stored keyboard could not be read, remove it with /keyboard_remove"@,
            },
    {
        let mut s = String::new();
        match self {
            KeyboardError::NoKeyboardSet => {
                push_str(&mut s, "No keyboard set, set one by adding a button: /keyboard_add <alias> ... <alias>");
            },
            KeyboardError::NotEnoughSpace(free) => {
                push_str(&mut s, "Not enough space on the keyboard, ");
                push_decimal(&mut s, *free as u64);
                push_str(&mut s, " of 12 spots left");
            },
            KeyboardError::MalformedKeyboard => {
                push_str(&mut s, "The stored keyboard could not be read, remove it with /keyboard_remove");
            },
        }
        s
    }
}


proof fn lemma_flatten_concat(a: Seq<Seq<Seq<char>>>, b: Seq<Seq<Seq<char>>>)
    ensures
        flatten(a + b) == flatten(a) + flatten(b),
    decreases b.len(),
{
    if b.len() == 0 {
        assert(a + b =~= a);
        assert(flatten(a) + flatten(b) =~= flatten(a));
    } else {
        lemma_flatten_concat(a, b.drop_last());
        assert((a + b).drop_last() =~= a + b.drop_last());
        assert(flatten(a + b) =~= flatten(a) + flatten(b));
    }
}

/// Adding buttons keeps every button the keyboard had, in order, and puts the new
/// ones after them, in the order given.
pub proof fn lemma_add_keeps_buttons(kb: Seq<Seq<Seq<char>>>, buttons: Seq<Seq<char>>)
    requires
        kb.len() > 0,
    ensures
        flatten(place_buttons(kb, buttons)) == flatten(kb) + buttons,
        used_spots(place_buttons(kb, buttons)) == used_spots(kb) + buttons.len(),
    decreases buttons.len(),
{
    if buttons.len() == 0 {
        assert(flatten(kb) + buttons =~= flatten(kb));
    } else {
        let next = if kb.last().len() == MAX_COLUMN {
            kb.push(seq![buttons[0]])
        } else {
            kb.update(kb.len() - 1, kb.last().push(buttons[0]))
        };
        if kb.last().len() == MAX_COLUMN {
            lemma_flatten_push(kb, seq![buttons[0]]);
        } else {
            assert(next.drop_last() =~= kb.drop_last());
            assert(flatten(next) =~= flatten(kb.drop_last()) + kb.last().push(buttons[0]));
        }
        assert(flatten(next) =~= flatten(kb).push(buttons[0]));
        lemma_add_keeps_buttons(next, buttons.drop_first());
        assert(flatten(kb).push(buttons[0]) + buttons.drop_first() =~= flatten(kb) + buttons);
    }
}

/// Every row of `kb` holds at most `MAX_COLUMN` buttons.
pub open spec fn rows_fit(kb: Seq<Seq<Seq<char>>>) -> bool {
    forall|i: int| 0 <= i < kb.len() ==> (#[trigger] kb[i]).len() <= MAX_COLUMN
}

/// Adding buttons leaves every row but the last as it was, only appends to the last
/// row, and puts no more than `MAX_COLUMN` buttons on any row.
pub proof fn lemma_add_keeps_rows(kb: Seq<Seq<Seq<char>>>, buttons: Seq<Seq<char>>)
    requires
        kb.len() > 0,
        rows_fit(kb),
    ensures
        ({
            let r = place_buttons(kb, buttons);
            &&& r.len() >= kb.len()
            &&& rows_fit(r)
            &&& forall|i: int| 0 <= i < kb.len() - 1 ==> #[trigger] r[i] == kb[i]
            &&& r[kb.len() - 1].len() >= kb.last().len()
            &&& r[kb.len() - 1].take(kb.last().len() as int) == kb.last()
        }),
    decreases buttons.len(),
{
    let n = kb.len() - 1;
    if buttons.len() == 0 {
        assert(kb[n].take(kb.last().len() as int) =~= kb.last());
    } else if kb.last().len() == MAX_COLUMN {
        let next = kb.push(seq![buttons[0]]);
        assert(rows_fit(next));
        lemma_add_keeps_rows(next, buttons.drop_first());
        let r = place_buttons(next, buttons.drop_first());
        assert(r == place_buttons(kb, buttons));
        assert(r[n] == next[n]);
        assert(r[n].take(kb.last().len() as int) =~= kb.last());
    } else {
        let last = kb.last().push(buttons[0]);
        let next = kb.update(n, last);
        assert(rows_fit(next));
        lemma_add_keeps_rows(next, buttons.drop_first());
        let r = place_buttons(next, buttons.drop_first());
        assert(r == place_buttons(kb, buttons));
        assert(next.last() == last);
        assert(r[n].take(last.len() as int) == last);
        assert(r[n].take(kb.last().len() as int) =~= last.take(kb.last().len() as int));
        assert(last.take(kb.last().len() as int) =~= kb.last());
    }
}

proof fn lemma_chunk_rows(s: Seq<Seq<char>>)
    ensures
        flatten(chunk_rows(s)) == s,
        forall|i: int|
            0 <= i < chunk_rows(s).len() ==> 0 < (#[trigger] chunk_rows(s)[i]).len() <= MAX_COLUMN,
    decreases s.len(),
{
    if s.len() == 0 {
    } else if s.len() <= MAX_COLUMN {
        lemma_flatten_push(Seq::empty(), s);
        assert(seq![s] =~= Seq::<Seq<Seq<char>>>::empty().push(s));
        assert(Seq::<Seq<char>>::empty() + s =~= s);
    } else {
        let head = s.take(MAX_COLUMN as int);
        let tail = s.skip(MAX_COLUMN as int);
        lemma_chunk_rows(tail);
        lemma_flatten_concat(seq![head], chunk_rows(tail));
        lemma_flatten_push(Seq::empty(), head);
        assert(seq![head] =~= Seq::<Seq<Seq<char>>>::empty().push(head));
        assert(Seq::<Seq<char>>::empty() + head =~= head);
        assert(head + tail =~= s);
        assert forall|i: int|
            0 <= i < chunk_rows(s).len() implies 0 < (#[trigger] chunk_rows(s)[i]).len()
            <= MAX_COLUMN by {
            if i > 0 {
                assert(chunk_rows(s)[i] == chunk_rows(tail)[i - 1]);
            }
        }
    }
}

proof fn lemma_kept_buttons(s: Seq<Seq<char>>, removed: Seq<Seq<char>>)
    ensures
        forall|i: int|
            0 <= i < kept_buttons(s, removed).len() ==> !removed.contains(
                #[trigger] kept_buttons(s, removed)[i],
            ),
        forall|b: Seq<char>| #[trigger] s.contains(b) && !removed.contains(b) ==> kept_buttons(
            s,
            removed,
        ).contains(b),
    decreases s.len(),
{
    if s.len() > 0 {
        lemma_kept_buttons(s.drop_last(), removed);
        let k = kept_buttons(s, removed);
        let k0 = kept_buttons(s.drop_last(), removed);
        assert forall|b: Seq<char>| #[trigger] s.contains(b) && !removed.contains(b) implies k.contains(b) by {
            let j = choose|j: int| 0 <= j < s.len() && s[j] == b;
            if j < s.len() - 1 {
                assert(s.drop_last()[j] == b);
                assert(s.drop_last().contains(b));
                let m = choose|m: int| 0 <= m < k0.len() && k0[m] == b;
                if !removed.contains(s.last()) {
                    assert(k[m] == b);
                }
            } else {
                assert(k[k.len() - 1] == b);
            }
        }
    }
}

/// Removing buttons leaves none that was named, keeps every other one, and leaves every
/// row with at least one and at most `MAX_COLUMN` buttons.
pub proof fn lemma_remove_drops_buttons(kb: Seq<Seq<Seq<char>>>, removed: Seq<Seq<char>>)
    ensures
        forall|b: Seq<char>| #[trigger] flatten(without_buttons(kb, removed)).contains(b) <==> (
        flatten(kb).contains(b) && !removed.contains(b)),
        forall|i: int|
            0 <= i < without_buttons(kb, removed).len() ==> 0 < (#[trigger] without_buttons(
                kb,
                removed,
            )[i]).len() <= MAX_COLUMN,
{
    let kept = kept_buttons(flatten(kb), removed);
    lemma_chunk_rows(kept);
    lemma_kept_buttons(flatten(kb), removed);
    lemma_kept_subset(flatten(kb), removed);
    assert forall|b: Seq<char>| #[trigger] flatten(without_buttons(kb, removed)).contains(b) <==> (
    flatten(kb).contains(b) && !removed.contains(b)) by {
        if kept.contains(b) {
            let m = choose|m: int| 0 <= m < kept.len() && kept[m] == b;
            assert(!removed.contains(kept[m]));
        }
    }
}

proof fn lemma_kept_subset(s: Seq<Seq<char>>, removed: Seq<Seq<char>>)
    ensures
        forall|b: Seq<char>| #[trigger] kept_buttons(s, removed).contains(b) ==> s.contains(b),
    decreases s.len(),
{
    if s.len() > 0 {
        lemma_kept_subset(s.drop_last(), removed);
        let k = kept_buttons(s, removed);
        let k0 = kept_buttons(s.drop_last(), removed);
        assert forall|b: Seq<char>| #[trigger] k.contains(b) implies s.contains(b) by {
            let m = choose|m: int| 0 <= m < k.len() && k[m] == b;
            if m < k0.len() {
                assert(k0[m] == b);
                assert(k0.contains(b));
                let j = choose|j: int| 0 <= j < s.drop_last().len() && s.drop_last()[j] == b;
                assert(s[j] == b);
            } else {
                assert(s[s.len() - 1] == b);
            }
        }
    }
}


proof fn lemma_kept_concat(a: Seq<Seq<char>>, b: Seq<Seq<char>>, removed: Seq<Seq<char>>)
    ensures
        kept_buttons(a + b, removed) == kept_buttons(a, removed) + kept_buttons(b, removed),
    decreases b.len(),
{
    if b.len() == 0 {
        assert(a + b =~= a);
        assert(kept_buttons(a, removed) + kept_buttons(b, removed) =~= kept_buttons(a, removed));
    } else {
        lemma_kept_concat(a, b.drop_last(), removed);
        assert((a + b).drop_last() =~= a + b.drop_last());
        assert((a + b).last() == b.last());
        if removed.contains(b.last()) {
        } else {
            assert(kept_buttons(a + b, removed) =~= kept_buttons(a, removed) + kept_buttons(
                b,
                removed,
            ));
        }
    }
}

proof fn lemma_kept_all_removed(b: Seq<Seq<char>>, removed: Seq<Seq<char>>)
    requires
        forall|i: int| 0 <= i < b.len() ==> removed.contains(#[trigger] b[i]),
    ensures
        kept_buttons(b, removed) == Seq::<Seq<char>>::empty(),
    decreases b.len(),
{
    if b.len() > 0 {
        assert(removed.contains(b[b.len() - 1]));
        lemma_kept_all_removed(b.drop_last(), removed);
    }
}

proof fn lemma_kept_none_removed(a: Seq<Seq<char>>, removed: Seq<Seq<char>>)
    requires
        forall|i: int| 0 <= i < a.len() ==> !removed.contains(#[trigger] a[i]),
    ensures
        kept_buttons(a, removed) == a,
    decreases a.len(),
{
    if a.len() > 0 {
        assert(!removed.contains(a[a.len() - 1]));
        lemma_kept_none_removed(a.drop_last(), removed);
        assert(a.drop_last().push(a.last()) =~= a);
    }
}

/// Removing the buttons just added gives back the buttons the keyboard had, in order,
/// where none of them was among those added.
pub proof fn lemma_remove_undoes_add(kb: Seq<Seq<Seq<char>>>, buttons: Seq<Seq<char>>)
    requires
        kb.len() > 0,
        forall|i: int| 0 <= i < flatten(kb).len() ==> !buttons.contains(#[trigger] flatten(kb)[i]),
    ensures
        flatten(without_buttons(place_buttons(kb, buttons), buttons)) == flatten(kb),
{
    lemma_add_keeps_buttons(kb, buttons);
    let all = flatten(place_buttons(kb, buttons));
    lemma_chunk_rows(kept_buttons(all, buttons));
    lemma_kept_concat(flatten(kb), buttons, buttons);
    assert forall|i: int| 0 <= i < buttons.len() implies buttons.contains(#[trigger] buttons[i]) by {}
    lemma_kept_all_removed(buttons, buttons);
    lemma_kept_none_removed(flatten(kb), buttons);
    assert(flatten(kb) + Seq::<Seq<char>>::empty() =~= flatten(kb));
}

} // verus!
