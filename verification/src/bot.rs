//! Which chat command a message asks for, following the user's aliases.
use vstd::prelude::*;
use crate::text::{chars_of, is_whitespace, is_ws, push_str, string_of, word_len};
use crate::user::User;

verus! {

/// The commands of the chat bot.
#[derive(PartialEq, Eq, Structural, Clone, Copy, Debug)]
pub enum Command {
    Test,
    Plot,
    Help,
    Plotables,
    Show,
    Keyboard,
    KeyboardAdd,
    KeyboardRemove,
    Alarm,
    Alias,
}

/// The command a word names, if any.
pub open spec fn command_named(word: Seq<char>) -> Option<Command> {
    if word == "/test"@ {
        Some(Command::Test)
    } else if word == "/plot"@ {
        Some(Command::Plot)
    } else if word == "/help"@ {
        Some(Command::Help)
    } else if word == "/plotables"@ {
        Some(Command::Plotables)
    } else if word == "/show"@ {
        Some(Command::Show)
    } else if word == "/keyboard"@ {
        Some(Command::Keyboard)
    } else if word == "/keyboard_add"@ {
        Some(Command::KeyboardAdd)
    } else if word == "/keyboard_remove"@ {
        Some(Command::KeyboardRemove)
    } else if word == "/alarm"@ {
        Some(Command::Alarm)
    } else if word == "/alias"@ {
        Some(Command::Alias)
    } else {
        None
    }
}

/// Each command word names its own command, and no two words name the same command.
pub proof fn lemma_command_words()
    ensures
        command_named("/test"@) == Some(Command::Test),
        command_named("/plot"@) == Some(Command::Plot),
        command_named("/help"@) == Some(Command::Help),
        command_named("/plotables"@) == Some(Command::Plotables),
        command_named("/show"@) == Some(Command::Show),
        command_named("/keyboard"@) == Some(Command::Keyboard),
        command_named("/keyboard_add"@) == Some(Command::KeyboardAdd),
        command_named("/keyboard_remove"@) == Some(Command::KeyboardRemove),
        command_named("/alarm"@) == Some(Command::Alarm),
        command_named("/alias"@) == Some(Command::Alias),
        forall|a: Seq<char>, b: Seq<char>|
            #![trigger command_named(a), command_named(b)]
            command_named(a) is Some && command_named(a) == command_named(b) ==> a == b,
{
    reveal_strlit("/test");
    reveal_strlit("/plot");
    reveal_strlit("/help");
    reveal_strlit("/plotables");
    reveal_strlit("/show");
    reveal_strlit("/keyboard");
    reveal_strlit("/keyboard_add");
    reveal_strlit("/keyboard_remove");
    reveal_strlit("/alarm");
    reveal_strlit("/alias");
    assert("/test"@.len() == 5);
    assert("/plot"@.len() == 5);
    assert("/help"@.len() == 5);
    assert("/plotables"@.len() == 10);
    assert("/show"@.len() == 5);
    assert("/keyboard"@.len() == 9);
    assert("/keyboard_add"@.len() == 13);
    assert("/keyboard_remove"@.len() == 16);
    assert("/alarm"@.len() == 6);
    assert("/alias"@.len() == 6);
    assert("/plot"@[1] != "/test"@[1]);
    assert("/help"@[1] != "/test"@[1] && "/help"@[1] != "/plot"@[1]);
    assert("/show"@[1] != "/test"@[1] && "/show"@[1] != "/plot"@[1] && "/show"@[1] != "/help"@[1]);
    assert("/alias"@[3] != "/alarm"@[3]);
}

/// What to do with a message, one step: run a command with the rest of the message as
/// its arguments, handle the text an alias stands for, or refuse the unknown word.
pub enum Route {
    Run(Command, String),
    FollowAlias(String),
    UnknownAlias(String),
}

pub enum BotError {
    /// The first word of a message is neither a command nor one of the user's aliases.
    UnknownAlias(String),
}

/// Whether `a` and `b` hold the same characters.
pub fn same_text(a: &[char], b: &str) -> (r: bool)
    ensures
        r == (a@ == b@),
{
    let bc = chars_of(b);
    if a.len() != bc.len() {
        return false;
    }
    let mut i: usize = 0;
    while i < a.len()
        invariant
            i <= a@.len(),
            a@.len() == bc@.len(),
            bc@ == b@,
            forall|k: int| 0 <= k < i ==> a@[k] == bc@[k],
        decreases a@.len() - i,
    {
        if a[i] != bc[i] {
            return false;
        }
        i = i + 1;
    }
    assert(a@ =~= bc@);
    true
}

fn command_of(word: &[char]) -> (c: Option<Command>)
    ensures
        c == command_named(word@),
{
    if same_text(word, "/test") {
        Some(Command::Test)
    } else if same_text(word, "/plot") {
        Some(Command::Plot)
    } else if same_text(word, "/help") {
        Some(Command::Help)
    } else if same_text(word, "/plotables") {
        Some(Command::Plotables)
    } else if same_text(word, "/show") {
        Some(Command::Show)
    } else if same_text(word, "/keyboard") {
        Some(Command::Keyboard)
    } else if same_text(word, "/keyboard_add") {
        Some(Command::KeyboardAdd)
    } else if same_text(word, "/keyboard_remove") {
        Some(Command::KeyboardRemove)
    } else if same_text(word, "/alarm") {
        Some(Command::Alarm)
    } else if same_text(word, "/alias") {
        Some(Command::Alias)
    } else {
        None
    }
}

/// The text an alias of the user stands for, if `possible_alias` is one.
pub fn resolve_alias(possible_alias: &str, user: &User) -> (r: Result<Option<String>, BotError>)
    ensures
        r matches Ok(found) && (match found {
            Some(text) => user.aliases@.contains_key(possible_alias@) && text
                == user.aliases@[possible_alias@],
            None => !user.aliases@.contains_key(possible_alias@),
        }),
{
    match user.aliases.get(possible_alias) {
        Some(text) => Ok(Some(text.clone())),
        None => Ok(None),
    }
}

/// The position of the first white space in `text`, or its length where there is none.
fn first_space(text: &[char]) -> (n: usize)
    ensures
        n == word_len(text@),
{
    let mut i: usize = 0;
    assert(text@.skip(0) =~= text@);
    while i < text.len() && !is_whitespace(text[i])
        invariant
            i <= text@.len(),
            word_len(text@) == i + word_len(text@.skip(i as int)),
        decreases text@.len() - i,
    {
        proof {
            assert(text@.skip(i as int).drop_first() =~= text@.skip(i + 1));
        }
        i = i + 1;
    }
    i
}

/// One step of handling a message: its first word, up to the first white space, names
/// a command, which gets the rest of the text (white space included) as arguments; or
/// it is an alias of the user, whose text is handled next; or it is refused.
pub fn route(text: &str, user: &User) -> (r: Route)
    ensures
        ({
            let n = word_len(text@) as int;
            let word = text@.take(n);
            let args = text@.skip(n);
            match command_named(word) {
                Some(c) => r matches Route::Run(rc, ra) && rc == c && ra@ == args,
                None => if user.aliases@.contains_key(word) {
                    r matches Route::FollowAlias(next) && next == user.aliases@[word]
                } else {
                    r matches Route::UnknownAlias(w) && w@ == word
                },
            }
        }),
{
    let chars = chars_of(text);
    proof {
        lemma_word_len_le(chars@);
    }
    let n = first_space(chars.as_slice());
    let word = slice_chars(&chars, 0, n);
    let args = slice_chars(&chars, n, chars.len());
    proof {
        assert(word@ =~= text@.take(n as int));
        assert(args@ =~= text@.skip(n as int));
    }
    match command_of(word.as_slice()) {
        Some(c) => Route::Run(c, string_of(args.as_slice())),
        None => {
            let w = string_of(word.as_slice());
            match resolve_alias(w.as_str(), user) {
                Ok(Some(next)) => Route::FollowAlias(next),
                _ => Route::UnknownAlias(w),
            }
        },
    }
}

proof fn lemma_word_len_le(s: Seq<char>)
    ensures
        word_len(s) <= s.len(),
    decreases s.len(),
{
    if s.len() > 0 && !is_ws(s[0]) {
        lemma_word_len_le(s.drop_first());
    }
}

/// `v[from..to]`.
fn slice_chars(v: &Vec<char>, from: usize, to: usize) -> (out: Vec<char>)
    requires
        from <= to <= v@.len(),
    ensures
        out@ == v@.subrange(from as int, to as int),
{
    let mut out: Vec<char> = Vec::new();
    let mut i: usize = from;
    while i < to
        invariant
            from <= i <= to,
            to <= v@.len(),
            out@ == v@.subrange(from as int, i as int),
        decreases to - i,
    {
        out.push(v[i]);
        i = i + 1;
        assert(out@ =~= v@.subrange(from as int, i as int));
    }
    out
}

impl BotError {
    /// The message for the user.
    pub fn to_text(&self) -> (s: String)
        ensures
            match self {
                BotError::UnknownAlias(w) => s@ == "your input: \""@ + w@
                    + "\", is not a possible command or a configured alias. Use /help to get a list of possible commands and configured aliases"@,
            },
    {
        let mut s = String::new();
        match self {
            BotError::UnknownAlias(w) => {
                push_str(&mut s, "your input: \"");
                push_str(&mut s, w.as_str());
                push_str(
                    &mut s,
                    "\", is not a possible command or a configured alias. Use /help to get a list of possible commands and configured aliases",
                );
            },
        }
        s
    }
}

} // verus!
