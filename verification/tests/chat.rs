use dataserver::bot::{resolve_alias, route, BotError, Command, Route};
use dataserver::keyboard::{
    add_button, add_buttons, remove_button, remove_buttons, reply_markup, KeyboardError,
};
use dataserver::user::User;

fn user_with_alias() -> User {
    let mut u = User::new(1, "bob".to_owned(), 0);
    u.set_alias("temp".to_owned(), "/show 3_0".to_owned());
    u
}

#[test]
fn commands_are_routed_with_their_arguments() {
    let u = user_with_alias();
    match route("/plot 3_0 2h", &u) {
        Route::Run(c, args) => {
            assert_eq!(c, Command::Plot);
            assert_eq!(args, " 3_0 2h");
        }
        _ => panic!("not routed"),
    }
    match route("/help", &u) {
        Route::Run(c, args) => {
            assert_eq!(c, Command::Help);
            assert_eq!(args, "");
        }
        _ => panic!("not routed"),
    }
    match route("/keyboard_add a b", &u) {
        Route::Run(c, _) => assert_eq!(c, Command::KeyboardAdd),
        _ => panic!("not routed"),
    }
}

#[test]
fn aliases_are_followed() {
    let u = user_with_alias();
    match route("temp", &u) {
        Route::FollowAlias(t) => assert_eq!(t, "/show 3_0"),
        _ => panic!("alias not followed"),
    }
    match route("nothing here", &u) {
        Route::UnknownAlias(w) => assert_eq!(w, "nothing"),
        _ => panic!("expected an unknown word"),
    }
    assert_eq!(resolve_alias("temp", &u).ok().unwrap(), Some("/show 3_0".to_owned()));
    assert_eq!(resolve_alias("tmp", &u).ok().unwrap(), None);
}

#[test]
fn unknown_alias_message() {
    let text = BotError::UnknownAlias("xyz".to_owned()).to_text();
    assert_eq!(
        text,
        "your input: \"xyz\", is not a possible command or a configured alias. Use /help to get a list of possible commands and configured aliases"
    );
}

fn kb(rows: &[&[&str]]) -> Vec<Vec<String>> {
    rows.iter().map(|r| r.iter().map(|s| s.to_string()).collect()).collect()
}

#[test]
fn buttons_fill_rows_of_four() {
    let mut k = kb(&[&["a", "b", "c"]]);
    let add: Vec<String> = vec!["d", "e", "f"].into_iter().map(String::from).collect();
    assert!(add_buttons(&mut k, add).is_ok());
    assert_eq!(k, kb(&[&["a", "b", "c", "d"], &["e", "f"]]));
}

#[test]
fn buttons_beyond_capacity_are_refused() {
    let mut k = kb(&[&["a", "b", "c", "d"], &["e", "f", "g", "h"], &["i", "j"]]);
    let add: Vec<String> = vec!["x", "y", "z"].into_iter().map(String::from).collect();
    match add_buttons(&mut k, add) {
        Err(KeyboardError::NotEnoughSpace(free)) => assert_eq!(free, 2),
        _ => panic!("expected no room"),
    }
    assert_eq!(k.len(), 3);
}

#[test]
fn removed_buttons_close_up() {
    let k = kb(&[&["a", "b", "c", "d"], &["e", "f"]]);
    let gone = vec!["b".to_owned(), "e".to_owned()];
    assert_eq!(remove_buttons(&k, &gone), kb(&[&["a", "c", "d", "f"]]));
    let all = vec!["a", "b", "c", "d", "e", "f"].into_iter().map(String::from).collect();
    assert_eq!(remove_buttons(&k, &all), Vec::<Vec<String>>::new());
}

#[test]
fn stored_keyboard_json() {
    let stored = add_button(&None, "temp hum").ok().unwrap();
    assert_eq!(stored, "[[\"temp\",\"hum\"]]");
    let stored = add_button(&Some(stored), "a b c").ok().unwrap();
    assert_eq!(stored, "[[\"temp\",\"hum\",\"a\",\"b\"],[\"c\"]]");
    let stored = remove_button(&Some(stored), "hum a").ok().unwrap();
    assert_eq!(stored, "[[\"temp\",\"b\",\"c\"]]");
    assert!(matches!(remove_button(&None, "a"), Err(KeyboardError::NoKeyboardSet)));
    assert!(matches!(add_button(&Some("{".to_owned()), "a"), Err(KeyboardError::MalformedKeyboard)));
    assert!(matches!(add_button(&Some("[]".to_owned()), "a"), Err(KeyboardError::MalformedKeyboard)));
}

#[test]
fn keyboard_markup_and_messages() {
    assert_eq!(
        reply_markup(&Some("[[\"a\"]]".to_owned())).ok().unwrap(),
        "{\"keyboard\":[[\"a\"]],\"resize_keyboard\": true}"
    );
    assert!(matches!(reply_markup(&None), Err(KeyboardError::NoKeyboardSet)));
    assert_eq!(
        KeyboardError::NotEnoughSpace(3).to_text(),
        "Not enough space on the keyboard, 3 of 12 spots left"
    );
    assert_eq!(
        KeyboardError::NoKeyboardSet.to_text(),
        "No keyboard set, set one by adding a button: /keyboard_add <alias> ... <alias>"
    );
}

#[test]
fn stored_keyboards_read_back_as_written() {
    let text = add_button(&None, "/a \"q\\uote\" é").ok().unwrap();
    let rows: Vec<Vec<String>> = serde_json::from_str(&text).unwrap();
    assert_eq!(rows, vec![vec!["/a".to_owned(), "\"q\\uote\"".to_owned(), "é".to_owned()]]);
    let text = remove_button(&Some(text), "/a").ok().unwrap();
    let rows: Vec<Vec<String>> = serde_json::from_str(&text).unwrap();
    assert_eq!(rows, vec![vec!["\"q\\uote\"".to_owned(), "é".to_owned()]]);
}
