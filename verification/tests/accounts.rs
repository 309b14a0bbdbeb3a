use dataserver::password::{PasswDbError, PasswordDatabase};
use dataserver::user::User;
use dataserver::user_lookup::{LookupError, UserLookup};
use dataserver::web::{goodby, index, is_logged_in, make_domain_list, port_from_answer, stop, UriSegmentError, CheckLogin, LoginCheck, SayHiTransform};
use std::collections::HashMap;

#[test]
fn salt_is_database_part_then_user_name() {
    let db = PasswordDatabase::new();
    let salt = db.salt(b"ann");
    assert_eq!(salt.len(), 19);
    assert_eq!(&salt[..16], &db.db_salt_component[..]);
    assert_eq!(&salt[16..], b"ann");
    assert_eq!(db.pbkdf2_iterations, 100_000);
}

#[test]
fn set_password_verifies() {
    let db = PasswordDatabase::new();
    let credential = db.credential(b"ann", b"secret");
    assert_eq!(credential.len(), 32);
    assert!(db.verify_password(Ok(Some(credential.clone())), b"ann", b"secret").is_ok());
    assert!(matches!(
        db.verify_password(Ok(Some(credential.clone())), b"ann", b"Secret"),
        Err(PasswDbError::WrongPassword)
    ));
    assert!(matches!(
        db.verify_password(Ok(Some(credential)), b"bob", b"secret"),
        Err(PasswDbError::WrongPassword)
    ));
    assert!(matches!(db.verify_password(Ok(None), b"ann", b"secret"), Err(PasswDbError::WrongUsername)));
    assert!(matches!(db.verify_password(Err(()), b"ann", b"secret"), Err(PasswDbError::Internal)));
    assert!(matches!(
        db.verify_password(Ok(Some(Vec::new())), b"ann", b"secret"),
        Err(PasswDbError::WrongPassword)
    ));
}

#[test]
fn credentials_depend_on_name_and_password() {
    let db = PasswordDatabase::new();
    assert_ne!(db.credential(b"ann", b"secret"), db.credential(b"bob", b"secret"));
    assert_ne!(db.credential(b"ann", b"secret"), db.credential(b"ann", b"secret2"));
    assert_eq!(db.credential(b"ann", b"secret"), db.credential(b"ann", b"secret"));
}

#[test]
fn lookup_follows_renames_and_accounts() {
    let mut l = UserLookup::new();
    l.add("ann".to_owned(), 1);
    assert_eq!(l.by_name("ann").ok(), Some(1));
    assert!(!l.is_unique_name("ann"));
    assert!(l.is_unique_name("bob"));
    let old = User::new(1, "ann".to_owned(), 0);
    let mut new = User::new(1, "anna".to_owned(), 0);
    new.telegram_id = Some(77);
    l.update(&old, &new);
    assert!(matches!(l.by_name("ann"), Err(LookupError::UserNameNotInDb(n)) if n == "ann"));
    assert_eq!(l.by_name("anna").ok(), Some(1));
    assert_eq!(l.by_telegram_id(&77).ok(), Some(1));
    assert!(!l.is_unique_telegram_id(&77));
    let mut newer = User::new(1, "anna".to_owned(), 0);
    newer.telegram_id = None;
    l.update(&new, &newer);
    assert!(matches!(l.by_telegram_id(&77), Err(LookupError::TelegramUserNotInDb(77))));
    l.remove_by_name("anna");
    assert!(l.by_name("anna").is_err());
}

#[test]
fn lookup_from_users() {
    let mut a = User::new(1, "ann".to_owned(), 0);
    a.telegram_id = Some(10);
    let b = User::new(2, "bob".to_owned(), 0);
    let l = UserLookup::from_user_db(&vec![a, b]);
    assert_eq!(l.by_name("bob").ok(), Some(2));
    assert_eq!(l.by_telegram_id(&10).ok(), Some(1));
    assert!(l.by_telegram_id(&11).is_err());
}

#[test]
fn web_paths_and_login() {
    assert_eq!(index("plot.html"), Ok("web/plot.html".to_owned()));
    assert_eq!(index("/etc/x"), Ok("web/etc/x".to_owned()));
    assert_eq!(index("../../etc/passwd"), Ok("web/etc/passwd".to_owned()));
    assert_eq!(index("a/../b"), Ok("web/b".to_owned()));
    assert_eq!(index("a//b/"), Ok("web/a/b".to_owned()));
    assert_eq!(index(""), Ok("web/".to_owned()));
    assert_eq!(index("a/.hidden"), Err(UriSegmentError::BadStart('.')));
    assert_eq!(index("*x"), Err(UriSegmentError::BadStart('*')));
    assert_eq!(index("c:"), Err(UriSegmentError::BadEnd(':')));
    assert_eq!(index("a>/b"), Err(UriSegmentError::BadEnd('>')));
    assert_eq!(goodby(), "Goodby!");
    let s = stop();
    assert!(s.graceful);
    assert_eq!(s.timeout_secs, 5);
    let mut sessions: HashMap<u16, ()> = HashMap::new();
    sessions.insert(12, ());
    assert!(is_logged_in(&sessions, "12").is_ok());
    assert!(is_logged_in(&sessions, "13").is_err());
    assert!(is_logged_in(&sessions, "abc").is_err());
    let m = CheckLogin {}.new_transform(());
    assert!(matches!(m.call(Some("12"), &sessions, "/plot"), LoginCheck::Pass));
    match m.call(None, &sessions, "/plot") {
        LoginCheck::Redirect(to) => assert_eq!(to, "/login/plot"),
        LoginCheck::Pass => panic!("let through"),
    }
    match m.call(Some("99"), &sessions, "/x") {
        LoginCheck::Redirect(to) => assert_eq!(to, "/login/x"),
        LoginCheck::Pass => panic!("let through"),
    }
    let hi = SayHiTransform.new_transform(());
    assert_eq!(hi.greeting("/a"), "You requested: /a");
}

#[test]
fn domain_lists() {
    assert_eq!(make_domain_list("example.org"), ("www.example.org".to_owned(), "example.org".to_owned()));
    assert_eq!(make_domain_list("www.example.org"), ("www.".to_owned(), "example.org".to_owned()));
}

#[test]
fn lookup_messages() {
    assert_eq!(
        LookupError::TelegramUserNotInDb(-42).to_text(),
        "this telegram account may not use this bot, to be able to use this bot add your telegram id: -42 to your account"
    );
    assert_eq!(LookupError::UserNameNotInDb("zed".to_owned()).to_text(), "I know no user by the name: zed");
}

#[test]
fn certificate_port_answers() {
    assert_eq!(port_from_answer(true, " y\n"), Ok(80));
    assert_eq!(port_from_answer(true, "Y"), Err(()));
    assert_eq!(port_from_answer(true, "8080"), Err(()));
    assert_eq!(port_from_answer(false, "8080\n"), Ok(8080));
    assert_eq!(port_from_answer(false, "\t+22 "), Ok(22));
    assert_eq!(port_from_answer(false, "4294967295"), Ok(4294967295));
    assert_eq!(port_from_answer(false, "4294967296"), Err(()));
    assert_eq!(port_from_answer(false, "eighty"), Err(()));
    assert_eq!(port_from_answer(false, "  "), Err(()));
}
