use dataserver::alarm_keys::{alarm_key, key_ids, user_range};
use dataserver::alarm::{local_time, readable_conditions, readable_sets, watched_sets, AlarmState, Firing, Gate};
use dataserver::alarm_args::{parse_arguments, readable_times, Weekday};
use dataserver::alarm_cmd::{
    alarm_numbers, alarm_subcommand, check_new_alarm, list_alarms, removal_reply,
    unknown_subcommand_text, Alarm, AlarmCommand, AlarmError, NotifyVia, HELP_ADD,
};
use dataserver::authorisation::Authorisation;
use dataserver::user::User;

// 2024-01-01 00:00:00 UTC was a Monday.
const MONDAY_MIDNIGHT: i64 = 1_704_067_200;

#[test]
fn local_time_of_day_and_weekday() {
    assert_eq!(local_time(MONDAY_MIDNIGHT, 0), (Weekday::Mon, 0));
    assert_eq!(local_time(MONDAY_MIDNIGHT + 9 * 3600 + 30 * 60, 0), (Weekday::Mon, 34200));
    assert_eq!(local_time(MONDAY_MIDNIGHT, -1), (Weekday::Sun, 23 * 3600));
    assert_eq!(local_time(MONDAY_MIDNIGHT + 23 * 3600, 2), (Weekday::Tue, 3600));
    assert_eq!(local_time(0, 0), (Weekday::Thu, 0));
    assert_eq!(local_time(-1, 0), (Weekday::Wed, 86399));
}

fn state(period: Option<u64>, days: Option<Vec<Weekday>>, inverse: bool) -> AlarmState {
    AlarmState::new("3_0 > 5 && t < 34200".to_owned(), inverse, days, period, None, 0, MONDAY_MIDNIGHT - 3600)
}

#[test]
fn alarms_wait_for_their_period_and_days() {
    // set an hour before Monday midnight
    let a = state(Some(3600), None, false);
    assert_eq!(a.gate(MONDAY_MIDNIGHT - 3590), Gate::Cooldown);
    assert_eq!(a.gate(MONDAY_MIDNIGHT), Gate::Evaluate { inverse: false, seconds: 0 });
    let a = state(None, Some(vec![Weekday::Sat, Weekday::Sun]), false);
    assert_eq!(a.gate(MONDAY_MIDNIGHT), Gate::WrongDay);
    assert_eq!(
        a.gate(MONDAY_MIDNIGHT - 60),
        Gate::Evaluate { inverse: false, seconds: 86340 }
    );
}

#[test]
fn firing_alarms_say_what_fired_and_switch_to_their_inverse() {
    let mut a = state(None, None, true);
    assert!(matches!(a.after_evaluation(false, MONDAY_MIDNIGHT), Firing::Quiet));
    assert!(!a.inverted);
    match a.after_evaluation(true, MONDAY_MIDNIGHT) {
        Firing::Notify(t) => assert_eq!(t, "alarm fired: 3_0 > 5 && t < 09:30"),
        _ => panic!("no notification"),
    }
    assert!(a.inverted);
    match a.after_evaluation(true, MONDAY_MIDNIGHT) {
        Firing::Notify(t) => assert_eq!(t, "alarm re-enabled: 3_0 > 5 && t < 09:30"),
        _ => panic!("no notification"),
    }
    assert!(!a.inverted);
    let mut b = AlarmState::new("1_1 > 2".to_owned(), false, None, None, Some("hot".to_owned()), 0, 0);
    match b.after_evaluation(true, 0) {
        Firing::Notify(t) => assert_eq!(t, "hot"),
        _ => panic!("no notification"),
    }
    assert!(!b.inverted);
    // a time that does not fit in 32 bits cannot be written back as a clock time
    assert!(!readable_conditions("t < 99999999999"));
    assert!(readable_conditions("t < 4294967295"));
}

#[test]
fn watched_sets_follow_the_field_references() {
    assert_eq!(watched_sets("3_0 > 3_1 && 12_4 < t"), vec![3, 3, 12]);
    assert_eq!(watched_sets("t > 5"), Vec::<u16>::new());
    assert!(readable_sets("1_2"));
    assert!(!readable_sets("70000_2"));
    // the sets an alarm is registered under are those its condition reads
    let a = parse_arguments("\"3_0 > 3_1 && 12_4 < 7\"").ok().unwrap();
    let mut from_fields: Vec<u16> = a.fields.iter().map(|(s, _)| *s).collect();
    let mut watched = watched_sets(&a.expression);
    from_fields.sort();
    watched.sort();
    watched.dedup();
    assert_eq!(from_fields, watched);
}

#[test]
fn readability_checks() {
    assert!(readable_conditions("t < 34200"));
    assert!(!readable_conditions("t < 4294967296"));
    assert!(readable_times("t < 9:30"));
    assert!(!readable_times("t < \u{0663}:30"));
}

#[test]
fn subcommands() {
    let (c, args) = alarm_subcommand("  add \"1_1 > 2\" -p 5h");
    assert_eq!(c, AlarmCommand::Add);
    assert_eq!(args, "\"1_1 > 2\" -p 5h");
    let (c, args) = alarm_subcommand("list");
    assert_eq!(c, AlarmCommand::List);
    assert_eq!(args, "");
    let (c, args) = alarm_subcommand("remove 1 2");
    assert_eq!(c, AlarmCommand::Remove);
    assert_eq!(args, "1 2");
    let (c, _) = alarm_subcommand("delete 1");
    assert_eq!(c, AlarmCommand::Unknown);
}

#[test]
fn alarm_numbers_largest_first() {
    assert_eq!(alarm_numbers("2 0 5 2").ok().unwrap(), vec![5, 2, 2, 0]);
    assert_eq!(alarm_numbers("").ok().unwrap(), Vec::<usize>::new());
    match alarm_numbers("1 two 3") {
        Err(w) => assert_eq!(w, "two"),
        Ok(_) => panic!("accepted a word"),
    }
    assert_eq!(removal_reply(2), "alarms removed");
    assert_eq!(removal_reply(1), "alarm removed");
}

fn alarm(expression: &str) -> Alarm {
    Alarm {
        expression: expression.to_owned(),
        inv_expr: None,
        weekday: None,
        period: None,
        message: None,
        command: None,
        tz_offset: 0,
        notify: NotifyVia { email: None, telegram: Some(5) },
    }
}

#[test]
fn listing_alarms() {
    assert_eq!(list_alarms(&vec![]), "I have no alarms for you");
    let mut a = alarm("1_1 > 2 && t > 34200");
    a.weekday = Some(vec![Weekday::Sat, Weekday::Sun]);
    a.period = Some(3600);
    a.message = Some("hot".to_owned());
    a.inv_expr = Some("1_1 <= 2".to_owned());
    let b = alarm("2_0 < 1");
    assert_eq!(
        list_alarms(&vec![a, b]),
        "0\texpr: 1_1 > 2 && t > 09:30\nvalid on: [Sat,Sun,]\ncooldown: 3600s\nmessage: hot\nreactivating if: 1_1 <= 2\n1\texpr: 2_0 < 1\n"
    );
}

#[test]
fn alarm_messages() {
    assert_eq!(AlarmError::NoAccessToField(3).to_text(), "You do not have access to field: 3");
    assert_eq!(AlarmError::NoAccessToDataSet(12).to_text(), "You do not have access to dataset: 12");
    assert_eq!(AlarmError::NotEnoughArguments.to_text(), format!("Not enough arguments, usage: {}", HELP_ADD));
    assert_eq!(AlarmError::InvalidDay("Funday".to_owned()).to_text(), "I could not understand what day this is: Funday");
    assert_eq!(AlarmError::AlreadyRemoved.to_text(), "alarm was already removed");
    assert!(unknown_subcommand_text().starts_with("Could not recognise the subcommand, see documentation: \n/alarm list"));
}

#[test]
fn new_alarms_are_checked() {
    let mut u = User::new(1, "eve".to_owned(), 0);
    u.set_access(3, vec![Authorisation::Reader(0), Authorisation::Reader(1)]);
    let a = parse_arguments("\"3_0 > 3_1\"").ok().unwrap();
    assert!(check_new_alarm(&a, &u).is_ok());
    let a = parse_arguments("\"3_2 > 3_1\"").ok().unwrap();
    assert!(matches!(check_new_alarm(&a, &u), Err(AlarmError::NoAccessToField(2))));
    let a = parse_arguments("\"4_0 > 1\"").ok().unwrap();
    assert!(matches!(check_new_alarm(&a, &u), Err(AlarmError::NoAccessToDataSet(4))));
    let a = parse_arguments("\"(3_0 > 1\"").ok().unwrap();
    assert!(matches!(check_new_alarm(&a, &u), Err(AlarmError::ExpressionError(_))));
}

#[test]
fn alarm_keys_put_owner_first_big_endian() {
    let key = alarm_key(0x0102, 0x0304_0506);
    assert_eq!(key, vec![0, 0, 0, 0, 0, 0, 1, 2, 0, 0, 0, 0, 3, 4, 5, 6]);
    assert_eq!(key_ids(&key), (0x0102, 0x0304_0506));
    let (start, end) = user_range(0x0102);
    assert_eq!(start, vec![0, 0, 0, 0, 0, 0, 1, 2, 0, 0, 0, 0, 0, 0, 0, 0]);
    assert_eq!(end, vec![0, 0, 0, 0, 0, 0, 1, 2, 255, 255, 255, 255, 255, 255, 255, 255]);
}

#[test]
fn user_range_holds_own_alarm_keys_only() {
    let (start, end) = user_range(7);
    let inside = |k: &Vec<u8>| start.as_slice() <= k.as_slice() && k.as_slice() < end.as_slice();
    assert!(inside(&alarm_key(7, 0)));
    assert!(inside(&alarm_key(7, 12345)));
    assert!(inside(&alarm_key(7, u64::MAX - 1)));
    assert!(!inside(&alarm_key(7, u64::MAX)));
    assert!(!inside(&alarm_key(6, 5)));
    assert!(!inside(&alarm_key(8, 0)));
}

#[test]
fn period_counts_from_the_last_firing() {
    let mut a = state(Some(600), None, false);
    assert_eq!(a.gate(MONDAY_MIDNIGHT), Gate::Evaluate { inverse: false, seconds: 0 });
    assert!(matches!(a.after_evaluation(false, MONDAY_MIDNIGHT), Firing::Quiet));
    // not fired: still evaluated a minute later
    assert_eq!(a.gate(MONDAY_MIDNIGHT + 60), Gate::Evaluate { inverse: false, seconds: 60 });
    assert!(matches!(a.after_evaluation(true, MONDAY_MIDNIGHT + 60), Firing::Notify(_)));
    assert_eq!(a.cooldown_from, MONDAY_MIDNIGHT + 60);
    // fired: cools down for ten minutes from then
    assert_eq!(a.gate(MONDAY_MIDNIGHT + 60 + 599), Gate::Cooldown);
    assert_eq!(a.gate(MONDAY_MIDNIGHT + 60 + 600), Gate::Evaluate { inverse: false, seconds: 660 });
}

#[test]
fn conditions_are_kept_short_enough_for_the_engine() {
    let u = User::new(1, "eve".to_owned(), 0);
    let at_most = |text: String| {
        let a = parse_arguments(&format!("\"{}\"", text)).ok().unwrap();
        check_new_alarm(&a, &u)
    };
    // nested as deep as the length allows, the engine still answers
    let deep_not = format!("{}true", "!".repeat(996));
    assert_eq!(deep_not.len(), 1000);
    assert!(!matches!(at_most(deep_not), Err(AlarmError::ConditionTooLong)));
    let deep_neg = format!("{}1 > 0", "-".repeat(995));
    assert!(!matches!(at_most(deep_neg), Err(AlarmError::ConditionTooLong)));
    let deep_parens = format!("{}1{}", "(".repeat(499), ")".repeat(499));
    assert!(at_most(deep_parens).is_ok());
    let deep_power = format!("{}2 > 1", "2^".repeat(497));
    assert!(!matches!(at_most(deep_power), Err(AlarmError::ConditionTooLong)));
    // one character more is refused before the engine sees it
    let too_long = format!("{}true", "!".repeat(997));
    assert!(matches!(at_most(too_long), Err(AlarmError::ConditionTooLong)));
    assert_eq!(
        AlarmError::ConditionTooLong.to_text(),
        "The alarms condition is too long, it may have at most 1000 characters"
    );
}
