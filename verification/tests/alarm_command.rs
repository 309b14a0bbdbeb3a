use dataserver::alarm_args::{
    format_time_human_readable, format_time_to_seconds, parse_arguments, readable_arguments,
    ArgumentsError, Weekday,
};

#[test]
fn test_rewrite_time() {
    let tests = vec![
        "3_1 < 5.3 && t<09:34",
        "3_1 < 5.3 && t < 09:34",
        "3_1 < 5.3 && t< 23:00",
        "3_1 < 5.3 && t< 10:05",
        "3_1 < 5.3 && t< 01:09",
        "3_1 < 5.3 && t< 19:51",
        "3_1 < 5.3 && t< 10:03",
    ];

    for test_expr in tests {
        let rewritten = format_time_to_seconds(test_expr.to_owned());
        let mut formatted = format_time_human_readable(rewritten);

        let mut test_expr = test_expr.to_owned();
        test_expr.retain(|c| c != ' ');
        formatted.retain(|c| c != ' ');

        assert_eq!(test_expr, formatted);
    }
}

#[test]
fn clock_times_become_seconds() {
    assert_eq!(format_time_to_seconds("t>9:30 & t<12:00".to_owned()), "t>34200 & t<43200");
    assert_eq!(format_time_to_seconds("no times".to_owned()), "no times");
}

#[test]
fn seconds_become_clock_times() {
    assert_eq!(format_time_human_readable("t<34200".to_owned()), "t < 09:30");
    assert_eq!(format_time_human_readable("t >= 43260".to_owned()), "t >= 12:01");
    assert_eq!(format_time_human_readable("3_1 > 2".to_owned()), "3_1 > 2");
}

#[test]
fn full_alarm_arguments() {
    let args = "\"3_0> 3_1 & t>9:30 & t<12:00\" -d [Sunday,Saturday] -p 5h -c /plotables";
    assert!(readable_arguments(args));
    let a = match parse_arguments(args) {
        Ok(a) => a,
        Err(_) => panic!("arguments refused"),
    };
    assert_eq!(a.expression, "3_0> 3_1 & t>34200 & t<43200");
    let days = a.day.unwrap();
    assert_eq!(days.len(), 2);
    assert!(days.contains(&Weekday::Sun));
    assert!(days.contains(&Weekday::Sat));
    assert_eq!(a.period, Some(5 * 3600));
    assert_eq!(a.command, Some("/plotables".to_owned()));
    assert_eq!(a.message, None);
    assert!(!a.counter_expr);
    assert_eq!(a.inverse_percentage, None);
    assert_eq!(a.fields.len(), 1);
    assert_eq!(a.fields[0].0, 3);
    assert_eq!(a.fields[0].1, vec![0, 1]);
}

#[test]
fn alarm_without_condition() {
    assert!(matches!(parse_arguments("-p 5h"), Err(ArgumentsError::NoExpression)));
}

#[test]
fn alarm_with_unknown_day() {
    match parse_arguments("\"1_1 > 2\" -d [Someday]") {
        Err(ArgumentsError::InvalidDay(d)) => assert_eq!(d, "Someday"),
        _ => panic!("expected an invalid day"),
    }
}

#[test]
fn alarm_period_zero_and_default() {
    let a = parse_arguments("\"1_1 > 2\" -p 0m").ok().unwrap();
    assert_eq!(a.period, None);
    let a = parse_arguments("\"1_1 > 2\"").ok().unwrap();
    assert_eq!(a.period, Some(3600));
    assert!(a.day.is_none());
}

#[test]
fn alarm_period_too_large_for_a_number() {
    assert!(matches!(
        parse_arguments("\"1_1 > 2\" -p 99999999999999999999999s"),
        Err(ArgumentsError::ArgumentParseError)
    ));
}

#[test]
fn alarm_field_id_out_of_range() {
    assert!(matches!(
        parse_arguments("\"1_300 > 2\""),
        Err(ArgumentsError::ArgumentParseError)
    ));
}

#[test]
fn alarm_message_and_counter() {
    let a = parse_arguments("\"2_1 < 4\" -m \"too cold\" -i 10").ok().unwrap();
    assert_eq!(a.expression, "2_1 < 4");
    assert_eq!(a.message, Some("too cold".to_owned()));
    assert!(a.counter_expr);
    assert_eq!(a.inverse_percentage, Some(10));
    let a = parse_arguments("\"3_0 > 5\" -i 10").ok().unwrap();
    assert!(a.counter_expr);
    let a = parse_arguments("\"3_0 > 5\" -bc").ok().unwrap();
    assert!(!a.counter_expr);
    assert!(matches!(
        parse_arguments("\"3_0 > 5\" -i 99999999999999999999999"),
        Err(ArgumentsError::ArgumentParseError)
    ));
}

#[test]
fn alarm_command_in_quotes() {
    let a = parse_arguments("\"2_1 < 4\" -c \"/plot 2_1 1h\"").ok().unwrap();
    assert_eq!(a.command, Some("/plot 2_1 1h".to_owned()));
    let a = parse_arguments("\"3_0 > 1\" -c \"/show 3_0\"").ok().unwrap();
    assert_eq!(a.expression, "3_0 > 1");
    assert_eq!(a.command, Some("/show 3_0".to_owned()));
    // the options may come before the condition
    let a = parse_arguments("-c \"/show 3_0\" -m \"hot\" \"3_0 > 1\"").ok().unwrap();
    assert_eq!(a.expression, "3_0 > 1");
    assert_eq!(a.command, Some("/show 3_0".to_owned()));
    assert_eq!(a.message, Some("hot".to_owned()));
}

#[test]
fn alarm_fields_deduplicated_and_sorted() {
    let a = parse_arguments("\"5_2 > 1 && 2_7 < 3 && 5_2 < 9 && 5_0 > 0\"").ok().unwrap();
    assert_eq!(a.fields, vec![(2, vec![7]), (5, vec![2, 0])]);
}
