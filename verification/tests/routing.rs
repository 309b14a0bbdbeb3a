use dataserver::charts::{format_str_from_limits, format_to_duration, plot_unit_seconds, xlimits_from_data, LimitsError};
use dataserver::data_store::{Data, DataSet, Field, MetaData};
use dataserver::error_report::{format_error_code, report_decision, NewError};
use dataserver::authorisation::Authorisation;
use dataserver::plotables::plotables_text;
use dataserver::read_plan::{decoded_line_size, lines_between, prepare_read_processing};
use dataserver::subscriptions::{to_error_specific_key, to_field_specific_key, Subscriptions};

#[test]
fn subscriptions_follow_connects_and_disconnects() {
    let mut s = Subscriptions::new();
    s.connect(1, vec![10, 20]);
    s.connect(2, vec![20]);
    assert!(s.is_subscribed(10, 1));
    assert!(s.is_subscribed(20, 2));
    assert!(!s.is_subscribed(10, 2));
    s.subscribe(2, 30);
    assert!(s.is_subscribed(30, 2));
    s.disconnect(1);
    assert!(!s.is_subscribed(10, 1));
    assert!(!s.is_subscribed(20, 1));
    assert!(s.is_subscribed(20, 2));
    s.disconnect(9);
    assert!(s.is_subscribed(30, 2));
}

#[test]
fn subscription_keys() {
    assert_eq!(to_field_specific_key(0x0102, 0x03), 0x0102_0300);
    assert_eq!(to_error_specific_key(0x0102, 0x03, 0x04), 0x0102_0304);
    let e = NewError { dataset_id: 5, field_ids: vec![2, 3], error_code: 9, timestamp: (0, 0) };
    assert_eq!(e.to_error_specific_key(), 5 * 65536 + 2 * 256 + 9);
    assert_eq!(e.to_field_specific_key(), 5 * 65536 + 2 * 256);
}

#[test]
fn read_plans() {
    assert_eq!(lines_between(100, 100, 10), None);
    assert_eq!(lines_between(100, 150, 10), Some(4));
    assert_eq!(decoded_line_size(3), 20);
    assert!(prepare_read_processing(0, 100, 1, 10, 20).is_none());
    let p = prepare_read_processing(1000, 5000, 1, 10, 20).unwrap();
    // 100 lines make an ideal read; at most a third of the 1000 lines per package
    assert_eq!(p.lines_per_package, 100);
    assert_eq!(p.lines_per_read, 100);
    assert_eq!(p.n_packages, 10);
    assert_eq!(p.bytes_per_package, 100 * 20 + 4);
    let p = prepare_read_processing(30, 30, 2, 10, 20).unwrap();
    assert_eq!(p.lines_per_package, 10);
    assert_eq!(p.lines_per_read, 20);
    assert_eq!(p.n_packages, 3);
    // a request for fewer than three points still gets a plan, one line per package
    let p = prepare_read_processing(2, 5000, 1, 10, 20).unwrap();
    assert_eq!(p.lines_per_package, 1);
    assert_eq!(p.n_packages, 2);
    let p = prepare_read_processing(7, 1, 1, 10, 20).unwrap();
    assert_eq!(p.lines_per_package, 1);
    assert_eq!(p.n_packages, 1);
}

fn data() -> Data {
    let mut data = Data::new();
    let fields = vec![
        Field { id: 0, name: "temp".to_owned(), offset: 0, length: 8 },
        Field { id: 1, name: "hum".to_owned(), offset: 8, length: 8 },
    ];
    data.insert_set(3, DataSet {
        metadata: MetaData { name: "roof".to_owned(), description: "sensors on the roof".to_owned(), key: 1, fields },
    });
    data
}

#[test]
fn error_reports() {
    let d = data();
    assert_eq!(
        format_error_code(&d, 0, &vec![], "12:00", "disk full").ok().unwrap(),
        "12:00 system error occured: disk full"
    );
    assert_eq!(
        format_error_code(&d, 3, &vec![255], "12:00", "no power").ok().unwrap(),
        "12:00 error during data collection, roof(sensors on the roof) reports: no power"
    );
    assert_eq!(
        format_error_code(&d, 3, &vec![0, 1], "12:00", "stuck").ok().unwrap(),
        "12:00 error during data collection, temphum in roof(sensors on the roof) reports: stuck"
    );
    assert!(format_error_code(&d, 3, &vec![0, 2], "12:00", "stuck").is_err());
    assert!(format_error_code(&d, 4, &vec![0], "12:00", "stuck").is_err());
}

#[test]
fn error_report_decisions() {
    assert_eq!(report_decision(None, (100, 0)), (false, true));
    // reported 100 s ago: recent, the stored time stays
    assert_eq!(report_decision(Some((100, 0)), (200, 0)), (true, false));
    assert_eq!(report_decision(Some((100, 0)), (100, 0)), (true, false));
    // exactly a day ago still counts, a nanosecond more does not
    assert_eq!(report_decision(Some((100, 0)), (100 + 86400, 0)), (true, false));
    assert_eq!(report_decision(Some((100, 0)), (100 + 86400, 1)), (false, true));
    // a report said to lie in the future is not taken as recent
    assert_eq!(report_decision(Some((100 + 86400, 0)), (100, 0)), (false, true));
}

#[test]
fn plotable_listing() {
    let d = data();
    assert_eq!(plotables_text(&d, &vec![]), "you have no plotables");
    assert_eq!(
        plotables_text(&d, &vec![(3, vec![Authorisation::Reader(1), Authorisation::Owner(0)])]),
        "roof\n<plotable id> <plotable name>\n3_1\t\t\thum\n3_0\t\t\ttemp\n"
    );
}

#[test]
fn plot_time_axis() {
    assert_eq!(xlimits_from_data(&vec![(10, 20), (5, 15)]), Ok((5, 20)));
    assert_eq!(xlimits_from_data(&vec![(10, 10)]), Ok((9, 11)));
    assert_eq!(xlimits_from_data(&vec![(30, 40), (10, 20)]), Ok((10, 40)));
    assert_eq!(xlimits_from_data(&vec![(30, 20)]), Err(LimitsError::DataLimitsAlarm));
    assert_eq!(format_str_from_limits(0, 30), "%Ss");
    assert_eq!(format_str_from_limits(0, 600), "%Mm:%Ss");
    assert_eq!(format_str_from_limits(0, 1800), "%Mm");
    assert_eq!(format_str_from_limits(0, 7200), "%Hh:%Mm");
    assert_eq!(format_str_from_limits(0, 3 * 86400), "%a %Hh");
    assert_eq!(format_str_from_limits(0, 21 * 86400), "%d-%m");
    assert_eq!(format_str_from_limits(0, 60 * 86400), "%v");
    assert_eq!(plot_unit_seconds("h"), Some(3600));
    assert_eq!(plot_unit_seconds("monthes"), Some(4 * 7 * 24 * 3600));
    assert_eq!(plot_unit_seconds("years"), Some(365 * 24 * 3600));
    assert_eq!(plot_unit_seconds("months"), None);
}

#[test]
fn time_since_last_data() {
    assert_eq!(format_to_duration(100, 150, 0), "50 seconds");
    assert_eq!(format_to_duration(100, 95, 500), "-4 seconds");
    assert_eq!(format_to_duration(0, 119, 0), "119 seconds");
    assert_eq!(format_to_duration(0, 120, 0), "2 minutes");
    assert_eq!(format_to_duration(0, 7199, 0), "119 minutes");
    assert_eq!(format_to_duration(0, 7200, 0), "2 hours");
    assert_eq!(format_to_duration(0, 36 * 3600, 0), "1 days");
    assert_eq!(format_to_duration(0, 120 * 86400, 0), "17 weeks");
}

#[test]
fn new_data_goes_to_each_subscriber_once() {
    let mut s = Subscriptions::new();
    s.connect(1, vec![10, 20]);
    s.connect(2, vec![20]);
    let mut r = s.recipients(20);
    r.sort();
    assert_eq!(r, vec![1, 2]);
    assert_eq!(s.recipients(10), vec![1]);
    assert!(s.recipients(99).is_empty());
    s.disconnect(1);
    assert_eq!(s.recipients(20), vec![2]);
    assert!(s.recipients(10).is_empty());
}
