use dataserver::access::{
    apply_field_pick, authorized, make_field_actions, parse_args, parse_plotable, select_data, select_fields, AccessError, FieldPick,
    PlotableFault, ShowError,
};
use dataserver::authorisation::Authorisation;
use dataserver::data_store::Field;
use dataserver::text::chars_of;
use dataserver::user::{has_access, User};

fn user() -> User {
    let mut u = User::new(7, "ann".to_owned(), 0);
    u.set_access(3, vec![Authorisation::Owner(0), Authorisation::Reader(2), Authorisation::Owner(5)]);
    u.set_access(9, vec![Authorisation::Reader(1)]);
    u
}

#[test]
fn plotable_ids() {
    assert!(matches!(parse_plotable(&chars_of("3_2")), Ok((3, 2))));
    assert!(matches!(parse_plotable(&chars_of("3_2_9")), Ok((3, 2))));
    assert!(matches!(parse_plotable(&chars_of("32")), Err(PlotableFault::Split)));
    assert!(matches!(parse_plotable(&chars_of("x_2")), Err(PlotableFault::Parse)));
    assert!(matches!(parse_plotable(&chars_of("3_256")), Err(PlotableFault::Parse)));
}

#[test]
fn rights_are_found_by_binary_search() {
    let list = [Authorisation::Owner(0), Authorisation::Reader(2), Authorisation::Owner(5)];
    assert!(has_access(&list, 2));
    assert!(has_access(&list, 5));
    assert!(!has_access(&list, 3));
    assert!(!has_access(&[], 0));
}

#[test]
fn rights_compare_by_field() {
    assert!(Authorisation::Owner(3) == Authorisation::Reader(3));
    assert!(Authorisation::Owner(2) < Authorisation::Reader(3));
    assert_eq!(Authorisation::Reader(4).field_id(), 4);
}

#[test]
fn show_arguments_sorted_and_deduplicated() {
    let u = user();
    match parse_args("9_1 3_2 3_0 3_2", &u) {
        Ok(list) => assert_eq!(list, vec![(3, vec![2, 0]), (9, vec![1])]),
        Err(_) => panic!("refused"),
    }
}

#[test]
fn show_argument_errors() {
    let u = user();
    assert!(matches!(parse_args("", &u), Err(ShowError::NotEnoughArguments)));
    assert!(matches!(parse_args("3_1", &u), Err(ShowError::NoAccessToField(1))));
    assert!(matches!(parse_args("4_1", &u), Err(ShowError::NoAccessToDataSet(4))));
    match parse_args("3_2 33", &u) {
        Err(ShowError::ArgumentSplitError(w)) => assert_eq!(w, "33"),
        _ => panic!("expected a split error"),
    }
    match parse_args("a_2", &u) {
        Err(ShowError::ArgumentParseError(w)) => assert_eq!(w, "a_2"),
        _ => panic!("expected a parse error"),
    }
}

#[test]
fn plot_selection() {
    let u = user();
    match select_data(3, &[5, 0, 5], &u) {
        Ok(map) => assert_eq!(map.get(&3), Some(&vec![5, 0])),
        Err(_) => panic!("refused"),
    }
    assert!(matches!(select_data(3, &[1], &u), Err(AccessError::NoAccessToField(1))));
    assert!(matches!(select_data(4, &[1], &u), Err(AccessError::NoAccessToDataSet(4))));
}

#[test]
fn alarm_fields_must_be_visible() {
    let u = user();
    assert!(authorized(&[(3, vec![0, 2]), (9, vec![1])], &u).is_ok());
    assert!(matches!(authorized(&[(3, vec![0, 1])], &u), Err(AccessError::NoAccessToField(1))));
    assert!(matches!(
        authorized(&[(3, vec![0]), (8, vec![1])], &u),
        Err(AccessError::NoAccessToDataSet(8))
    ));
    assert!(authorized(&[], &u).is_ok());
}

#[test]
fn menu_entries_for_rights() {
    let fields = vec![
        Field { id: 0, name: "temp".to_owned(), offset: 0, length: 8 },
        Field { id: 1, name: "hum".to_owned(), offset: 8, length: 8 },
    ];
    let (remove, remove_ids, add, add_ids) =
        make_field_actions(&fields, &[Authorisation::Reader(1)]);
    assert_eq!(remove, vec!["remove owned field: hum".to_owned()]);
    assert_eq!(remove_ids.len(), 1);
    assert!(remove_ids[0] == Authorisation::Owner(1));
    assert_eq!(add, vec!["add field: temp".to_owned()]);
    assert_eq!(add_ids, vec![0]);
}

fn kind_and_field(a: &Authorisation) -> (bool, u8) {
    match a {
        Authorisation::Owner(f) => (true, *f),
        Authorisation::Reader(f) => (false, *f),
    }
}

#[test]
fn chosen_fields_owners_sorted_then_readers() {
    let ids = [5u8, 2, 9, 7];
    let r = select_fields(&ids, &[0, 2, 1], &[3, 0]);
    let got: Vec<(bool, u8)> = r.iter().map(kind_and_field).collect();
    assert_eq!(got, vec![(true, 2), (true, 5), (true, 9), (false, 7), (false, 5)]);
}

#[test]
fn chosen_fields_none() {
    let r = select_fields(&[1u8, 2], &[], &[]);
    assert!(r.is_empty());
    let r = select_fields(&[1u8, 2], &[], &[1]);
    let got: Vec<(bool, u8)> = r.iter().map(kind_and_field).collect();
    assert_eq!(got, vec![(false, 2)]);
}

#[test]
fn show_error_messages() {
    assert_eq!(ShowError::ArgumentParseError("a_2".to_owned()).to_text(), "The argument a_2 could not be parsed");
    assert_eq!(
        ShowError::ArgumentSplitError("33".to_owned()).to_text(),
        "The argument 33 could not be interpreted, does it contain a \":\"?"
    );
    assert_eq!(ShowError::NoAccessToField(7).to_text(), "You do not have access to field: 7");
    assert_eq!(ShowError::NoAccessToDataSet(12).to_text(), "You do not have access to dataset: 12");
    assert_eq!(ShowError::NoData(3).to_text(), "There is no data for dataset: 3");
    assert_eq!(
        ShowError::NotEnoughArguments.to_text(),
        "Not enough arguments\nuse: /show <plotable_id 1> ... <plotable_id n>"
    );
}

#[test]
fn field_picks_change_the_rights() {
    let mut rights = vec![Authorisation::Owner(1), Authorisation::Reader(3)];
    // rights are told apart by their field
    assert!(!apply_field_pick(&mut rights, FieldPick::Remove(Authorisation::Owner(3))));
    assert_eq!(rights.iter().map(kind_and_field).collect::<Vec<_>>(), vec![(true, 1)]);
    assert!(!apply_field_pick(&mut rights, FieldPick::Add(Authorisation::Reader(1))));
    assert_eq!(rights.iter().map(kind_and_field).collect::<Vec<_>>(), vec![(true, 1)]);
    assert!(!apply_field_pick(&mut rights, FieldPick::Add(Authorisation::Reader(5))));
    assert_eq!(rights.iter().map(kind_and_field).collect::<Vec<_>>(), vec![(true, 1), (false, 5)]);
    assert!(!apply_field_pick(&mut rights, FieldPick::Remove(Authorisation::Reader(1))));
    assert!(apply_field_pick(&mut rights, FieldPick::Remove(Authorisation::Reader(5))));
    assert!(rights.is_empty());
}
