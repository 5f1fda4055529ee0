use todayiwill::{Appointment, AppointmentList, AppointmentTime, FilterOption};

#[test]
fn time_text_round_trip_for_every_valid_time() {
    for hour in 0..24 {
        for minutes in 0..60 {
            let time = AppointmentTime::new(hour, minutes).unwrap();
            let text = time.to_text();
            assert_eq!(
                AppointmentTime::from(&text).unwrap(),
                AppointmentTime::new(hour, minutes).unwrap()
            );
        }
    }
}

#[test]
fn hour_error_reported_before_minutes_error() {
    let err = AppointmentTime::new(-1, 99).err();
    assert_eq!("Hour should be between 0 and 23", err.unwrap());
    let err = AppointmentTime::new(24, 60).err();
    assert_eq!("Hour should be between 0 and 23", err.unwrap());
    let err = AppointmentTime::new(5, 60).err();
    assert_eq!("Minutes should be between 0 and 59", err.unwrap());
}

#[test]
fn negative_offsets_saturate_too() {
    let result = AppointmentTime::new(5, 0).unwrap().add_minutes(-600);
    assert_eq!(result, AppointmentTime::min_value());
    let result = AppointmentTime::new(20, 0).unwrap().subtract_minutes(-600);
    assert_eq!(result, AppointmentTime::max_value());
}

#[test]
fn appointment_line_round_trip() {
    for line in [
        "07:45 ",
        "09:00 a desc with : colon and [brackets]",
        "23:59 x",
        "00:00 leading  and  double  spaces",
    ] {
        let appointment = Appointment::from(line).unwrap();
        assert_eq!(line, appointment.to_text());
    }
}

#[test]
fn load_nothing_empties_the_list() {
    let reference_time = AppointmentTime::new(9, 0).unwrap();
    let mut list = AppointmentList::new(reference_time, Some("10:00 Something\n"));
    assert!(!list.no_appointments());
    list.load(None);
    assert!(list.no_appointments());
}

#[test]
fn adds_keep_the_list_sorted_with_unique_times() {
    let reference_time = AppointmentTime::new(0, 0).unwrap();
    let mut list = AppointmentList::new(reference_time, None);
    list.add(Appointment::new(
        String::from("c"),
        AppointmentTime::new(12, 0).unwrap(),
    ));
    list.add(Appointment::new(
        String::from("a"),
        AppointmentTime::new(8, 0).unwrap(),
    ));
    list.add(Appointment::new(
        String::from("b"),
        AppointmentTime::new(10, 0).unwrap(),
    ));
    list.add(Appointment::new(
        String::from("replacement"),
        AppointmentTime::new(10, 0).unwrap(),
    ));
    assert_eq!(
        &vec![
            Appointment::new(String::from("a"), AppointmentTime::new(8, 0).unwrap()),
            Appointment::new(
                String::from("replacement"),
                AppointmentTime::new(10, 0).unwrap()
            ),
            Appointment::new(String::from("c"), AppointmentTime::new(12, 0).unwrap()),
        ],
        list.appointments()
    );
}

#[test]
fn remove_of_past_appointment_fails_and_changes_nothing() {
    let reference_time = AppointmentTime::new(15, 0).unwrap();
    let mut list = AppointmentList::new(reference_time, None);
    list.add(Appointment::new(
        String::from("Already gone"),
        AppointmentTime::new(14, 0).unwrap(),
    ));
    list.add(Appointment::new(
        String::from("Still to come"),
        AppointmentTime::new(16, 0).unwrap(),
    ));
    let before = list.appointments().clone();
    let err = list.remove(AppointmentTime::new(14, 0).unwrap()).err();
    assert_eq!(
        "This appointment is already past and cannot be removed.",
        err.unwrap()
    );
    assert_eq!(&before, list.appointments());
}

#[test]
fn remove_of_unknown_time_fails_and_changes_nothing() {
    let reference_time = AppointmentTime::new(9, 0).unwrap();
    let mut list = AppointmentList::new(reference_time, None);
    list.add(Appointment::new(
        String::from("Only entry"),
        AppointmentTime::new(10, 0).unwrap(),
    ));
    let before = list.appointments().clone();
    let err = list.remove(AppointmentTime::new(11, 0).unwrap()).err();
    assert_eq!("There is no appointment at this specific time.", err.unwrap());
    assert_eq!(&before, list.appointments());
}

#[test]
fn expire_window_boundaries_are_exact() {
    let reference_time = AppointmentTime::new(10, 0).unwrap();
    let mut list = AppointmentList::new(reference_time, None);
    list.add(Appointment::new(
        String::from("at reference"),
        AppointmentTime::new(10, 0).unwrap(),
    ));
    list.add(Appointment::new(
        String::from("just after"),
        AppointmentTime::new(10, 1).unwrap(),
    ));
    list.add(Appointment::new(
        String::from("at window end"),
        AppointmentTime::new(10, 30).unwrap(),
    ));
    list.add(Appointment::new(
        String::from("past window end"),
        AppointmentTime::new(10, 31).unwrap(),
    ));
    list.filter(FilterOption::ByReferenceAndExpireTime(30));
    assert_eq!(
        &vec![
            Appointment::new(String::from("just after"), AppointmentTime::new(10, 1).unwrap()),
            Appointment::new(
                String::from("at window end"),
                AppointmentTime::new(10, 30).unwrap()
            ),
        ],
        list.appointments()
    );
}

#[test]
fn expire_window_saturates_at_end_of_day() {
    let reference_time = AppointmentTime::new(23, 50).unwrap();
    let mut list = AppointmentList::new(reference_time, None);
    list.add(Appointment::new(
        String::from("late"),
        AppointmentTime::new(23, 59).unwrap(),
    ));
    list.filter(FilterOption::ByReferenceAndExpireTime(100));
    assert_eq!(
        &vec![Appointment::new(
            String::from("late"),
            AppointmentTime::new(23, 59).unwrap()
        )],
        list.appointments()
    );
}

#[test]
fn empty_list_reports_empty_and_renders_nothing() {
    let reference_time = AppointmentTime::new(12, 0).unwrap();
    let list = AppointmentList::new(reference_time, None);
    assert!(list.no_appointments());
    assert_eq!("", list.render());
    assert_eq!("", list.write());
}

#[test]
fn two_future_appointments_render_in_time_order() {
    let reference_time = AppointmentTime::new(8, 0).unwrap();
    let mut list = AppointmentList::new(reference_time, None);
    list.add(Appointment::new(
        String::from("Listen to music"),
        AppointmentTime::new(14, 45).unwrap(),
    ));
    list.add(Appointment::new(
        String::from("Call mom"),
        AppointmentTime::new(8, 12).unwrap(),
    ));
    assert_eq!("[08:12] Call mom\n[14:45] Listen to music", list.render());
}

#[test]
fn appointment_at_reference_time_counts_as_past() {
    let reference_time = AppointmentTime::new(14, 38).unwrap();
    let appointment = Appointment::new(
        String::from("Play fifa"),
        AppointmentTime::new(14, 38).unwrap(),
    );
    assert!(appointment.is_equal_or_earlier_than(&reference_time));
}

#[test]
fn copy_into_non_empty_list_always_fails() {
    let reference_time = AppointmentTime::new(7, 0).unwrap();
    let mut list = AppointmentList::new(reference_time, Some("08:00 Existing\n"));
    let before = list.appointments().clone();

    let err = list.copy(Some("09:00 From elsewhere\n")).err();
    assert_eq!(
        "Copy not possible, there are appointments for the current day.",
        err.unwrap()
    );
    let err = list.copy(None).err();
    assert_eq!(
        "Copy not possible, there are appointments for the current day.",
        err.unwrap()
    );
    assert_eq!(&before, list.appointments());
}

#[test]
fn copy_from_missing_source_fails() {
    let reference_time = AppointmentTime::new(7, 0).unwrap();
    let mut list = AppointmentList::new(reference_time, None);
    let err = list.copy(None).err();
    assert_eq!("Given day has no appointments.", err.unwrap());
    assert!(list.no_appointments());
}

#[test]
fn malformed_lines_are_dropped_on_load() {
    let content = "nonsense\n\n08:30 Real one\r\n25:00 Out of range\n08:3 short time\n";
    let reference_time = AppointmentTime::new(6, 0).unwrap();
    let list = AppointmentList::new(reference_time, Some(content));
    assert_eq!(
        &vec![Appointment::new(
            String::from("Real one"),
            AppointmentTime::new(8, 30).unwrap()
        )],
        list.appointments()
    );
}
