use todayiwill::AppointmentTime;

#[test]
fn wellformed_appointment_time() {
    let result = AppointmentTime::new(20, 34);
    assert_eq!(
        result.unwrap(),
        AppointmentTime {
            hour: 20,
            minutes: 34
        }
    );
}

#[test]
fn malformed_appointment_time() {
    let result = AppointmentTime::new(26, -5);
    let err = result.err();
    assert_eq!("Hour should be between 0 and 23", err.unwrap());
}

#[test]
fn malformed_appointment_time_edge_case_minutes() {
    let result = AppointmentTime::new(26, 60);
    let err = result.err();
    assert_eq!("Hour should be between 0 and 23", err.unwrap());
}

#[test]
fn malformed_appointment_time_edge_case_hour() {
    let result = AppointmentTime::new(24, 5);
    let err = result.err();
    assert_eq!("Hour should be between 0 and 23", err.unwrap());
}

#[test]
fn wellformed_appointment_time_now() {
    let time = chrono::Local::now();
    let appointment_time_now = AppointmentTime::now();
    assert_eq!(
        appointment_time_now,
        AppointmentTime::new(
            time.format("%H").to_string().parse().unwrap(),
            time.format("%M").to_string().parse().unwrap()
        )
        .unwrap()
    );
}

#[test]
fn wellformed_appointment_time_from_string() {
    let appointment_time = AppointmentTime::from("10:23").unwrap();
    assert_eq!(appointment_time, AppointmentTime::new(10, 23).unwrap());
}

#[test]
fn malformed_appointment_time_from_string() {
    let result = AppointmentTime::from("102y");
    let err = result.err();
    assert_eq!("Invalid string for appointment time", err.unwrap());
}

#[test]
fn invalid_appointment_time_from_string() {
    let result = AppointmentTime::from("12:76");
    let err = result.err();
    assert_eq!("Minutes should be between 0 and 59", err.unwrap());
}

#[test]
fn invalid_appointment_time_from_string_edge_case_minutes() {
    let result = AppointmentTime::from("01:60");
    let err = result.err();
    assert_eq!("Minutes should be between 0 and 59", err.unwrap());
}

#[test]
fn invalid_appointment_time_from_string_edge_case_hour() {
    let result = AppointmentTime::from("24:43");
    let err = result.err();
    assert_eq!("Hour should be between 0 and 23", err.unwrap());
}

#[test]
fn max_value() {
    let result = AppointmentTime::max_value();
    assert_eq!(result, AppointmentTime::new(23, 59).unwrap());
}

#[test]
fn min_value() {
    let result = AppointmentTime::min_value();
    assert_eq!(result, AppointmentTime::new(0, 0).unwrap());
}

#[test]
fn add_i32_to_appointment_time() {
    let result = AppointmentTime::new(10, 30).unwrap().add_minutes(10);
    assert_eq!(result, AppointmentTime::new(10, 40).unwrap());
}

#[test]
fn add_i32_to_appointment_time_edge_case() {
    let result = AppointmentTime::new(3, 50).unwrap().add_minutes(100);
    assert_eq!(result, AppointmentTime::new(5, 30).unwrap());
}

#[test]
fn add_i32_to_appointment_time_upper_limit() {
    let result = AppointmentTime::new(23, 55).unwrap().add_minutes(20);
    assert_eq!(result, AppointmentTime::max_value());
}

#[test]
fn add_i32_to_appointment_time_upper_limit_edge_case() {
    let result = AppointmentTime::new(23, 55).unwrap().add_minutes(4);
    assert_eq!(result, AppointmentTime::max_value());
}

#[test]
fn sub_i32_to_appointment_time() {
    let result = AppointmentTime::new(10, 30).unwrap().subtract_minutes(20);
    assert_eq!(result, AppointmentTime::new(10, 10).unwrap());
}

#[test]
fn sub_i32_to_appointment_time_edge_case() {
    let result = AppointmentTime::new(3, 10).unwrap().subtract_minutes(100);
    assert_eq!(result, AppointmentTime::new(1, 30).unwrap());
}

#[test]
fn sub_i32_to_appointment_time_lower_limit() {
    let result = AppointmentTime::new(0, 5).unwrap().subtract_minutes(20);
    assert_eq!(result, AppointmentTime::min_value());
}

#[test]
fn sub_i32_to_appointment_time_lower_limit_edge_case() {
    let result = AppointmentTime::new(0, 5).unwrap().subtract_minutes(5);
    assert_eq!(result, AppointmentTime::min_value());
}

#[test]
fn appointment_time_should_be_passed() {
    let future_appointment_time = AppointmentTime::now().add_minutes(5);
    assert!(!future_appointment_time.is_equal_or_earlier_than(&AppointmentTime::now()))
}

#[test]
fn appointment_time_should_not_be_passed() {
    let future_appointment_time = AppointmentTime::now().subtract_minutes(5);
    assert!(future_appointment_time.is_equal_or_earlier_than(&AppointmentTime::now()))
}

#[test]
fn appointment_time_should_be_passed_edge_case() {
    let future_appointment_time = AppointmentTime::now();
    assert!(future_appointment_time.is_equal_or_earlier_than(&AppointmentTime::now()))
}
