use colored::Colorize;
use todayiwill::{Appointment, AppointmentTime};

#[test]
fn create_appointment_from_str() {
    let result = Appointment::from("05:06 Take the bus");
    assert_eq!(
        result.unwrap(),
        Appointment {
            description: String::from("Take the bus"),
            time: AppointmentTime::new(5, 6).unwrap()
        }
    );
}

#[test]
fn create_appointment_from_str_edge_case() {
    let result = Appointment::from("23:59 A very late appointment");
    assert_eq!(
        result.unwrap(),
        Appointment {
            description: String::from("A very late appointment"),
            time: AppointmentTime::new(23, 59).unwrap()
        }
    );
}

#[test]
fn create_appointment_from_str_malformed() {
    let result = Appointment::from("16:5Fix plumbing problem");
    let err = result.err();
    assert_eq!("Invalid string for appointment time", err.unwrap());
}

#[test]
fn create_appointment_from_str_malformed_without_time() {
    let result = Appointment::from("An appointment without time");
    let err = result.err();
    assert_eq!("Invalid string for appointment time", err.unwrap());
}

#[test]
fn create_appointment_from_str_invalid_time() {
    let result = Appointment::from("79:81 An impossible appointment");
    let err = result.err();
    assert_eq!("Hour should be between 0 and 23", err.unwrap());
}

#[test]
fn create_appointment_from_str_invalid_time_edge_case() {
    let result = Appointment::from("24:00 An impossible appointment");
    let err = result.err();
    assert_eq!("Hour should be between 0 and 23", err.unwrap());
}

#[test]
fn display_appointment() {
    let appointment = Appointment::new(
        String::from("Go to the dentist"),
        AppointmentTime::new(2, 30).unwrap(),
    );
    let ref_time = AppointmentTime::new(1, 0).unwrap();
    assert_eq!(
        "[02:30] Go to the dentist",
        appointment.to_string_display(&ref_time)
    );
}

#[test]
fn display_appointment_edge_case() {
    let appointment = Appointment::new(
        String::from("Study for test tomorrow"),
        AppointmentTime::new(12, 4).unwrap(),
    );
    let ref_time = AppointmentTime::new(12, 5).unwrap();
    assert_eq!(
        "[12:04] Study for test tomorrow"
            .strikethrough()
            .to_string(),
        appointment.to_string_display(&ref_time)
    );
}

#[test]
fn display_appointment_edge_case_complement() {
    let appointment = Appointment::new(
        String::from("Go to gym"),
        AppointmentTime::new(5, 30).unwrap(),
    );
    let ref_time = AppointmentTime::new(5, 30).unwrap();
    assert_eq!(
        "[05:30] Go to gym".strikethrough().to_string(),
        appointment.to_string_display(&ref_time)
    );
}

#[test]
fn display_past_appointment() {
    let appointment = Appointment::new(
        String::from("Do the laundry"),
        AppointmentTime::new(18, 0).unwrap(),
    );
    let ref_time = AppointmentTime::new(18, 5).unwrap();
    assert_eq!(
        "[18:00] Do the laundry".strikethrough().to_string(),
        appointment.to_string_display(&ref_time)
    );
}

#[test]
fn display_past_appointment_edge_case() {
    let appointment = Appointment::new(
        String::from("Make dinner"),
        AppointmentTime::new(20, 5).unwrap(),
    );
    let ref_time = AppointmentTime::new(20, 5).unwrap();
    assert_eq!(
        "[20:05] Make dinner".strikethrough().to_string(),
        appointment.to_string_display(&ref_time)
    );
}

#[test]
fn appointment_should_be_passed() {
    let future_appointment = Appointment::new(
        String::from("Some future appointment"),
        AppointmentTime::now().add_minutes(5),
    );
    assert!(!future_appointment.is_equal_or_earlier_than(&AppointmentTime::now()))
}

#[test]
fn appointment_not_should_be_passed() {
    let future_appointment = Appointment::new(
        String::from("Some past appointment"),
        AppointmentTime::now().subtract_minutes(5),
    );
    assert!(future_appointment.is_equal_or_earlier_than(&AppointmentTime::now()))
}
