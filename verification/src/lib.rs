//! A small appointment-tracking library: validated times of day,
//! appointments parsed from and rendered to `HH:MM description` lines,
//! and a sorted in-memory list with the rules for adding, removing,
//! filtering and copying a day's appointments.
pub mod appointment;
pub mod helper;
pub mod list;
pub mod time;

pub use appointment::Appointment;
pub use list::AppointmentList;
pub use list::FilterOption;
pub use time::AppointmentTime;
