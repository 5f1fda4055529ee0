//! An appointment: a time of day and a free-text description, read from and
//! written to `HH:MM description` lines, and displayed with a strikethrough
//! once its time has passed.
use crate::helper;
use crate::time::{digit_char, spec_time_text, AppointmentTime};
use vstd::prelude::*;

verus! {

/// A described appointment at a fixed time of day.
#[derive(Debug)]
pub struct Appointment {
    pub time: AppointmentTime,
    pub description: String,
}

/// The storage line of an appointment: the time text, one space, the
/// description.
pub open spec fn spec_appt_text(h: int, m: int, desc: Seq<char>) -> Seq<char> {
    spec_time_text(h, m) + seq![' '] + desc
}

/// What parsing one line yields: the first five characters read as a valid
/// time, a space, and the rest as the description.
pub open spec fn spec_parse_appt(s: Seq<char>) -> Option<(int, int, Seq<char>)> {
    if s.len() < 6 {
        None
    } else {
        match helper::spec_parse_time(s.take(5)) {
            None => None,
            Some(p) => if !(0 <= p.0 <= 23 && 0 <= p.1 <= 59) {
                None
            } else if s[5] != ' ' {
                None
            } else {
                Some((p.0, p.1, s.skip(6)))
            },
        }
    }
}

/// The display line of an appointment: the time text in brackets, then the
/// description.
pub open spec fn spec_display_text(h: int, m: int, desc: Seq<char>) -> Seq<char> {
    seq!['['] + spec_time_text(h, m) + seq![']', ' '] + desc
}

/// The terminal code that starts strikethrough styling.
pub open spec fn strike_on() -> Seq<char> {
    seq!['\u{1b}', '[', '9', 'm']
}

/// The terminal code that clears styling.
pub open spec fn strike_off() -> Seq<char> {
    seq!['\u{1b}', '[', '0', 'm']
}

/// Text wrapped in the strikethrough and clear codes.
pub open spec fn strike_wrapped(s: Seq<char>) -> Seq<char> {
    strike_on() + s + strike_off()
}

/// The text already holds a clear code somewhere inside.
pub open spec fn contains_reset(s: Seq<char>) -> bool {
    exists|i: int| 0 <= i && i + 4 <= s.len() && #[trigger] s.subrange(i, i + 4) == strike_off()
}

/// Relies on colored: `Colorize::strikethrough` styles the text, and
/// `ColoredString`'s `Display` either prints it unchanged (colorization off)
/// or surrounds it with the strikethrough and clear codes (colorization on),
/// provided the text does not itself contain the clear code.
#[verifier::external_body]
fn strike(s: &str) -> (r: String)
    ensures
        !contains_reset(s@) ==> (r@ == s@ || r@ == strike_wrapped(s@)),
{
    colored::Colorize::strikethrough(s).to_string()
}

impl Appointment {
    /// Pairs a description with a time; nothing further to validate.
    pub fn new(description: String, time: AppointmentTime) -> (r: Self)
        ensures
            r.time == time,
            r.description == description,
    {
        Self { time, description }
    }

    /// Every field within its range.
    pub open spec fn wf(self) -> bool {
        self.time.wf()
    }

    /// Parses one `HH:MM description` line: the first five characters are
    /// the time, the sixth must be a space, the rest is the description. A
    /// line too short, unsplittable or missing its space is malformed; a time
    /// out of range is rejected with the time's own message, the hour first.
    pub fn from(appointment: &str) -> (r: Result<Self, String>)
        ensures
            r is Ok <==> spec_parse_appt(appointment@) is Some,
            r is Ok ==> {
                let p = spec_parse_appt(appointment@)->Some_0;
                r->Ok_0.time == (AppointmentTime { hour: p.0 as i32, minutes: p.1 as i32 })
                    && r->Ok_0.description@ == p.2 && r->Ok_0.wf()
            },
            appointment@.len() < 6 ==> r is Err && r->Err_0@
                == AppointmentTime::invalid_time_error(),
            (appointment@.len() >= 6 && helper::spec_parse_time(appointment@.take(5)) is None)
                ==> r is Err && r->Err_0@ == AppointmentTime::invalid_time_error(),
            (appointment@.len() >= 6 && (helper::spec_parse_time(appointment@.take(5)) matches
                Some(p) && !(0 <= p.0 <= 23))) ==> r is Err && r->Err_0@
                == AppointmentTime::hour_range_error(),
            (appointment@.len() >= 6 && (helper::spec_parse_time(appointment@.take(5)) matches
                Some(p) && 0 <= p.0 <= 23 && !(0 <= p.1 <= 59))) ==> r is Err && r->Err_0@
                == AppointmentTime::minutes_range_error(),
            (appointment@.len() >= 6 && (helper::spec_parse_time(appointment@.take(5)) matches
                Some(p) && 0 <= p.0 <= 23 && 0 <= p.1 <= 59 && appointment@[5] != ' ')) ==> r
                is Err && r->Err_0@ == AppointmentTime::invalid_time_error(),
    {
        let n = appointment.unicode_len();
        if n < 6 {
            return Err(String::from_str("Invalid string for appointment time"));
        }
        let time_part = appointment.substring_char(0, 5);
        proof {
            assert(time_part@ =~= appointment@.take(5));
        }
        let time = match AppointmentTime::from(time_part) {
            Ok(t) => t,
            Err(e) => {
                return Err(e);
            },
        };
        if appointment.get_char(5) != ' ' {
            return Err(String::from_str("Invalid string for appointment time"));
        }
        let description_part = appointment.substring_char(6, n);
        proof {
            assert(description_part@ =~= appointment@.skip(6));
        }
        Ok(Self { time, description: description_part.to_owned() })
    }

    /// True when the appointment's time is at or before the reference time
    /// (the boundary is inclusive).
    pub fn is_equal_or_earlier_than(&self, appointment_time: &AppointmentTime) -> (r: bool)
        ensures
            r == self.time.spec_le(*appointment_time),
    {
        self.time.is_equal_or_earlier_than(appointment_time)
    }

    /// The appointment as its storage line, `HH:MM description`.
    pub fn to_text(&self) -> (r: String)
        requires
            self.wf(),
        ensures
            r@ == spec_appt_text(
                self.time.hour as int,
                self.time.minutes as int,
                self.description@,
            ),
    {
        proof {
            reveal_strlit(" ");
        }
        let mut out = self.time.to_text();
        out.append(" ");
        out.append(self.description.as_str());
        proof {
            assert(out@ =~= spec_appt_text(
                self.time.hour as int,
                self.time.minutes as int,
                self.description@,
            ));
        }
        out
    }

    /// The appointment as its display line, `[HH:MM] description`; once its
    /// time is at or before the reference time the line is struck through (a
    /// styling the terminal may leave off).
    pub fn to_string_display(&self, ref_time: &AppointmentTime) -> (r: String)
        requires
            self.wf(),
        ensures
            ({
                let base = spec_display_text(
                    self.time.hour as int,
                    self.time.minutes as int,
                    self.description@,
                );
                &&& !self.time.spec_le(*ref_time) ==> r@ == base
                &&& self.time.spec_le(*ref_time) && !contains_reset(base) ==> (r@ == base || r@
                    == strike_wrapped(base))
            }),
    {
        proof {
            reveal_strlit("[");
            reveal_strlit("] ");
        }
        let ghost base = spec_display_text(
            self.time.hour as int,
            self.time.minutes as int,
            self.description@,
        );
        let mut display = String::from_str("[");
        let time_text = self.time.to_text();
        display.append(time_text.as_str());
        display.append("] ");
        display.append(self.description.as_str());
        proof {
            assert(display@ =~= base);
        }
        if self.is_equal_or_earlier_than(ref_time) {
            strike(display.as_str())
        } else {
            display
        }
    }
}

/// An appointment seen abstractly: hour, minutes, and the description's
/// characters.
impl View for Appointment {
    type V = (int, int, Seq<char>);

    open spec fn view(&self) -> (int, int, Seq<char>) {
        (self.time.hour as int, self.time.minutes as int, self.description@)
    }
}

/// Round trip: any line of the form `HH:MM description` with a valid time
/// parses back to exactly that time and description, so writing the parsed
/// appointment out again reproduces the original line.
pub proof fn lemma_appointment_text_round_trip(h: int, m: int, desc: Seq<char>)
    requires
        0 <= h <= 23,
        0 <= m <= 59,
        !desc.contains('\n'),
    ensures
        spec_parse_appt(spec_appt_text(h, m, desc)) == Some((h, m, desc)),
{
    let s = spec_appt_text(h, m, desc);
    assert(s.take(5) =~= spec_time_text(h, m));
    crate::time::lemma_time_text_round_trip(h, m);
    assert(s[5] == ' ');
    assert(s.skip(6) =~= desc);
}

impl Clone for Appointment {
    /// A clone carries the same time and description.
    fn clone(&self) -> (r: Self)
        ensures
            r == *self,
    {
        Self { time: self.time, description: self.description.clone() }
    }
}

impl PartialEq for Appointment {
    fn eq(&self, other: &Appointment) -> bool {
        self.time == other.time && self.description == other.description
    }
}

impl vstd::std_specs::cmp::PartialEqSpecImpl for Appointment {
    open spec fn obeys_eq_spec() -> bool {
        true
    }

    open spec fn eq_spec(&self, other: &Appointment) -> bool {
        self.time == other.time && self.description@ == other.description@
    }
}

} // verus!
