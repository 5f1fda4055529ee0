//! A validated time of day: hour and minute, with ordering, saturating
//! arithmetic and `HH:MM` text conversion.
use crate::helper;
use vstd::prelude::*;

verus! {

/// The character for a single decimal digit.
pub open spec fn digit_char(d: int) -> char {
    if d == 0 {
        '0'
    } else if d == 1 {
        '1'
    } else if d == 2 {
        '2'
    } else if d == 3 {
        '3'
    } else if d == 4 {
        '4'
    } else if d == 5 {
        '5'
    } else if d == 6 {
        '6'
    } else if d == 7 {
        '7'
    } else if d == 8 {
        '8'
    } else {
        '9'
    }
}

/// The five characters `HH:MM` of a zero-padded time of day.
pub open spec fn spec_time_text(h: int, m: int) -> Seq<char> {
    seq![digit_char(h / 10), digit_char(h % 10), ':', digit_char(m / 10), digit_char(m % 10)]
}

/// One decimal digit as a string slice.
fn digit_str(d: i32) -> (r: &'static str)
    requires
        0 <= d <= 9,
    ensures
        r@ =~= seq![digit_char(d as int)],
{
    proof {
        reveal_strlit("0");
        reveal_strlit("1");
        reveal_strlit("2");
        reveal_strlit("3");
        reveal_strlit("4");
        reveal_strlit("5");
        reveal_strlit("6");
        reveal_strlit("7");
        reveal_strlit("8");
        reveal_strlit("9");
    }
    if d == 0 {
        "0"
    } else if d == 1 {
        "1"
    } else if d == 2 {
        "2"
    } else if d == 3 {
        "3"
    } else if d == 4 {
        "4"
    } else if d == 5 {
        "5"
    } else if d == 6 {
        "6"
    } else if d == 7 {
        "7"
    } else if d == 8 {
        "8"
    } else {
        "9"
    }
}

/// A time of day for an appointment, always within 00:00 ..= 23:59.
#[derive(Clone, Copy, Debug, PartialEq, Eq, Structural)]
pub struct AppointmentTime {
    pub hour: i32,
    pub minutes: i32,
}

impl AppointmentTime {
    /// Both fields within range: the invariant every constructor establishes.
    pub open spec fn wf(self) -> bool {
        0 <= self.hour <= 23 && 0 <= self.minutes <= 59
    }

    /// The whole time as minutes since midnight.
    pub open spec fn spec_total(self) -> int {
        self.hour * 60 + self.minutes
    }

    /// `self` is at or before `other`, ordering lexicographically by (hour, minutes).
    pub open spec fn spec_le(self, other: AppointmentTime) -> bool {
        self.hour < other.hour || (self.hour == other.hour && self.minutes <= other.minutes)
    }

    /// Message rejecting an out-of-range hour.
    pub open spec fn hour_range_error() -> Seq<char> {
        "Hour should be between 0 and 23"@
    }

    /// Message rejecting an out-of-range minute.
    pub open spec fn minutes_range_error() -> Seq<char> {
        "Minutes should be between 0 and 59"@
    }

    /// Validating constructor: the hour range is checked first, so when both
    /// fields are out of range the hour is the one reported.
    pub fn new(hour: i32, minutes: i32) -> (r: Result<Self, String>)
        ensures
            r is Ok <==> (0 <= hour <= 23 && 0 <= minutes <= 59),
            r is Ok ==> r->Ok_0 == (AppointmentTime { hour, minutes }) && r->Ok_0.wf(),
            !(0 <= hour <= 23) ==> r is Err && r->Err_0@ == Self::hour_range_error(),
            (0 <= hour <= 23 && !(0 <= minutes <= 59)) ==> r is Err && r->Err_0@
                == Self::minutes_range_error(),
    {
        if hour < 0 || hour > 23 {
            return Err(String::from_str("Hour should be between 0 and 23"));
        }
        if minutes < 0 || minutes > 59 {
            return Err(String::from_str("Minutes should be between 0 and 59"));
        }
        Ok(Self { hour, minutes })
    }

    /// The largest representable time, 23:59.
    pub fn max_value() -> (r: Self)
        ensures
            r == (AppointmentTime { hour: 23, minutes: 59 }),
    {
        Self { hour: 23, minutes: 59 }
    }

    /// The smallest representable time, 00:00.
    pub fn min_value() -> (r: Self)
        ensures
            r == (AppointmentTime { hour: 0, minutes: 0 }),
    {
        Self { hour: 0, minutes: 0 }
    }

    /// True when `self` is at or before the reference time (the boundary is
    /// inclusive).
    pub fn is_equal_or_earlier_than(&self, appointment_time: &AppointmentTime) -> (r: bool)
        ensures
            r == self.spec_le(*appointment_time),
    {
        self.hour < appointment_time.hour || (self.hour == appointment_time.hour
            && self.minutes <= appointment_time.minutes)
    }

    /// Message rejecting text that does not split into two numbers at a `:`.
    pub open spec fn invalid_time_error() -> Seq<char> {
        "Invalid string for appointment time"@
    }

    /// Parses `HH:MM` text: splitting or numeric failure is malformed input,
    /// while numbers out of range are rejected with the constructor's message,
    /// the hour first.
    pub fn from(time: &str) -> (r: Result<Self, String>)
        ensures
            r is Ok <==> (helper::spec_parse_time(time@) matches Some(p) && 0 <= p.0 <= 23 && 0
                <= p.1 <= 59),
            r is Ok ==> {
                let p = helper::spec_parse_time(time@)->Some_0;
                r->Ok_0 == (AppointmentTime { hour: p.0 as i32, minutes: p.1 as i32 })
                    && r->Ok_0.wf()
            },
            helper::spec_parse_time(time@) is None ==> r is Err && r->Err_0@
                == Self::invalid_time_error(),
            (helper::spec_parse_time(time@) matches Some(p) && !(0 <= p.0 <= 23)) ==> r is Err
                && r->Err_0@ == Self::hour_range_error(),
            (helper::spec_parse_time(time@) matches Some(p) && 0 <= p.0 <= 23 && !(0 <= p.1
                <= 59)) ==> r is Err && r->Err_0@ == Self::minutes_range_error(),
    {
        match helper::parse_time(time) {
            None => Err(String::from_str("Invalid string for appointment time")),
            Some(p) => Self::new(p.0, p.1),
        }
    }

    /// The time as zero-padded `HH:MM` text.
    pub fn to_text(&self) -> (r: String)
        requires
            self.wf(),
        ensures
            r@ == spec_time_text(self.hour as int, self.minutes as int),
    {
        proof {
            reveal_strlit(":");
        }
        let mut out = String::new();
        out.append(digit_str(self.hour / 10));
        out.append(digit_str(self.hour % 10));
        out.append(":");
        out.append(digit_str(self.minutes / 10));
        out.append(digit_str(self.minutes % 10));
        proof {
            assert(out@ =~= spec_time_text(self.hour as int, self.minutes as int));
        }
        out
    }

    /// Clamps a count of minutes since midnight into the representable day.
    pub open spec fn spec_clamp_total(t: int) -> int {
        if t < 0 {
            0
        } else if t > 1439 {
            1439
        } else {
            t
        }
    }

    /// The time a count of minutes since midnight denotes.
    pub open spec fn spec_from_total(t: int) -> AppointmentTime {
        AppointmentTime { hour: (t / 60) as i32, minutes: (t % 60) as i32 }
    }

    /// Moves the time `rhs` minutes forward, saturating at 23:59 (and, for a
    /// negative offset, at 00:00): the hour never leaves its range.
    pub fn add_minutes(self, rhs: i32) -> (r: Self)
        requires
            self.wf(),
        ensures
            r == Self::spec_from_total(Self::spec_clamp_total(self.spec_total() + rhs)),
            r.wf(),
    {
        let total: i64 = self.hour as i64 * 60 + self.minutes as i64 + rhs as i64;
        let clamped: i64 = if total < 0 {
            0
        } else if total > 1439 {
            1439
        } else {
            total
        };
        Self { hour: (clamped / 60) as i32, minutes: (clamped % 60) as i32 }
    }

    /// Moves the time `rhs` minutes back, saturating at 00:00 (and, for a
    /// negative offset, at 23:59): the hour never leaves its range.
    pub fn subtract_minutes(self, rhs: i32) -> (r: Self)
        requires
            self.wf(),
        ensures
            r == Self::spec_from_total(Self::spec_clamp_total(self.spec_total() - rhs)),
            r.wf(),
    {
        let total: i64 = self.hour as i64 * 60 + self.minutes as i64 - rhs as i64;
        let clamped: i64 = if total < 0 {
            0
        } else if total > 1439 {
            1439
        } else {
            total
        };
        Self { hour: (clamped / 60) as i32, minutes: (clamped % 60) as i32 }
    }

    /// The current local wall-clock time; always well formed.
    pub fn now() -> (r: Self)
        ensures
            r.wf(),
    {
        let hm = local_hour_minutes();
        Self { hour: hm.0, minutes: hm.1 }
    }
}

/// A digit's character is a digit character with that digit's value, and is
/// none of the separators or signs parsing cares about.
pub proof fn lemma_digit_char_facts(d: int)
    requires
        0 <= d <= 9,
    ensures
        helper::is_digit(digit_char(d)),
        helper::digit_val(digit_char(d)) == d,
        digit_char(d) != ':',
        digit_char(d) != '+',
        digit_char(d) != '-',
{
}

/// Round trip: the `HH:MM` text of any valid hour and minute parses back to
/// exactly that hour and minute, so `parse(to_text(create(h, m)))` gives
/// back `create(h, m)`.
pub proof fn lemma_time_text_round_trip(h: int, m: int)
    requires
        0 <= h <= 23,
        0 <= m <= 59,
    ensures
        helper::spec_parse_time(spec_time_text(h, m)) == Some((h, m)),
{
    let s = spec_time_text(h, m);
    let d1 = digit_char(h / 10);
    let d0 = digit_char(h % 10);
    let e1 = digit_char(m / 10);
    let e0 = digit_char(m % 10);
    lemma_digit_char_facts(h / 10);
    lemma_digit_char_facts(h % 10);
    lemma_digit_char_facts(m / 10);
    lemma_digit_char_facts(m % 10);
    // the one colon stands at index 2
    let s1 = s.subrange(1, s.len() as int);
    let s2 = s1.subrange(1, s1.len() as int);
    assert(s1 =~= seq![d0, ':', e1, e0]);
    assert(s2 =~= seq![':', e1, e0]);
    assert(helper::first_occurrence(s2, ':') == 0);
    assert(helper::first_occurrence(s1, ':') == 1 + helper::first_occurrence(s2, ':'));
    assert(helper::first_occurrence(s, ':') == 1 + helper::first_occurrence(s1, ':'));
    assert(helper::first_occurrence(s, ':') == 2);
    // the hour part reads back as h
    let hp = s.take(2);
    assert(hp =~= seq![d1, d0]);
    assert(hp.drop_last() =~= seq![d1]);
    assert(seq![d1].drop_last() =~= Seq::<char>::empty());
    assert(helper::digits_val(Seq::<char>::empty()) == 0);
    assert(helper::digits_val(seq![d1]) == helper::digit_val(d1));
    assert(helper::digits_val(hp) == helper::digits_val(seq![d1]) * 10 + helper::digit_val(d0));
    assert(helper::digits_val(hp) == (h / 10) * 10 + h % 10);
    assert((h / 10) * 10 + h % 10 == h);
    assert(helper::all_digits(hp));
    assert(helper::int_str_ok(hp));
    assert(helper::spec_parse_i32(hp) == Some(h));
    // the minutes part reads back as m
    let mp = s.subrange(3, s.len() as int);
    assert(mp =~= seq![e1, e0]);
    assert(mp.drop_last() =~= seq![e1]);
    assert(seq![e1].drop_last() =~= Seq::<char>::empty());
    assert(helper::digits_val(seq![e1]) == helper::digit_val(e1));
    assert(helper::digits_val(mp) == helper::digits_val(seq![e1]) * 10 + helper::digit_val(e0));
    assert(helper::digits_val(mp) == (m / 10) * 10 + m % 10);
    assert((m / 10) * 10 + m % 10 == m);
    assert(helper::all_digits(mp));
    assert(helper::int_str_ok(mp));
    assert(helper::spec_parse_i32(mp) == Some(m));
}

/// Relies on chrono: `Local::now` reads the local wall clock, and `Timelike`
/// documents `hour` as 0 to 23 and `minute` as 0 to 59.
#[verifier::external_body]
fn local_hour_minutes() -> (r: (i32, i32))
    ensures
        0 <= r.0 <= 23,
        0 <= r.1 <= 59,
{
    let now = chrono::Local::now();
    (chrono::Timelike::hour(&now) as i32, chrono::Timelike::minute(&now) as i32)
}

} // verus!
