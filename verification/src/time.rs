use vstd::prelude::*;
use chrono::{Datelike, Timelike};
use crate::text::{spec_dec2, spec_dec4, push_dec2, push_dec4, chars_to_string};

verus! {

/// A wall-clock instant broken into calendar fields with a fixed offset from
/// UTC, precise to the second. This is the only notion of time the tracker
/// stores; the platform clock is read once per mutation.
#[derive(Clone, Copy, Debug, PartialEq, Eq, Structural)]
pub struct Timestamp {
    pub year: u16,
    pub month: u8,
    pub day: u8,
    pub hour: u8,
    pub minute: u8,
    pub second: u8,
    /// Offset from UTC in whole minutes, as in the `+HH:MM` suffix of the stored form.
    pub offset_min: i16,
}

impl Timestamp {
    /// The fields fit the stored `YYYY-MM-DDTHH:MM:SS+HH:MM` form.
    pub open spec fn wf(self) -> bool {
        self.year <= 9999 && 1 <= self.month <= 12 && 1 <= self.day <= 31 && self.hour <= 23
            && self.minute <= 59 && self.second <= 59 && -1439 <= self.offset_min <= 1439
    }
}

/// Clock fields exactly as the platform clock reports them, before any
/// range normalisation.
#[derive(Clone, Copy, Debug)]
pub struct RawNow {
    pub year: i32,
    pub month: u32,
    pub day: u32,
    pub hour: u32,
    pub minute: u32,
    pub second: u32,
    pub offset_seconds: i32,
}

/// Relies on `chrono::Local::now` and its field accessors: `month` ranges
/// over 1..=12, `day` over 1..=31, `hour` over 0..=23, `minute` and `second`
/// over 0..=59, and a fixed offset is strictly within one day of seconds.
/// The values themselves depend on the clock, so nothing more is promised.
/// chrono aborts the process when the system clock is before the Unix epoch
/// or no time zone can be determined; those are environment failures with
/// no input a precondition could exclude.
#[verifier::external_body]
fn now_raw() -> (r: RawNow)
    ensures
        1 <= r.month <= 12,
        1 <= r.day <= 31,
        r.hour <= 23,
        r.minute <= 59,
        r.second <= 59,
        -86400 < r.offset_seconds < 86400,
{
    let now = chrono::Local::now();
    RawNow {
        year: now.year(),
        month: now.month(),
        day: now.day(),
        hour: now.hour(),
        minute: now.minute(),
        second: now.second(),
        offset_seconds: now.offset().local_minus_utc(),
    }
}

impl Timestamp {
    /// Fits raw clock fields into the stored form: the year is clamped to
    /// four digits and the offset is truncated to whole minutes. For any
    /// instant a real clock reports, both are the identity.
    pub fn from_raw(raw: &RawNow) -> (r: Timestamp)
        requires
            1 <= raw.month <= 12,
            1 <= raw.day <= 31,
            raw.hour <= 23,
            raw.minute <= 59,
            raw.second <= 59,
            -86400 < raw.offset_seconds < 86400,
        ensures
            r.wf(),
            r.year as int == if raw.year < 0 {
                0
            } else if raw.year > 9999 {
                9999
            } else {
                raw.year as int
            },
            r.month == raw.month,
            r.day == raw.day,
            r.hour == raw.hour,
            r.minute == raw.minute,
            r.second == raw.second,
            raw.offset_seconds >= 0 ==> r.offset_min as int == raw.offset_seconds as int / 60,
            raw.offset_seconds < 0 ==> r.offset_min as int == -((-raw.offset_seconds) as int / 60),
    {
        let year: u16 = if raw.year < 0 {
            0
        } else if raw.year > 9999 {
            9999
        } else {
            raw.year as u16
        };
        let offset_min: i16 = if raw.offset_seconds < 0 {
            -(((-raw.offset_seconds) / 60) as i16)
        } else {
            ((raw.offset_seconds) / 60) as i16
        };
        Timestamp {
            year,
            month: raw.month as u8,
            day: raw.day as u8,
            hour: raw.hour as u8,
            minute: raw.minute as u8,
            second: raw.second as u8,
            offset_min,
        }
    }

    /// Whether the fields fit the stored form.
    pub fn is_wf(&self) -> (r: bool)
        ensures
            r == self.wf(),
    {
        self.year <= 9999 && 1 <= self.month && self.month <= 12 && 1 <= self.day && self.day <= 31
            && self.hour <= 23 && self.minute <= 59 && self.second <= 59 && -1439
            <= self.offset_min && self.offset_min <= 1439
    }

    /// Reads the platform clock. The instant depends on the environment, so
    /// only well-formedness is promised of the result.
    pub fn now() -> (r: Timestamp)
        ensures
            r.wf(),
    {
        let raw = now_raw();
        Timestamp::from_raw(&raw)
    }
}


/// A timestamp's calendar fields collapsed into one number, so that later
/// wall-clock readings compare greater. The offset is not part of the key:
/// the store's timestamps all come from the one local clock.
pub open spec fn spec_ts_key(t: Timestamp) -> int {
    ((((t.year * 13 + t.month) * 32 + t.day) * 24 + t.hour) * 60 + t.minute) * 60 + t.second
}

/// `a` is no later than `b`, by calendar fields.
pub open spec fn spec_ts_le(a: Timestamp, b: Timestamp) -> bool {
    spec_ts_key(a) <= spec_ts_key(b)
}

/// The later of two timestamps, by calendar fields; `a` on a tie.
pub open spec fn spec_ts_max(a: Timestamp, b: Timestamp) -> Timestamp {
    if spec_ts_key(a) >= spec_ts_key(b) {
        a
    } else {
        b
    }
}

/// The comparison key of a timestamp.
fn ts_key(t: &Timestamp) -> (r: u64)
    ensures
        r as int == spec_ts_key(*t),
{
    (((((t.year as u64) * 13 + (t.month as u64)) * 32 + (t.day as u64)) * 24 + (t.hour as u64))
        * 60 + (t.minute as u64)) * 60 + (t.second as u64)
}

/// The later of two timestamps, by calendar fields; `a` on a tie.
pub fn ts_later(a: &Timestamp, b: &Timestamp) -> (r: Timestamp)
    ensures
        r == spec_ts_max(*a, *b),
{
    if ts_key(a) >= ts_key(b) {
        *a
    } else {
        *b
    }
}

/// The display form of a timestamp: `YYYY-MM-DD HH:MM:SS`.
pub open spec fn spec_display_date(t: Timestamp) -> Seq<char> {
    spec_dec4(t.year as int) + seq!['-'] + spec_dec2(t.month as int) + seq!['-'] + spec_dec2(
        t.day as int,
    ) + seq![' '] + spec_dec2(t.hour as int) + seq![':'] + spec_dec2(t.minute as int) + seq![':']
        + spec_dec2(t.second as int)
}

/// Renders a timestamp for task listings, as `YYYY-MM-DD HH:MM:SS`.
pub fn display_date(date: &Timestamp) -> (r: String)
    requires
        date.wf(),
    ensures
        r@ == spec_display_date(*date),
{
    let mut out: Vec<char> = Vec::new();
    push_dec4(&mut out, date.year as u32);
    out.push('-');
    push_dec2(&mut out, date.month as u32);
    out.push('-');
    push_dec2(&mut out, date.day as u32);
    out.push(' ');
    push_dec2(&mut out, date.hour as u32);
    out.push(':');
    push_dec2(&mut out, date.minute as u32);
    out.push(':');
    push_dec2(&mut out, date.second as u32);
    proof {
        assert(out@ =~= spec_display_date(*date));
    }
    chars_to_string(&out)
}

} // verus!
