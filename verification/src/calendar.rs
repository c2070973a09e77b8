//! Calendar days as chrono counts them, and the dates of the weekly Cargo
//! team meeting (held on Tuesdays).
use vstd::prelude::*;
use chrono::{Datelike, Offset, TimeZone};
use crate::text::{
    chars_of, decimal, extend_chars, extend_str, padded_decimal, padded_decimal_chars,
    string_of,
};

verus! {

/// The day number of `chrono::NaiveDate::MIN` (January 1 of year -262143).
pub open spec fn first_day() -> int {
    -95746129
}

/// The day number of `chrono::NaiveDate::MAX` (December 31 of year 262142).
pub open spec fn last_day() -> int {
    95745399
}

/// The number of the first day chrono can represent.
pub fn first_day_number() -> (r: i32)
    ensures
        r == first_day(),
{
    -95746129
}

/// The number of the last day chrono can represent.
pub fn last_day_number() -> (r: i32)
    ensures
        r == last_day(),
{
    95745399
}

/// A calendar day of the proleptic Gregorian calendar, numbered as chrono's
/// `Datelike::num_days_from_ce` numbers it: January 1 of year 1 is day 1.
#[derive(Clone, Copy, Debug, PartialEq, Eq)]
pub struct CalendarDay {
    pub days_from_ce: i32,
}

impl CalendarDay {
    /// The day lies in the range that `chrono::NaiveDate` can represent.
    pub open spec fn valid(self) -> bool {
        first_day() <= self.days_from_ce <= last_day()
    }
}

/// The day of the week of day `d`, counted from Monday (0) to Sunday (6).
/// Day 1, January 1 of year 1, is a Monday.
pub open spec fn weekday_of(d: int) -> int {
    (d + 6) % 7
}

/// `Datelike::weekday(..).num_days_from_monday()` of the `NaiveDate` with day
/// number `days`. The contract states the seven-day cycle of the proleptic
/// Gregorian calendar, anchored at chrono's day 1 (0001-01-01, a Monday).
#[verifier::external_body]
fn chrono_weekday(days: i32) -> (r: u32)
    requires
        first_day() <= days <= last_day(),
    ensures
        r as int == weekday_of(days as int),
{
    chrono::NaiveDate::from_num_days_from_ce_opt(days).unwrap().weekday().num_days_from_monday()
}

/// `NaiveDate + TimeDelta::days(n)`: the day `n` days later, as chrono
/// documents the addition of whole days.
#[verifier::external_body]
fn chrono_add_days(days: i32, n: i64) -> (r: i32)
    requires
        first_day() <= days <= last_day(),
        0 <= n <= 1_000_000,
        days + n <= last_day(),
    ensures
        r == days + n,
{
    (chrono::NaiveDate::from_num_days_from_ce_opt(days).unwrap() + chrono::TimeDelta::days(n))
        .num_days_from_ce()
}

/// `NaiveDate - TimeDelta::days(n)`: the day `n` days earlier.
#[verifier::external_body]
fn chrono_sub_days(days: i32, n: i64) -> (r: i32)
    requires
        first_day() <= days <= last_day(),
        0 <= n <= 1_000_000,
        first_day() <= days - n,
    ensures
        r == days - n,
{
    (chrono::NaiveDate::from_num_days_from_ce_opt(days).unwrap() - chrono::TimeDelta::days(n))
        .num_days_from_ce()
}

/// The date `(year, month, day)` of day `days` of the proleptic Gregorian
/// calendar, January 1 of year 1 being day 1. Counted from March 1 of year 0:
/// whole eras of 400 years (146097 days), then years of 365 days with a leap
/// day every fourth year but for the centuries not divisible by 400, then
/// months from March, of 31, 30, 31, 30, 31, 31, 30, 31, 30, 31, 31 and the
/// rest of February.
#[verifier::opaque]
pub open spec fn gregorian_date(days: int) -> (int, int, int) {
    let z = days + 305;
    let era = z / 146097;
    let doe = z % 146097;
    let yoe = (doe - doe / 1460 + doe / 36524 - doe / 146096) / 365;
    let doy = doe - (365 * yoe + yoe / 4 - yoe / 100);
    let mp = (5 * doy + 2) / 153;
    let d = doy - (153 * mp + 2) / 5 + 1;
    let m = if mp < 10 {
        mp + 3
    } else {
        mp - 9
    };
    let next_year: int = if m <= 2 {
        1
    } else {
        0
    };
    (yoe + era * 400 + next_year, m, d)
}

/// The calendar date `(year, month, day)` that chrono gives to the day with
/// day number `days`: its proleptic Gregorian date.
pub open spec fn calendar_of_day(days: int) -> (i32, u32, u32) {
    let g = gregorian_date(days);
    (g.0 as i32, g.1 as u32, g.2 as u32)
}

/// The year, month (1 to 12) and day of the month (1 to 31) of the
/// `NaiveDate` with day number `days` (`Datelike::year`, `month`, `day`).
#[verifier::external_body]
fn chrono_calendar(days: i32) -> (r: (i32, u32, u32))
    requires
        first_day() <= days <= last_day(),
    ensures
        r == calendar_of_day(days as int),
        1 <= r.1 <= 12,
        1 <= r.2 <= 31,
{
    let d = chrono::NaiveDate::from_num_days_from_ce_opt(days).unwrap();
    (d.year(), d.month(), d.day())
}

/// A date as chrono's `%Y-%m-%d` writes it: years from 0 to 9999 as four
/// digits, other years with a sign and at least four digits; month and day as
/// two digits.
pub open spec fn ymd_text(y: int, m: nat, d: nat) -> Seq<char> {
    (if 0 <= y <= 9999 {
        padded_decimal(y as nat, 4)
    } else if y < 0 {
        seq!['-'] + padded_decimal((-y) as nat, 4)
    } else {
        seq!['+'] + padded_decimal(y as nat, 4)
    }) + seq!['-'] + padded_decimal(m, 2) + seq!['-'] + padded_decimal(d, 2)
}

/// Day `days` as `%Y-%m-%d`.
pub open spec fn day_text(days: int) -> Seq<char> {
    let c = calendar_of_day(days);
    ymd_text(c.0 as int, c.1 as nat, c.2 as nat)
}

fn ymd_chars(y: i32, m: u32, d: u32) -> (r: Vec<char>)
    ensures
        r@ == ymd_text(y as int, m as nat, d as nat),
{
    let mut v: Vec<char> = Vec::new();
    if 0 <= y && y <= 9999 {
        let p = padded_decimal_chars(y as u64, 4);
        extend_chars(&mut v, &p);
    } else if y < 0 {
        v.push('-');
        let p = padded_decimal_chars((-(y as i64)) as u64, 4);
        extend_chars(&mut v, &p);
    } else {
        v.push('+');
        let p = padded_decimal_chars(y as u64, 4);
        extend_chars(&mut v, &p);
    }
    v.push('-');
    let pm = padded_decimal_chars(m as u64, 2);
    extend_chars(&mut v, &pm);
    v.push('-');
    let pd = padded_decimal_chars(d as u64, 2);
    extend_chars(&mut v, &pd);
    v
}

/// The day written as `YYYY-MM-DD` (chrono's `%Y-%m-%d`).
pub fn format_day(day: CalendarDay) -> (r: String)
    requires
        day.valid(),
    ensures
        r@ == day_text(day.days_from_ce as int),
{
    let (y, m, d) = chrono_calendar(day.days_from_ce);
    let v = ymd_chars(y, m, d);
    string_of(&v)
}

// ---------------------------------------------------------------------------
// Meeting days
// ---------------------------------------------------------------------------

/// Days from a day with the given weekday to the next Tuesday; a week from a
/// Tuesday.
pub open spec fn days_until_tuesday(weekday: int) -> int {
    if weekday == 1 {
        7
    } else if weekday == 2 {
        6
    } else if weekday == 3 {
        5
    } else if weekday == 4 {
        4
    } else if weekday == 5 {
        3
    } else if weekday == 6 {
        2
    } else {
        1
    }
}

/// Days back from a day with the given weekday to the most recent Tuesday;
/// none from a Tuesday.
pub open spec fn days_since_tuesday(weekday: int) -> int {
    if weekday == 1 {
        0
    } else if weekday == 2 {
        1
    } else if weekday == 3 {
        2
    } else if weekday == 4 {
        3
    } else if weekday == 5 {
        4
    } else if weekday == 6 {
        5
    } else {
        6
    }
}

/// The Tuesday after `d` (a week later when `d` is a Tuesday).
pub open spec fn next_tuesday(d: int) -> int {
    d + days_until_tuesday(weekday_of(d))
}

/// The Tuesday on or before `d`.
pub open spec fn most_recent_tuesday(d: int) -> int {
    d - days_since_tuesday(weekday_of(d))
}

/// The next Tuesday after `from_date`; if `from_date` is a Tuesday, the one a
/// week later.
pub fn get_next_tuesday(from_date: CalendarDay) -> (r: CalendarDay)
    requires
        from_date.valid(),
        next_tuesday(from_date.days_from_ce as int) <= last_day(),
    ensures
        r.valid(),
        r.days_from_ce == next_tuesday(from_date.days_from_ce as int),
{
    let w = chrono_weekday(from_date.days_from_ce);
    let days_until_tuesday: i64 = if w == 1 {
        7
    } else if w == 2 {
        6
    } else if w == 3 {
        5
    } else if w == 4 {
        4
    } else if w == 5 {
        3
    } else if w == 6 {
        2
    } else {
        1
    };
    CalendarDay { days_from_ce: chrono_add_days(from_date.days_from_ce, days_until_tuesday) }
}

/// The most recent Tuesday: `from_date` itself if it is a Tuesday (the
/// meeting is taken to be over), else the Tuesday before it.
pub fn get_most_recent_tuesday(from_date: CalendarDay) -> (r: CalendarDay)
    requires
        from_date.valid(),
        first_day() <= most_recent_tuesday(from_date.days_from_ce as int),
    ensures
        r.valid(),
        r.days_from_ce == most_recent_tuesday(from_date.days_from_ce as int),
{
    let w = chrono_weekday(from_date.days_from_ce);
    let days_from_tuesday: i64 = if w == 1 {
        0
    } else if w == 2 {
        1
    } else if w == 3 {
        2
    } else if w == 4 {
        3
    } else if w == 5 {
        4
    } else if w == 6 {
        5
    } else {
        6
    };
    CalendarDay { days_from_ce: chrono_sub_days(from_date.days_from_ce, days_from_tuesday) }
}

/// The next Tuesday is a Tuesday, one to seven days later.
pub proof fn lemma_next_tuesday(d: int)
    ensures
        weekday_of(next_tuesday(d)) == 1,
        d < next_tuesday(d) <= d + 7,
{
}

/// The most recent Tuesday is a Tuesday, at most six days earlier.
pub proof fn lemma_most_recent_tuesday(d: int)
    ensures
        weekday_of(most_recent_tuesday(d)) == 1,
        d - 6 <= most_recent_tuesday(d) <= d,
{
}

/// On a Tuesday the most recent meeting is that day, and the next one a
/// week later.
pub proof fn lemma_tuesday_meetings(d: int)
    requires
        weekday_of(d) == 1,
    ensures
        most_recent_tuesday(d) == d,
        next_tuesday(d) == d + 7,
{
}

/// The next meeting comes exactly a week after the most recent one.
pub proof fn lemma_meetings_a_week_apart(d: int)
    ensures
        next_tuesday(d) == most_recent_tuesday(d) + 7,
{
}

/// Which meeting a note is about.
#[derive(Clone, Copy, Debug, PartialEq, Eq)]
pub enum MeetingDate {
    NextTuesday,
    Today,
    MostRecent,
}

/// The day of the meeting that `which` names, seen from `today`.
pub open spec fn meeting_day(which: MeetingDate, today: int) -> int {
    match which {
        MeetingDate::NextTuesday => next_tuesday(today),
        MeetingDate::Today => today,
        MeetingDate::MostRecent => most_recent_tuesday(today),
    }
}

/// The title of the meeting's notes: `Cargo team meeting notes {date}`.
pub open spec fn note_title_text(date: Seq<char>) -> Seq<char> {
    "Cargo team meeting notes "@ + date
}

/// The title of the notes of the meeting that `which` names, seen from
/// `today`, and that meeting's date as `YYYY-MM-DD`.
pub fn note_title(which: MeetingDate, today: CalendarDay) -> (r: (String, String))
    requires
        today.valid(),
        first_day() <= meeting_day(which, today.days_from_ce as int) <= last_day(),
    ensures
        r.1@ == day_text(meeting_day(which, today.days_from_ce as int)),
        r.0@ == note_title_text(r.1@),
{
    let when = match which {
        MeetingDate::NextTuesday => get_next_tuesday(today),
        MeetingDate::Today => today,
        MeetingDate::MostRecent => get_most_recent_tuesday(today),
    };
    let date_str = format_day(when);
    let mut t: Vec<char> = Vec::new();
    extend_str(&mut t, "Cargo team meeting notes ");
    extend_str(&mut t, date_str.as_str());
    (string_of(&t), date_str)
}

/// The title and date of the meeting that `which` names, seen from `today`,
/// or `None` when that meeting's day lies beyond the days chrono can
/// represent (where chrono's date arithmetic panics).
pub fn checked_note_title(which: MeetingDate, today: CalendarDay) -> (r: Option<(String, String)>)
    requires
        today.valid(),
    ensures
        r is None <==> !(first_day() <= meeting_day(which, today.days_from_ce as int)
            <= last_day()),
        r matches Some((title, date)) ==> date@ == day_text(
            meeting_day(which, today.days_from_ce as int),
        ) && title@ == note_title_text(date@),
{
    let d = today.days_from_ce;
    let in_range = match which {
        MeetingDate::Today => true,
        MeetingDate::NextTuesday => {
            let w = chrono_weekday(d);
            let k: i32 = if w == 1 {
                7
            } else if w == 2 {
                6
            } else if w == 3 {
                5
            } else if w == 4 {
                4
            } else if w == 5 {
                3
            } else if w == 6 {
                2
            } else {
                1
            };
            d <= last_day_number() - k
        },
        MeetingDate::MostRecent => {
            let w = chrono_weekday(d);
            let k: i32 = if w == 1 {
                0
            } else if w == 2 {
                1
            } else if w == 3 {
                2
            } else if w == 4 {
                3
            } else if w == 5 {
                4
            } else if w == 6 {
                5
            } else {
                6
            };
            d >= first_day_number() + k
        },
    };
    if in_range {
        Some(note_title(which, today))
    } else {
        None
    }
}

// ---------------------------------------------------------------------------
// Announcing a meeting (chrono-tz)
// ---------------------------------------------------------------------------

/// Name for the UTC offset, in seconds, that `America/Los_Angeles` has at
/// second `secs` of local day `days`, when that local time exists exactly
/// once; `None` when it is skipped or repeated by a change of daylight saving
/// time.
pub uninterp spec fn los_angeles_offset(days: int, secs: int) -> Option<i32>;

/// `chrono_tz::America::Los_Angeles.from_local_datetime(..).single()`: the
/// offset from UTC of that local time in Los Angeles, if it is unambiguous.
/// chrono's `FixedOffset` keeps offsets within a day.
#[verifier::external_body]
fn los_angeles_local_offset(days: i32, secs: u32) -> (r: Option<i32>)
    requires
        first_day() <= days <= last_day(),
        secs < 86400,
    ensures
        r == los_angeles_offset(days as int, secs as int),
        r matches Some(o) ==> -86400 < o < 86400,
{
    let date = chrono::NaiveDate::from_num_days_from_ce_opt(days).unwrap();
    let time = chrono::NaiveTime::from_num_seconds_from_midnight_opt(secs, 0).unwrap();
    match chrono_tz::America::Los_Angeles.from_local_datetime(&date.and_time(time)).single() {
        Some(dt) => Some(dt.offset().fix().local_minus_utc()),
        None => None,
    }
}

/// Seven in the morning, as seconds into the day.
pub open spec fn meeting_start_secs() -> int {
    25200
}

/// The UTC offset of the meeting's start, 07:00 in Los Angeles on `day`.
pub fn meeting_offset(day: CalendarDay) -> (r: Option<i32>)
    requires
        day.valid(),
    ensures
        r == los_angeles_offset(day.days_from_ce as int, meeting_start_secs()),
        r matches Some(o) ==> -86400 < o < 86400,
{
    los_angeles_local_offset(day.days_from_ce, 25200)
}

/// An offset from UTC as chrono's `%:z` writes it: sign, hours and minutes
/// (rounded to the nearest minute), `+hh:mm`.
pub open spec fn offset_text(off: int) -> Seq<char> {
    let a = if off < 0 {
        -off
    } else {
        off
    };
    let minutes = (a + 30) / 60;
    (if off < 0 {
        seq!['-']
    } else {
        seq!['+']
    }) + padded_decimal((minutes / 60) as nat, 2) + seq![':'] + padded_decimal(
        (minutes % 60) as nat,
        2,
    )
}

/// The moment of the meeting as Zulip's `<time:..>` shows it:
/// `{date}T07:00:00{offset}`.
pub open spec fn time_tag_text(days: int, off: int) -> Seq<char> {
    day_text(days) + "T07:00:00"@ + offset_text(off)
}

/// The meeting's start on `day` in Los Angeles, which has UTC offset
/// `offset` there, written as `YYYY-MM-DDT07:00:00+hh:mm`.
pub fn meeting_time_tag(day: CalendarDay, offset: i32) -> (r: String)
    requires
        day.valid(),
        -86400 < offset < 86400,
    ensures
        r@ == time_tag_text(day.days_from_ce as int, offset as int),
{
    let (y, m, d) = chrono_calendar(day.days_from_ce);
    let mut v = ymd_chars(y, m, d);
    extend_str(&mut v, "T07:00:00");
    let a: i64 = if offset < 0 {
        -(offset as i64)
    } else {
        offset as i64
    };
    let minutes = (a + 30) / 60;
    if offset < 0 {
        v.push('-');
    } else {
        v.push('+');
    }
    let h = padded_decimal_chars((minutes / 60) as u64, 2);
    extend_chars(&mut v, &h);
    v.push(':');
    let mm = padded_decimal_chars((minutes % 60) as u64, 2);
    extend_chars(&mut v, &mm);
    string_of(&v)
}

/// Seconds from 1970-01-01 00:00 UTC to day `days` at `secs` local time in a
/// place with UTC offset `off`.
pub open spec fn unix_time(days: int, secs: int, off: int) -> int {
    (days - 719163) * 86400 + secs - off
}

/// Integer division that rounds toward zero, as Rust's `/` does.
pub open spec fn div_toward_zero(a: int, b: int) -> int {
    if a >= 0 {
        a / b
    } else {
        -((-a) / b)
    }
}

/// The whole minutes from the moment `(now_secs, now_nanos)` (seconds and
/// nanoseconds since 1970-01-01 UTC) to the moment `target` (seconds since
/// then), rounded toward zero, as chrono's `TimeDelta::num_minutes` counts
/// them.
pub open spec fn minutes_between(target: int, now_secs: int, now_nanos: int) -> int {
    let nanos = (target - now_secs) * 1_000_000_000 - now_nanos;
    div_toward_zero(div_toward_zero(nanos, 1_000_000_000), 60)
}

/// The moments chrono's `DateTime` covers, in seconds since the epoch, and
/// more.
pub open spec fn plausible_now(now_secs: int, now_nanos: int) -> bool {
    -9_000_000_000_000_000 <= now_secs <= 9_000_000_000_000_000 && 0 <= now_nanos
        < 1_000_000_000
}

/// Whole minutes until the meeting at 07:00 on `day` (UTC offset `offset`)
/// from `now`, given as seconds and nanoseconds since the epoch.
pub fn minutes_until_meeting(day: CalendarDay, offset: i32, now_secs: i64, now_nanos: u32) -> (r:
    i64)
    requires
        day.valid(),
        -86400 < offset < 86400,
        plausible_now(now_secs as int, now_nanos as int),
    ensures
        r as int == minutes_between(
            unix_time(day.days_from_ce as int, meeting_start_secs(), offset as int),
            now_secs as int,
            now_nanos as int,
        ),
{
    let target: i128 = (day.days_from_ce as i128 - 719163) * 86400 + 25200 - offset as i128;
    let nanos: i128 = (target - now_secs as i128) * 1_000_000_000 - now_nanos as i128;
    let secs: i128 = if nanos >= 0 {
        nanos / 1_000_000_000
    } else {
        -((-nanos) / 1_000_000_000)
    };
    let mins: i128 = if secs >= 0 {
        secs / 60
    } else {
        -((-secs) / 60)
    };
    assert(-200_000_000_000_000_000 <= mins <= 200_000_000_000_000_000) by (nonlinear_arith)
        requires
            -20_000_000_000_000_000 <= target - now_secs <= 20_000_000_000_000_000,
            nanos == (target - now_secs) * 1_000_000_000 - now_nanos,
            0 <= now_nanos < 1_000_000_000,
            secs == (if nanos >= 0 {
                nanos / 1_000_000_000
            } else {
                -((-nanos) / 1_000_000_000)
            }),
            mins == (if secs >= 0 {
                secs / 60
            } else {
                -((-secs) / 60)
            }),
    ;
    mins as i64
}

/// The message that announces the meeting on Zulip.
pub open spec fn announcement_text(minutes: int, time_tag: Seq<char>, agenda: Seq<char>) -> Seq<
    char,
> {
    "@*T-cargo* Meeting will start in about "@ + crate::text::signed_decimal(minutes)
        + " minutes at <time:"@ + time_tag
        + ">\nMeeting info: https://doc.crates.io/contrib/team.html#meetings\nAgenda: "@ + agenda
}

/// The Zulip message announcing the meeting: how many minutes until it
/// starts, when, and where its agenda is.
pub fn meeting_announcement(minutes_until: i64, time_tag: &str, publish_link: &str) -> (r: String)
    ensures
        r@ == announcement_text(minutes_until as int, time_tag@, publish_link@),
{
    let mut v: Vec<char> = Vec::new();
    extend_str(&mut v, "@*T-cargo* Meeting will start in about ");
    let m = crate::text::signed_decimal_chars(minutes_until);
    extend_chars(&mut v, &m);
    extend_str(&mut v, " minutes at <time:");
    extend_str(&mut v, time_tag);
    extend_str(
        &mut v,
        ">\nMeeting info: https://doc.crates.io/contrib/team.html#meetings\nAgenda: ",
    );
    extend_str(&mut v, publish_link);
    string_of(&v)
}

} // verus!
