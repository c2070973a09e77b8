use cargo_team_tools::calendar::{
    format_day, get_most_recent_tuesday, get_next_tuesday, meeting_announcement, meeting_offset,
    meeting_time_tag, minutes_until_meeting, note_title, checked_note_title, CalendarDay,
    MeetingDate,
};
use cargo_team_tools::notes::{
    new_meeting_content, notes_commit_message, notes_file_name, saved_note, strip_frontmatter,
};
use chrono::{Datelike, NaiveDate, TimeZone, Weekday};

fn day(y: i32, m: u32, d: u32) -> CalendarDay {
    CalendarDay { days_from_ce: NaiveDate::from_ymd_opt(y, m, d).unwrap().num_days_from_ce() }
}

fn date(d: CalendarDay) -> NaiveDate {
    NaiveDate::from_num_days_from_ce_opt(d.days_from_ce).unwrap()
}

#[test]
fn chrono_range_in_day_numbers() {
    assert_eq!(NaiveDate::MIN.num_days_from_ce(), -95746129);
    assert_eq!(NaiveDate::MAX.num_days_from_ce(), 95745399);
    assert_eq!(NaiveDate::from_ymd_opt(1, 1, 1).unwrap().weekday(), Weekday::Mon);
}

#[test]
fn next_tuesday_from_each_weekday() {
    // 2024-06-03 is a Monday.
    let expected = [(3, 4), (4, 11), (5, 11), (6, 11), (7, 11), (8, 11), (9, 11)];
    for (from, to) in expected {
        assert_eq!(date(get_next_tuesday(day(2024, 6, from))), NaiveDate::from_ymd_opt(2024, 6, to).unwrap());
    }
}

#[test]
fn most_recent_tuesday_from_each_weekday() {
    let expected = [(3, 28), (4, 4), (5, 4), (6, 4), (7, 4), (8, 4), (9, 4)];
    for (from, to) in expected {
        let want = if to == 28 {
            NaiveDate::from_ymd_opt(2024, 5, 28).unwrap()
        } else {
            NaiveDate::from_ymd_opt(2024, 6, to).unwrap()
        };
        assert_eq!(date(get_most_recent_tuesday(day(2024, 6, from))), want);
    }
}

#[test]
fn meeting_days_are_tuesdays_over_many_days() {
    let start = day(1999, 12, 25).days_from_ce;
    for n in 0..800 {
        let d = CalendarDay { days_from_ce: start + n };
        let next = date(get_next_tuesday(d));
        let recent = date(get_most_recent_tuesday(d));
        assert_eq!(next.weekday(), Weekday::Tue);
        assert_eq!(recent.weekday(), Weekday::Tue);
        assert_eq!((next - recent).num_days(), 7);
        assert!(next > date(d) && recent <= date(d));
    }
}

#[test]
fn days_format_like_chrono() {
    for d in [day(2024, 6, 4), day(5, 1, 2), day(-44, 3, 15), day(12345, 12, 31), day(0, 1, 1)] {
        assert_eq!(format_day(d), date(d).format("%Y-%m-%d").to_string());
    }
}

#[test]
fn note_titles() {
    let today = day(2024, 6, 5);
    assert_eq!(
        note_title(MeetingDate::NextTuesday, today),
        ("Cargo team meeting notes 2024-06-11".to_owned(), "2024-06-11".to_owned())
    );
    assert_eq!(note_title(MeetingDate::Today, today).1, "2024-06-05");
    assert_eq!(note_title(MeetingDate::MostRecent, today).1, "2024-06-04");
    assert_eq!(checked_note_title(MeetingDate::NextTuesday, today), Some(note_title(MeetingDate::NextTuesday, today)));
}

#[test]
fn meetings_beyond_chrono_range_have_no_title() {
    let last = CalendarDay { days_from_ce: NaiveDate::MAX.num_days_from_ce() };
    let first = CalendarDay { days_from_ce: NaiveDate::MIN.num_days_from_ce() };
    assert_eq!(checked_note_title(MeetingDate::NextTuesday, last), None);
    assert_eq!(checked_note_title(MeetingDate::Today, last).unwrap().1, format_day(last));
    assert_eq!(checked_note_title(MeetingDate::Today, first).unwrap().1, format_day(first));
    let first_is_tuesday = NaiveDate::MIN.weekday() == Weekday::Tue;
    assert_eq!(checked_note_title(MeetingDate::MostRecent, first).is_some(), first_is_tuesday);
    // Whether the next Tuesday exists decides, as chrono's own arithmetic does.
    for back in 0..10 {
        let d = NaiveDate::MAX - chrono::TimeDelta::days(back);
        let days_until = (8 - d.weekday().num_days_from_monday() as i64) % 7;
        let days_until = if days_until == 0 { 7 } else { days_until };
        let exists = d.checked_add_signed(chrono::TimeDelta::days(days_until)).is_some();
        let today = CalendarDay { days_from_ce: d.num_days_from_ce() };
        assert_eq!(checked_note_title(MeetingDate::NextTuesday, today).is_some(), exists, "{d}");
    }
}

#[test]
fn announcement_time_tag_and_minutes() {
    let tz = chrono_tz::America::Los_Angeles;
    for d in [day(2024, 1, 9), day(2024, 7, 9)] {
        let off = meeting_offset(d).unwrap();
        let naive = date(d).and_hms_opt(7, 0, 0).unwrap();
        let local = tz.from_local_datetime(&naive).single().unwrap();
        assert_eq!(meeting_time_tag(d, off), local.format("%Y-%m-%dT07:00:00%:z").to_string());
        let now = chrono::Utc.with_ymd_and_hms(2024, 1, 9, 14, 30, 20).unwrap()
            + chrono::Duration::nanoseconds(123);
        let expected = (local - now.with_timezone(&tz)).num_minutes();
        assert_eq!(
            minutes_until_meeting(d, off, now.timestamp(), now.timestamp_subsec_nanos()),
            expected
        );
    }
    assert_eq!(meeting_offset(day(2024, 1, 9)), Some(-8 * 3600));
    assert_eq!(meeting_offset(day(2024, 7, 9)), Some(-7 * 3600));
}

#[test]
fn minutes_round_toward_zero() {
    let d = day(2024, 1, 9);
    let off = -8 * 3600;
    // The meeting is at 15:00 UTC.
    let meeting = chrono::Utc.with_ymd_and_hms(2024, 1, 9, 15, 0, 0).unwrap().timestamp();
    assert_eq!(minutes_until_meeting(d, off, meeting - 119, 0), 1);
    assert_eq!(minutes_until_meeting(d, off, meeting + 119, 500), -1);
    assert_eq!(minutes_until_meeting(d, off, meeting, 1), 0);
}

#[test]
fn announcement_message() {
    assert_eq!(
        meeting_announcement(-3, "2024-01-09T07:00:00-08:00", "https://hackmd.io/@x/y"),
        "@*T-cargo* Meeting will start in about -3 minutes at <time:2024-01-09T07:00:00-08:00>\nMeeting info: https://doc.crates.io/contrib/team.html#meetings\nAgenda: https://hackmd.io/@x/y"
    );
}

#[test]
fn frontmatter_is_stripped() {
    assert_eq!(strip_frontmatter("---\na: b\n---\n\n# Title\nbody\n"), "# Title\nbody");
    assert_eq!(strip_frontmatter("# No frontmatter\n"), "# No frontmatter\n");
    assert_eq!(strip_frontmatter("---\nunterminated\n"), "---\nunterminated\n");
    assert_eq!(strip_frontmatter(""), "");
    assert_eq!(strip_frontmatter("---\n---"), "");
    assert_eq!(strip_frontmatter("--- \nx\n---\ny"), "--- \nx\n---\ny");
    assert_eq!(strip_frontmatter("---\r\nx\r\n---\r\n  y\r\nz"), "y\nz");
}

#[test]
fn saved_notes_end_in_a_line_break() {
    assert_eq!(saved_note("---\nt\n---\nbody"), "body\n");
    assert_eq!(saved_note("body\n"), "body\n");
    assert_eq!(notes_file_name("2024-06-04"), "2024-06-04.md");
    assert_eq!(notes_commit_message("2024-06-04"), "Add 2024-06-04");
}

#[test]
fn new_meeting_note_is_saved_without_its_frontmatter() {
    let content = new_meeting_content("Cargo team meeting notes 2024-06-11");
    assert!(content.starts_with("---\nrobots: noindex, nofollow\ntags: meetings\n---\n\n# Cargo team meeting notes 2024-06-11\n"));
    assert_eq!(
        saved_note(&content),
        "# Cargo team meeting notes 2024-06-11\n\nhttps://meet.jit.si/CargoTeamMeeting\n\nOut:\nAttendees:\n\n## FCP Reminders\n\n## New RFCs\n"
    );
}
