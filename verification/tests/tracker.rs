use cargo_team_tools::activity::{
    board_date, date_from_iso, pair_user_dates, user_dates_from_timeline_item, Activity,
    ActivityPage,
    TimelineComment, TimelineCommit, TimelineItem,
};
use cargo_team_tools::tracker::{
    fcp_status, github_auth_value, graphql_failure, nomination_sources, split_owner_repo,
    still_nominated, unlisted_nominations, waiting_on, Fcp, FieldInfo, FieldKind, FieldValue,
    ItemContent, ProjectItem, Tracker, TrackerError,
};

fn st(s: &str) -> String {
    s.to_owned()
}

fn value(field: &str, text: Option<&str>, name: Option<&str>, date: Option<&str>) -> FieldValue {
    FieldValue {
        field_name: Some(st(field)),
        text: text.map(st),
        name: name.map(st),
        date: date.map(st),
    }
}

fn item(id: &str, values: Vec<FieldValue>, number: Option<u64>, repo: Option<&str>) -> ProjectItem {
    ProjectItem {
        id: st(id),
        field_values: values,
        content: ItemContent { id: Some(format!("C_{id}")), number, repository: repo.map(st) },
    }
}

fn fcp(number: u64, repo: &str, labels: &[&str]) -> Fcp {
    Fcp {
        number,
        repository: st(repo),
        labels: labels.iter().map(|l| st(l)).collect(),
        disposition: st("merge"),
        has_concerns: false,
        reviews: vec![],
        created_at: st("2024-01-02T03:04:05Z"),
    }
}

fn tracker() -> Tracker {
    Tracker {
        items: vec![
            item(
                "I1",
                vec![
                    value("Waiting on", Some("alice bob"), None, None),
                    value("Status", None, Some("FCP merge"), None),
                    value("Opened", None, None, Some("2024-01-02")),
                ],
                Some(10),
                Some("rust-lang/cargo"),
            ),
            item("I2", vec![value("Status", None, Some("Nominated"), None)], Some(11), Some("rust-lang/rust")),
            item("I3", vec![value("Status", None, Some("Nominated"), None)], None, None),
            item("I1", vec![value("Status", None, Some("other"), None)], None, None),
        ],
        team_members: vec![st("alice"), st("bob")],
        rfcbot: vec![
            fcp(10, "rust-lang/cargo", &["T-cargo"]),
            fcp(20, "rust-lang/cargo", &["T-cargo", "A-x"]),
            fcp(30, "rust-lang/rfcs", &["T-lang"]),
            fcp(11, "rust-lang/rust", &["T-cargo"]),
        ],
        fields: vec![
            FieldInfo { name: st("Status"), id: st("F1"), options: vec![(st("Nominated"), st("O1")), (st("FCP merge"), st("O2"))] },
            FieldInfo { name: st("Opened"), id: st("F2"), options: vec![] },
            FieldInfo { name: st("Status"), id: st("F3"), options: vec![(st("Nominated"), st("O9"))] },
        ],
    }
}

#[test]
fn values_already_set() {
    let t = tracker();
    assert!(t.value_already_set("I1", "Waiting on", FieldKind::Text, "alice bob"));
    assert!(!t.value_already_set("I1", "Waiting on", FieldKind::Text, "alice"));
    assert!(t.value_already_set("I1", "Status", FieldKind::Name, "FCP merge"));
    assert!(t.value_already_set("I1", "Opened", FieldKind::Date, "2024-01-02"));
    // No value for a text field and an empty new value: GitHub's unset.
    assert!(t.value_already_set("I2", "Waiting on", FieldKind::Text, ""));
    assert!(!t.value_already_set("I2", "Waiting on", FieldKind::Name, ""));
    assert!(!t.value_already_set("missing", "Status", FieldKind::Name, "Nominated"));
}

#[test]
fn later_fields_replace_earlier_ones() {
    let t = tracker();
    assert_eq!(t.field_id("Status").as_deref(), Some("F3"));
    assert_eq!(t.field_id("Opened").as_deref(), Some("F2"));
    assert_eq!(t.field_id("Nope"), None);
    assert_eq!(t.option_id("Status", "Nominated").as_deref(), Some("O9"));
    assert_eq!(t.option_id("Status", "FCP merge"), None);
}

#[test]
fn fcp_statuses() {
    assert_eq!(fcp_status("merge", false).unwrap(), "FCP merge");
    assert_eq!(fcp_status("close", false).unwrap(), "FCP close");
    assert_eq!(fcp_status("postpone", false).unwrap(), "FCP postpone");
    assert_eq!(fcp_status("merge", true).unwrap(), "FCP blocked");
    assert_eq!(fcp_status("other", true), Err(TrackerError::UnexpectedDisposition(st("other"))));
}

#[test]
fn waiting_on_sorts_the_unchecked() {
    let reviews = vec![(st("zed"), false), (st("amy"), true), (st("bob"), false), (st("Carl"), false)];
    assert_eq!(waiting_on(&reviews), "Carl bob zed");
    assert_eq!(waiting_on(&[]), "");
    let mut expected = vec!["é", "e", "ab", "a", "b"];
    let reviews: Vec<(String, bool)> = expected.iter().map(|l| (st(l), false)).collect();
    expected.sort();
    assert_eq!(waiting_on(&reviews), expected.join(" "));
}

#[test]
fn fcps_and_items() {
    let t = tracker();
    assert_eq!(t.fcp_for("rust-lang/cargo", 20), Some(1));
    assert_eq!(t.fcp_for("rust-lang/cargo", 30), None);
    assert!(t.tracks_issue("rust-lang/cargo", 10));
    assert!(!t.tracks_issue("rust-lang/cargo", 20));
    assert_eq!(t.missing_fcps(), vec![1]);
}

#[test]
fn nominated_items_and_labels() {
    let t = tracker();
    assert_eq!(t.nominated_items(), vec![(st("I2"), st("C_I2"))]);
    assert!(still_nominated(&[st("A-x"), st("I-cargo-nominated")]));
    assert!(still_nominated(&[st("I-nominated-to-discuss")]));
    assert!(!still_nominated(&[st("I-nominated")]));
    let found = vec![st("C_I2"), st("N1"), st("N1")];
    assert_eq!(unlisted_nominations(&t.nominated_items(), &found), vec![st("N1"), st("N1")]);
    let sources = nomination_sources();
    assert_eq!(sources[0], (st("cargo"), st("I-nominated-to-discuss")));
    assert_eq!(sources[2], (st("rfcs"), st("I-cargo-nominated")));
}

#[test]
fn repositories_split_at_the_first_slash() {
    assert_eq!(split_owner_repo("rust-lang/cargo"), Some((st("rust-lang"), st("cargo"))));
    assert_eq!(split_owner_repo("a/b/c"), Some((st("a"), st("b/c"))));
    assert_eq!(split_owner_repo("nobody"), None);
}

#[test]
fn auth_and_graphql_messages() {
    assert_eq!(github_auth_value("  ghp_abc\n"), "token ghp_abc");
    assert_eq!(graphql_failure(&[st("a"), st("b")]), "graphql failed: a\nb");
}

#[test]
fn iso_dates_and_board_dates() {
    let jd = date_from_iso("2024-01-02T03:04:05Z").unwrap();
    let d = time::Date::from_calendar_date(2024, time::Month::January, 2).unwrap();
    assert_eq!(jd, d.to_julian_day());
    assert_eq!(board_date(jd), "2024-01-02");
    assert_eq!(board_date(time::Date::MIN.to_julian_day()), "-9999-01-01");
    assert_eq!(time::Date::MIN.to_julian_day(), -1930999);
    assert_eq!(time::Date::MAX.to_julian_day(), 5373484);
    assert!(matches!(
        date_from_iso("not a date"),
        Err(TrackerError::BadDate { in_comment: false, .. })
    ));
}

fn comment(login: Option<&str>, at: &str) -> TimelineComment {
    TimelineComment { author_login: login.map(st), updated_at: st(at) }
}

fn empty_item() -> TimelineItem {
    TimelineItem { comments: None, updated_at: None, author_login: None, created_at: None, actor_login: None, commit: None }
}

fn jd(y: i32, m: u8, d: u8) -> i32 {
    time::Date::from_calendar_date(y, time::Month::try_from(m).unwrap(), d).unwrap().to_julian_day()
}

#[test]
fn timeline_user_dates() {
    let review = TimelineItem {
        comments: Some(vec![comment(Some("alice"), "2024-01-05T00:00:00Z"), comment(None, "2024-01-06T00:00:00Z")]),
        updated_at: Some(st("2024-02-01T00:00:00Z")),
        ..empty_item()
    };
    assert_eq!(
        user_dates_from_timeline_item(&review).unwrap(),
        vec![(st("alice"), jd(2024, 1, 5)), (st("ghost"), jd(2024, 1, 6))]
    );
    let closed = TimelineItem { created_at: Some(st("2024-03-01T10:00:00Z")), actor_login: Some(st("bob")), ..empty_item() };
    assert_eq!(user_dates_from_timeline_item(&closed).unwrap(), vec![(st("bob"), jd(2024, 3, 1))]);
    let commit = TimelineItem {
        commit: Some(TimelineCommit { author_login: None, committed_date: st("2024-04-01T10:00:00Z") }),
        ..empty_item()
    };
    assert_eq!(user_dates_from_timeline_item(&commit).unwrap(), vec![(st("ghost"), jd(2024, 4, 1))]);
    assert!(user_dates_from_timeline_item(&empty_item()).unwrap().is_empty());
    let bad = TimelineItem { comments: Some(vec![comment(None, "yesterday")]), ..empty_item() };
    assert!(matches!(
        user_dates_from_timeline_item(&bad),
        Err(TrackerError::BadDate { in_comment: true, .. })
    ));
}

#[test]
fn activity_over_pages() {
    let team = vec![st("alice")];
    let page1 = ActivityPage {
        created_at: st("2024-01-01T00:00:00Z"),
        author_login: Some(st("carol")),
        updated_at: st("2024-01-10T00:00:00Z"),
        items: vec![
            TimelineItem { updated_at: Some(st("2024-01-03T00:00:00Z")), author_login: Some(st("alice")), ..empty_item() },
            TimelineItem { updated_at: Some(st("2024-01-04T00:00:00Z")), author_login: Some(st("carol")), ..empty_item() },
        ],
    };
    let page2 = ActivityPage {
        items: vec![TimelineItem { created_at: Some(st("2024-01-20T00:00:00Z")), actor_login: Some(st("dave")), ..empty_item() }],
        ..page1.clone()
    };
    let mut a = Activity::new();
    assert_eq!(a.team, None);
    a.absorb_page(&page1, &team).unwrap();
    a.absorb_page(&page2, &team).unwrap();
    assert_eq!(a.overall, jd(2024, 1, 20));
    assert_eq!(a.team, Some(jd(2024, 1, 3)));
    assert_eq!(a.author, jd(2024, 1, 4));
    assert_eq!(a.opened, Some(jd(2024, 1, 1)));
    let bad = ActivityPage { updated_at: st("bad"), ..page1 };
    assert!(Activity::new().absorb_page(&bad, &team).is_err());
}

#[test]
fn parsed_days_pair_with_their_users() {
    let review = TimelineItem {
        comments: Some(vec![comment(Some("alice"), "x"), comment(None, "y")]),
        updated_at: Some(st("z")),
        ..empty_item()
    };
    assert_eq!(pair_user_dates(&review, &[10, 20]), vec![(st("alice"), 10), (st("ghost"), 20)]);
    let event = TimelineItem { created_at: Some(st("t")), actor_login: Some(st("bors")), author_login: Some(st("x")), ..empty_item() };
    assert_eq!(pair_user_dates(&event, &[7]), vec![(st("bors"), 7)]);
    let commit = TimelineItem {
        commit: Some(TimelineCommit { author_login: None, committed_date: st("c") }),
        ..empty_item()
    };
    assert_eq!(pair_user_dates(&commit, &[3]), vec![(st("ghost"), 3)]);
    assert_eq!(pair_user_dates(&empty_item(), &[]), vec![]);
}

#[test]
fn noting_parsed_days() {
    let mut a = Activity::new();
    a.note_opening(100, 150);
    assert_eq!(a.overall, 150);
    assert_eq!(a.author, 100);
    assert_eq!(a.opened, Some(100));
    assert_eq!(a.team, None);
    let team = vec![st("ehuss"), st("epage")];
    a.absorb_user_dates(&[(st("epage"), 120), (st("me"), 160), (st("ehuss"), 110)], &team, "me");
    assert_eq!(a.overall, 160);
    assert_eq!(a.team, Some(120));
    assert_eq!(a.author, 160);
    a.absorb_user_dates(&[(st("epage"), 90)], &team, "me");
    assert_eq!(a.team, Some(120));
}
