//! Dates of activity on an issue or PR: who did something when, and the
//! latest activity overall, by the team and by the author.
use vstd::prelude::*;
use crate::text::{
    chars_eq, chars_of, decimal, extend_chars, padded_decimal, padded_decimal_chars,
    signed_decimal, signed_decimal_chars, string_of,
};
use crate::tracker::TrackerError;
use crate::version::{calendar_of_julian_day, first_julian_day, julian_day_calendar, last_julian_day};

verus! {

#[verifier::external_type_specification]
#[verifier::external_body]
pub struct ExTimeParseError(time::error::Parse);

/// Name for the Julian day of the date that
/// `time::Date::parse(text, &Iso8601::DATE_TIME)` reads from `text`, or
/// `None` when it rejects the text.
pub uninterp spec fn iso8601_julian_day(text: Seq<char>) -> Option<i32>;

/// `time::Date::parse` with the ISO 8601 date-and-time format: the Julian day
/// of the date, or the `time` crate's error. What it accepts is not stated.
#[verifier::external_body]
fn parse_iso8601_date(text: &str) -> (r: Result<i32, time::error::Parse>)
    ensures
        r matches Ok(jd) ==> iso8601_julian_day(text@) == Some(jd) && first_julian_day() <= jd
            <= last_julian_day(),
        r is Err ==> iso8601_julian_day(text@) is None,
{
    match time::Date::parse(text, &time::format_description::well_known::Iso8601::DATE_TIME) {
        Ok(d) => Ok(d.to_julian_day()),
        Err(e) => Err(e),
    }
}

/// The Julian day of an ISO 8601 date and time.
pub fn date_from_iso(iso: &str) -> (r: Result<i32, TrackerError>)
    ensures
        r matches Ok(jd) ==> iso8601_julian_day(iso@) == Some(jd) && first_julian_day() <= jd
            <= last_julian_day(),
        r matches Err(e) ==> iso8601_julian_day(iso@) is None && (e matches TrackerError::BadDate {
            text,
            in_comment,
        } && text@ == iso@ && !in_comment),
{
    match parse_iso8601_date(iso) {
        Ok(jd) => Ok(jd),
        Err(_) => {
            let c = chars_of(iso);
            Err(TrackerError::BadDate { text: string_of(&c), in_comment: false })
        },
    }
}

/// A date as the project board takes it: `{year}-{month:02}-{day:02}`, the
/// year in plain decimal.
pub open spec fn board_date_text(jd: int) -> Seq<char> {
    let c = calendar_of_julian_day(jd);
    signed_decimal(c.0 as int) + seq!['-'] + padded_decimal(c.1 as nat, 2) + seq!['-']
        + padded_decimal(c.2 as nat, 2)
}

/// The date with Julian day `jd` as the board's date fields take it.
pub fn board_date(jd: i32) -> (r: String)
    requires
        first_julian_day() <= jd <= last_julian_day(),
    ensures
        r@ == board_date_text(jd as int),
{
    let (y, m, d) = julian_day_calendar(jd);
    let mut v = signed_decimal_chars(y as i64);
    v.push('-');
    let pm = padded_decimal_chars(m as u64, 2);
    extend_chars(&mut v, &pm);
    v.push('-');
    let pd = padded_decimal_chars(d as u64, 2);
    extend_chars(&mut v, &pd);
    string_of(&v)
}

// ---------------------------------------------------------------------------
// Timeline items
// ---------------------------------------------------------------------------

/// A comment in a review or review thread.
#[derive(Clone, Debug)]
pub struct TimelineComment {
    pub author_login: Option<String>,
    pub updated_at: String,
}

/// The commit of a pushed commit event.
#[derive(Clone, Debug)]
pub struct TimelineCommit {
    pub author_login: Option<String>,
    pub committed_date: String,
}

/// An event on the timeline of an issue or PR, with the parts of it that
/// tell who acted when: its comments (for reviews and review threads), its
/// author and update time (for comments), its actor and time (for other
/// events), or its commit.
#[derive(Clone, Debug)]
pub struct TimelineItem {
    pub comments: Option<Vec<TimelineComment>>,
    pub updated_at: Option<String>,
    pub author_login: Option<String>,
    pub created_at: Option<String>,
    pub actor_login: Option<String>,
    pub commit: Option<TimelineCommit>,
}

/// A login, or `ghost` for a deleted account.
pub open spec fn login_or_ghost(login: Option<String>) -> Seq<char> {
    match login {
        Some(l) => l@,
        None => "ghost"@,
    }
}

fn login_or_ghost_exec(login: &Option<String>) -> (r: Vec<char>)
    ensures
        r@ == login_or_ghost(*login),
{
    match login {
        Some(l) => chars_of(l.as_str()),
        None => chars_of("ghost"),
    }
}

/// A date, or the text that failed to parse as one.
pub open spec fn parsed_date(text: Seq<char>) -> Result<i32, Seq<char>> {
    match iso8601_julian_day(text) {
        Some(jd) => Ok(jd),
        None => Err(text),
    }
}

/// Who commented when, for each comment in order; or the first date that
/// does not parse.
pub open spec fn comment_dates(cs: Seq<TimelineComment>) -> Result<Seq<(Seq<char>, i32)>, Seq<char>>
    decreases cs.len(),
{
    if cs.len() == 0 {
        Ok(seq![])
    } else {
        match comment_dates(cs.drop_last()) {
            Err(e) => Err(e),
            Ok(prev) => match parsed_date(cs.last().updated_at@) {
                Err(e) => Err(e),
                Ok(d) => Ok(prev.push((login_or_ghost(cs.last().author_login), d))),
            },
        }
    }
}

/// Who did something when on a timeline item; or the date that does not
/// parse, and whether it was a comment's.
pub open spec fn item_user_dates(item: TimelineItem) -> Result<
    Seq<(Seq<char>, i32)>,
    (Seq<char>, bool),
> {
    match item.comments {
        Some(cs) => match comment_dates(cs@) {
            Ok(uds) => Ok(uds),
            Err(t) => Err((t, true)),
        },
        None => match item.updated_at {
            Some(u) => match parsed_date(u@) {
                Ok(d) => Ok(seq![(login_or_ghost(item.author_login), d)]),
                Err(t) => Err((t, false)),
            },
            None => match item.created_at {
                Some(c) => match parsed_date(c@) {
                    Ok(d) => Ok(seq![(login_or_ghost(item.actor_login), d)]),
                    Err(t) => Err((t, false)),
                },
                None => match item.commit {
                    Some(k) => match parsed_date(k.committed_date@) {
                        Ok(d) => Ok(seq![(login_or_ghost(k.author_login), d)]),
                        Err(t) => Err((t, false)),
                    },
                    None => Ok(seq![]),
                },
            },
        },
    }
}

/// The views of (user, date) pairs.
pub open spec fn user_date_views(v: Seq<(String, i32)>) -> Seq<(Seq<char>, i32)> {
    v.map_values(|p: (String, i32)| (p.0@, p.1))
}

/// The error for a date that does not parse.
pub open spec fn is_bad_date(e: TrackerError, text: Seq<char>, in_comment: bool) -> bool {
    e matches TrackerError::BadDate { text: t, in_comment: c } && t@ == text && c == in_comment
}

fn bad_date(text: &str, in_comment: bool) -> (e: TrackerError)
    ensures
        is_bad_date(e, text@, in_comment),
{
    let c = chars_of(text);
    TrackerError::BadDate { text: string_of(&c), in_comment }
}

/// The date texts of a timeline item, in order: each comment's update time
/// for a review or review thread, else its update time, its time, or its
/// commit's date.
pub open spec fn item_date_texts(item: TimelineItem) -> Seq<Seq<char>> {
    match item.comments {
        Some(cs) => cs@.map_values(|c: TimelineComment| c.updated_at@),
        None => match item.updated_at {
            Some(u) => seq![u@],
            None => match item.created_at {
                Some(c) => seq![c@],
                None => match item.commit {
                    Some(k) => seq![k.committed_date@],
                    None => seq![],
                },
            },
        },
    }
}

/// Who stands behind each date text of a timeline item: each comment's
/// author, else the item's author, its actor, or its commit's author.
pub open spec fn item_logins(item: TimelineItem) -> Seq<Seq<char>> {
    match item.comments {
        Some(cs) => cs@.map_values(|c: TimelineComment| login_or_ghost(c.author_login)),
        None => match item.updated_at {
            Some(_) => seq![login_or_ghost(item.author_login)],
            None => match item.created_at {
                Some(_) => seq![login_or_ghost(item.actor_login)],
                None => match item.commit {
                    Some(k) => seq![login_or_ghost(k.author_login)],
                    None => seq![],
                },
            },
        },
    }
}

/// Each login of the item with the day its date text parsed to.
pub open spec fn item_pairs(item: TimelineItem, days: Seq<i32>) -> Seq<(Seq<char>, i32)> {
    Seq::new(days.len(), |k: int| (item_logins(item)[k], days[k]))
}

/// Who did something when on a timeline item, given the days that its date
/// texts (`item_date_texts`) parsed to, in order.
pub fn pair_user_dates(item: &TimelineItem, days: &[i32]) -> (r: Vec<(String, i32)>)
    requires
        days@.len() == item_date_texts(*item).len(),
    ensures
        user_date_views(r@) == item_pairs(*item, days@),
{
    let mut v: Vec<(String, i32)> = Vec::new();
    if let Some(cs) = &item.comments {
        for i in 0..cs.len()
            invariant
                days@.len() == cs@.len(),
                item_logins(*item) == cs@.map_values(
                    |c: TimelineComment| login_or_ghost(c.author_login),
                ),
                user_date_views(v@) =~= item_pairs(*item, days@).take(i as int),
        {
            let l = login_or_ghost_exec(&cs[i].author_login);
            let ghost prev = user_date_views(v@);
            v.push((string_of(&l), days[i]));
            assert(user_date_views(v@) =~= prev.push((item_logins(*item)[i as int], days@[i as int])));
            assert(item_pairs(*item, days@).take(i + 1) =~= item_pairs(*item, days@).take(
                i as int,
            ).push(item_pairs(*item, days@)[i as int]));
        }
        assert(item_pairs(*item, days@).take(cs@.len() as int) =~= item_pairs(*item, days@));
    } else {
        let login = if item.updated_at.is_some() {
            &item.author_login
        } else if item.created_at.is_some() {
            &item.actor_login
        } else {
            match &item.commit {
                Some(k) => &k.author_login,
                None => {
                    assert(user_date_views(v@) =~= item_pairs(*item, days@));
                    return v;
                },
            }
        };
        let l = login_or_ghost_exec(login);
        v.push((string_of(&l), days[0]));
        assert(user_date_views(v@) =~= item_pairs(*item, days@));
    }
    v
}

/// The comments' dates, all parsed, pair each comment's author with its day.
proof fn lemma_comment_dates_ok(cs: Seq<TimelineComment>, days: Seq<i32>)
    requires
        days.len() == cs.len(),
        forall|k: int|
            0 <= k < cs.len() ==> iso8601_julian_day(#[trigger] cs[k].updated_at@) == Some(days[k]),
    ensures
        comment_dates(cs) == Ok::<Seq<(Seq<char>, i32)>, Seq<char>>(
            Seq::new(cs.len(), |k: int| (login_or_ghost(cs[k].author_login), days[k])),
        ),
    decreases cs.len(),
{
    if cs.len() > 0 {
        let rest = cs.drop_last();
        assert forall|k: int| 0 <= k < rest.len() implies iso8601_julian_day(
            #[trigger] rest[k].updated_at@,
        ) == Some(days.drop_last()[k]) by {
            assert(rest[k] == cs[k]);
        }
        lemma_comment_dates_ok(rest, days.drop_last());
        assert(iso8601_julian_day(cs[cs.len() - 1].updated_at@) == Some(days[cs.len() - 1]));
        assert(Seq::new(cs.len(), |k: int| (login_or_ghost(cs[k].author_login), days[k])) =~= Seq::new(
            rest.len(),
            |k: int| (login_or_ghost(rest[k].author_login), days.drop_last()[k]),
        ).push((login_or_ghost(cs.last().author_login), days.last())));
    } else {
        assert(Seq::new(cs.len(), |k: int| (login_or_ghost(cs[k].author_login), days[k])) =~= Seq::<
            (Seq<char>, i32),
        >::empty());
    }
}

/// Once all of an item's date texts parse, its user dates are the pairs.
proof fn lemma_item_user_dates_ok(item: TimelineItem, days: Seq<i32>)
    requires
        days.len() == item_date_texts(item).len(),
        forall|k: int|
            0 <= k < days.len() ==> iso8601_julian_day(#[trigger] item_date_texts(item)[k]) == Some(
                days[k],
            ),
    ensures
        item_user_dates(item) == Ok::<Seq<(Seq<char>, i32)>, (Seq<char>, bool)>(
            item_pairs(item, days),
        ),
{
    if let Some(cs) = item.comments {
        assert forall|k: int| 0 <= k < cs@.len() implies iso8601_julian_day(
            #[trigger] cs@[k].updated_at@,
        ) == Some(days[k]) by {
            assert(item_date_texts(item)[k] == cs@[k].updated_at@);
        }
        lemma_comment_dates_ok(cs@, days);
        assert(item_pairs(item, days) =~= Seq::new(
            cs@.len(),
            |k: int| (login_or_ghost(cs@[k].author_login), days[k]),
        ));
    } else {
        assert(days.len() == 0 ==> item_pairs(item, days) =~= Seq::<(Seq<char>, i32)>::empty());
        assert(days.len() == 1 ==> item_pairs(item, days) =~= seq![(item_logins(item)[0], days[0])]);
        if days.len() == 1 {
            assert(iso8601_julian_day(item_date_texts(item)[0]) == Some(days[0]));
        }
    }
}

/// The first comment date that does not parse is the comments' error.
proof fn lemma_comment_dates_err(cs: Seq<TimelineComment>, i: int)
    requires
        0 <= i < cs.len(),
        iso8601_julian_day(cs[i].updated_at@) is None,
        forall|k: int| 0 <= k < i ==> iso8601_julian_day(#[trigger] cs[k].updated_at@) is Some,
    ensures
        comment_dates(cs) == Err::<Seq<(Seq<char>, i32)>, Seq<char>>(cs[i].updated_at@),
{
    let pre = cs.take(i);
    let days = Seq::new(i as nat, |k: int| iso8601_julian_day(cs[k].updated_at@)->0);
    assert forall|k: int| 0 <= k < pre.len() implies iso8601_julian_day(
        #[trigger] pre[k].updated_at@,
    ) == Some(days[k]) by {
        assert(pre[k] == cs[k]);
    }
    lemma_comment_dates_ok(pre, days);
    assert(cs.take(i + 1).drop_last() =~= pre);
    assert(cs.take(i + 1).last() == cs[i]);
    lemma_comment_error_persists(cs, i + 1);
}

/// Who did something when on a timeline item: each comment's author and
/// time for a review or review thread, else the author and update time, the
/// actor and time, or the commit's author and date; `ghost` for deleted
/// accounts.
#[verifier::loop_isolation(false)]
pub fn user_dates_from_timeline_item(item: &TimelineItem) -> (r: Result<
    Vec<(String, i32)>,
    TrackerError,
>)
    ensures
        r matches Ok(v) ==> item_user_dates(*item) == Ok::<
            Seq<(Seq<char>, i32)>,
            (Seq<char>, bool),
        >(user_date_views(v@)),
        r matches Err(e) ==> item_user_dates(*item) matches Err((t, c)) && is_bad_date(e, t, c),
{
    let mut days: Vec<i32> = Vec::new();
    if let Some(cs) = &item.comments {
        for i in 0..cs.len()
            invariant
                days@.len() == i,
                forall|k: int|
                    0 <= k < i ==> iso8601_julian_day(#[trigger] cs@[k].updated_at@) == Some(
                        days@[k],
                    ),
        {
            match parse_iso8601_date(cs[i].updated_at.as_str()) {
                Ok(d) => days.push(d),
                Err(_) => {
                    proof {
                        lemma_comment_dates_err(cs@, i as int);
                    }
                    return Err(bad_date(cs[i].updated_at.as_str(), true));
                },
            }
        }
        assert forall|k: int| 0 <= k < days@.len() implies iso8601_julian_day(
            #[trigger] item_date_texts(*item)[k],
        ) == Some(days@[k]) by {
            assert(item_date_texts(*item)[k] == cs@[k].updated_at@);
        }
    } else {
        let text = if let Some(u) = &item.updated_at {
            u.as_str()
        } else if let Some(c) = &item.created_at {
            c.as_str()
        } else if let Some(k) = &item.commit {
            k.committed_date.as_str()
        } else {
            proof {
                lemma_item_user_dates_ok(*item, days@);
            }
            return Ok(pair_user_dates(item, &days));
        };
        assert(item_date_texts(*item) == seq![text@]);
        match parse_iso8601_date(text) {
            Ok(d) => days.push(d),
            Err(_) => return Err(bad_date(text, false)),
        }
    }
    proof {
        lemma_item_user_dates_ok(*item, days@);
    }
    Ok(pair_user_dates(item, &days))
}

/// Once a prefix of the comments fails, every longer prefix fails the same
/// way.
pub proof fn lemma_comment_error_persists(cs: Seq<TimelineComment>, i: int)
    requires
        0 <= i <= cs.len(),
        comment_dates(cs.take(i)) is Err,
    ensures
        comment_dates(cs) == comment_dates(cs.take(i)),
    decreases cs.len() - i,
{
    if i < cs.len() {
        assert(cs.take(i + 1).drop_last() =~= cs.take(i));
        lemma_comment_error_persists(cs, i + 1);
    } else {
        assert(cs.take(i) =~= cs);
    }
}

// ---------------------------------------------------------------------------
// Latest activity
// ---------------------------------------------------------------------------

/// One page of the timeline of an issue or PR: when it was opened and last
/// updated, by whom it was opened, and the events on the page.
#[derive(Clone, Debug)]
pub struct ActivityPage {
    pub created_at: String,
    pub author_login: Option<String>,
    pub updated_at: String,
    pub items: Vec<TimelineItem>,
}

/// The latest activity seen so far, as Julian days: by anyone, by a team
/// member, by the author; and when the issue or PR was opened.
#[derive(Clone, Copy, Debug, PartialEq, Eq)]
pub struct Activity {
    pub overall: i32,
    pub team: Option<i32>,
    pub author: i32,
    pub opened: Option<i32>,
}

/// The later of two days.
pub open spec fn later(a: i32, b: i32) -> i32 {
    if a >= b {
        a
    } else {
        b
    }
}

/// `user` is one of the team's members.
pub open spec fn is_member(team: Seq<String>, user: Seq<char>) -> bool {
    exists|k: int| 0 <= k < team.len() && #[trigger] team[k]@ == user
}

/// The activity after noting that `user` acted on day `d`.
pub open spec fn note_user_date(a: Activity, user: Seq<char>, d: i32, team: Seq<String>, author: Seq<
    char,
>) -> Activity {
    Activity {
        overall: later(a.overall, d),
        team: if is_member(team, user) {
            Some(
                later(
                    match a.team {
                        Some(t) => t,
                        None => first_julian_day() as i32,
                    },
                    d,
                ),
            )
        } else {
            a.team
        },
        author: if user == author {
            later(a.author, d)
        } else {
            a.author
        },
        opened: a.opened,
    }
}

/// The activity after noting each (user, day), in order.
pub open spec fn note_user_dates(
    a: Activity,
    uds: Seq<(Seq<char>, i32)>,
    team: Seq<String>,
    author: Seq<char>,
) -> Activity
    decreases uds.len(),
{
    if uds.len() == 0 {
        a
    } else {
        let b = note_user_dates(a, uds.drop_last(), team, author);
        note_user_date(b, uds.last().0, uds.last().1, team, author)
    }
}

/// The activity after noting each timeline item, in order; or the first
/// date that does not parse.
pub open spec fn note_items(
    a: Activity,
    items: Seq<TimelineItem>,
    team: Seq<String>,
    author: Seq<char>,
) -> Result<Activity, (Seq<char>, bool)>
    decreases items.len(),
{
    if items.len() == 0 {
        Ok(a)
    } else {
        match note_items(a, items.drop_last(), team, author) {
            Err(e) => Err(e),
            Ok(b) => match item_user_dates(items.last()) {
                Err(e) => Err(e),
                Ok(uds) => Ok(note_user_dates(b, uds, team, author)),
            },
        }
    }
}

/// The activity once a page's days are noted: the update day as anyone's,
/// the opening day as the author's, and the opening day itself.
pub open spec fn opened_activity(a: Activity, opened: i32, updated: i32) -> Activity {
    Activity {
        overall: later(a.overall, updated),
        team: a.team,
        author: later(a.author, opened),
        opened: Some(opened),
    }
}

/// The activity after one page of the timeline: the opening date noted as
/// the author's, the update date as anyone's, then every event; or the first
/// date that does not parse.
pub open spec fn note_page(a: Activity, page: ActivityPage, team: Seq<String>) -> Result<
    Activity,
    (Seq<char>, bool),
> {
    match parsed_date(page.created_at@) {
        Err(t) => Err((t, false)),
        Ok(opened) => match parsed_date(page.updated_at@) {
            Err(t) => Err((t, false)),
            Ok(updated) => note_items(
                opened_activity(a, opened, updated),
                page.items@,
                team,
                login_or_ghost(page.author_login),
            ),
        },
    }
}

/// The activity before any page: nothing yet (`time::Date::MIN`).
pub open spec fn no_activity() -> Activity {
    Activity {
        overall: first_julian_day() as i32,
        team: None,
        author: first_julian_day() as i32,
        opened: None,
    }
}

fn is_member_exec(team: &[String], user: &[char]) -> (r: bool)
    ensures
        r == is_member(team@, user@),
{
    for k in 0..team.len()
        invariant
            forall|x: int| 0 <= x < k ==> #[trigger] team@[x]@ != user@,
    {
        let m = chars_of(team[k].as_str());
        if chars_eq(&m, user) {
            return true;
        }
    }
    false
}

fn max_day(a: i32, b: i32) -> (r: i32)
    ensures
        r == later(a, b),
{
    if a >= b {
        a
    } else {
        b
    }
}

impl Activity {
    /// No activity seen yet.
    pub fn new() -> (r: Activity)
        ensures
            r == no_activity(),
    {
        Activity { overall: -1930999, team: None, author: -1930999, opened: None }
    }

    /// Notes the activity on one page of an issue's or PR's timeline.
    #[verifier::loop_isolation(false)]
    pub fn absorb_page(&mut self, page: &ActivityPage, team_members: &[String]) -> (r: Result<
        (),
        TrackerError,
    >)
        ensures
            r is Ok ==> note_page(*old(self), *page, team_members@) == Ok::<
                Activity,
                (Seq<char>, bool),
            >(*final(self)),
            r matches Err(e) ==> note_page(*old(self), *page, team_members@) matches Err((t, c))
                && is_bad_date(e, t, c),
    {
        let opened = match parse_iso8601_date(page.created_at.as_str()) {
            Ok(d) => d,
            Err(_) => return Err(bad_date(page.created_at.as_str(), false)),
        };
        let updated = match parse_iso8601_date(page.updated_at.as_str()) {
            Ok(d) => d,
            Err(_) => return Err(bad_date(page.updated_at.as_str(), false)),
        };
        let author = login_or_ghost_exec(&page.author_login);
        let author = string_of(&author);
        let mut a = *self;
        a.note_opening(opened, updated);
        let ghost start = a;
        let items = &page.items;
        assert(items@.take(0) =~= Seq::<TimelineItem>::empty());
        for i in 0..items.len()
            invariant
                note_items(start, items@.take(i as int), team_members@, author@) == Ok::<
                    Activity,
                    (Seq<char>, bool),
                >(a),
        {
            assert(items@.take(i + 1).drop_last() =~= items@.take(i as int));
            assert(items@.take(i + 1).last() == items@[i as int]);
            let uds = match user_dates_from_timeline_item(&items[i]) {
                Ok(v) => v,
                Err(e) => {
                    assert(note_items(start, items@.take(i + 1), team_members@, author@) is Err);
                    proof {
                        lemma_items_error_persists(start, items@, team_members@, author@, i + 1);
                    }
                    assert(items@.take(items@.len() as int) =~= items@);
                    return Err(e);
                },
            };
            a.absorb_user_dates(&uds, team_members, author.as_str());
        }
        assert(items@.take(items@.len() as int) =~= items@);
        *self = a;
        Ok(())
    }

    /// Notes a page's opening and update days: the update day as anyone's
    /// latest activity, the opening day as the author's and as the day the
    /// issue or PR was opened.
    pub fn note_opening(&mut self, opened: i32, updated: i32)
        ensures
            *final(self) == opened_activity(*old(self), opened, updated),
    {
        self.overall = max_day(self.overall, updated);
        self.author = max_day(self.author, opened);
        self.opened = Some(opened);
    }

    /// Notes that each user acted on the given day, in order: the latest day
    /// overall, of the team's members and of the author.
    #[verifier::loop_isolation(false)]
    pub fn absorb_user_dates(&mut self, uds: &[(String, i32)], team_members: &[String], author: &str)
        ensures
            *final(self) == note_user_dates(
                *old(self),
                user_date_views(uds@),
                team_members@,
                author@,
            ),
    {
        let ghost before = *self;
        let author = chars_of(author);
        assert(user_date_views(uds@).take(0) =~= Seq::<(Seq<char>, i32)>::empty());
        for j in 0..uds.len()
            invariant
                *self == note_user_dates(
                    before,
                    user_date_views(uds@).take(j as int),
                    team_members@,
                    author@,
                ),
        {
            assert(user_date_views(uds@).take(j + 1).drop_last() =~= user_date_views(uds@).take(
                j as int,
            ));
            assert(user_date_views(uds@).take(j + 1).last() == (uds@[j as int].0@, uds@[j as int].1));
            let (user, d) = (&uds[j].0, uds[j].1);
            let u = chars_of(user.as_str());
            self.overall = max_day(self.overall, d);
            if is_member_exec(team_members, &u) {
                let t = match self.team {
                    Some(t) => t,
                    None => -1930999,
                };
                self.team = Some(max_day(t, d));
            }
            if chars_eq(&u, &author) {
                self.author = max_day(self.author, d);
            }
        }
        assert(user_date_views(uds@).take(uds@.len() as int) =~= user_date_views(uds@));
    }
}

/// Once a prefix of the items fails, every longer prefix fails the same way.
pub proof fn lemma_items_error_persists(
    a: Activity,
    items: Seq<TimelineItem>,
    team: Seq<String>,
    author: Seq<char>,
    i: int,
)
    requires
        0 <= i <= items.len(),
        note_items(a, items.take(i), team, author) is Err,
    ensures
        note_items(a, items, team, author) == note_items(a, items.take(i), team, author),
    decreases items.len() - i,
{
    if i < items.len() {
        assert(items.take(i + 1).drop_last() =~= items.take(i));
        lemma_items_error_persists(a, items, team, author, i + 1);
    } else {
        assert(items.take(i) =~= items);
    }
}

/// Noting activity never moves a latest date back.
pub proof fn lemma_note_user_dates_monotone(
    a: Activity,
    uds: Seq<(Seq<char>, i32)>,
    team: Seq<String>,
    author: Seq<char>,
)
    ensures
        note_user_dates(a, uds, team, author).overall >= a.overall,
        note_user_dates(a, uds, team, author).author >= a.author,
        a.team matches Some(t) ==> note_user_dates(a, uds, team, author).team matches Some(u)
            && u >= t,
        forall|k: int|
            0 <= k < uds.len() ==> note_user_dates(a, uds, team, author).overall >= #[trigger] uds[k].1,
    decreases uds.len(),
{
    if uds.len() > 0 {
        lemma_note_user_dates_monotone(a, uds.drop_last(), team, author);
        assert forall|k: int| 0 <= k < uds.len() implies note_user_dates(a, uds, team, author).overall
            >= #[trigger] uds[k].1 by {
            if k < uds.len() - 1 {
                assert(uds[k] == uds.drop_last()[k]);
            }
        }
    }
}


/// Noting who acted when moves the author's date only for the author's own
/// days: afterwards it is the latest of the date before and the days on which
/// the author acted. The overall date likewise becomes the latest of all;
/// the team's date moves only for the team members' days, never back, and
/// stays as it was when no member acted; the opening day stays as it was.
pub proof fn lemma_note_user_dates_latest(
    a: Activity,
    uds: Seq<(Seq<char>, i32)>,
    team: Seq<String>,
    author: Seq<char>,
    r: Activity,
)
    requires
        r == note_user_dates(a, uds, team, author),
    ensures
        r.author >= a.author,
        forall|k: int| 0 <= k < uds.len() && (#[trigger] uds[k]).0 == author ==> r.author >= uds[k].1,
        r.author == a.author || exists|k: int|
            0 <= k < uds.len() && (#[trigger] uds[k]).0 == author && r.author == uds[k].1,
        r.overall >= a.overall,
        forall|k: int| 0 <= k < uds.len() ==> r.overall >= (#[trigger] uds[k]).1,
        r.overall == a.overall || exists|k: int| 0 <= k < uds.len() && r.overall == (#[trigger] uds[k]).1,
        forall|k: int|
            0 <= k < uds.len() && is_member(team, (#[trigger] uds[k]).0) ==> (r.team matches Some(t)
                && t >= uds[k].1),
        a.team matches Some(t0) ==> (r.team matches Some(t) && t >= t0),
        (forall|k: int| 0 <= k < uds.len() ==> !is_member(team, (#[trigger] uds[k]).0)) ==> r.team
            == a.team,
        r.team matches Some(t) ==> (a.team == Some(t) || (a.team is None && t == first_julian_day())
            || exists|k: int|
            0 <= k < uds.len() && is_member(team, (#[trigger] uds[k]).0) && t == uds[k].1),
        r.opened == a.opened,
    decreases uds.len(),
{
    if uds.len() > 0 {
        let rest = uds.drop_last();
        let b = note_user_dates(a, rest, team, author);
        lemma_note_user_dates_latest(a, rest, team, author, b);
        let (user, d) = uds.last();
        assert(r == note_user_date(b, user, d, team, author));
        assert forall|k: int| 0 <= k < uds.len() - 1 implies #[trigger] uds[k] == rest[k] by {}
        let n = uds.len() - 1;
        assert(uds[n] == (user, d));
        if r.author != a.author && r.author != d {
            assert(r.author == b.author);
            let k = choose|k: int| 0 <= k < rest.len() && (#[trigger] rest[k]).0 == author && b.author
                == rest[k].1;
            assert(uds[k] == rest[k]);
        }
        if r.overall != a.overall && r.overall != d {
            let k = choose|k: int| 0 <= k < rest.len() && b.overall == (#[trigger] rest[k]).1;
            assert(uds[k] == rest[k]);
        }
        if r.team != a.team && r.team != Some(d) && !(a.team is None && r.team == Some(
            first_julian_day() as i32,
        )) {
            assert(r.team == b.team);
            let t = r.team->0;
            let k = choose|k: int|
                0 <= k < rest.len() && is_member(team, (#[trigger] rest[k]).0) && t == rest[k].1;
            assert(uds[k] == rest[k]);
        }
        if forall|k: int| 0 <= k < uds.len() ==> !is_member(team, (#[trigger] uds[k]).0) {
            assert(!is_member(team, uds[n].0));
            assert forall|k: int| 0 <= k < rest.len() implies !is_member(team, (#[trigger] rest[k]).0) by {
                assert(uds[k] == rest[k]);
            }
        }
    }
}


/// Noting a page's days makes the update day count for the latest activity
/// overall and the opening day for the author's, each only if it is later,
/// records the opening day, and leaves the team's date alone.
pub proof fn lemma_opened_activity(a: Activity, opened: i32, updated: i32)
    ensures
        opened_activity(a, opened, updated).overall >= a.overall,
        opened_activity(a, opened, updated).overall >= updated,
        opened_activity(a, opened, updated).overall == a.overall || opened_activity(
            a,
            opened,
            updated,
        ).overall == updated,
        opened_activity(a, opened, updated).author >= a.author,
        opened_activity(a, opened, updated).author >= opened,
        opened_activity(a, opened, updated).author == a.author || opened_activity(
            a,
            opened,
            updated,
        ).author == opened,
        opened_activity(a, opened, updated).team == a.team,
        opened_activity(a, opened, updated).opened == Some(opened),
{
}


/// The comments' user dates pair each comment's author with the day its
/// update time parses to; a failure is the update time of a comment that does
/// not parse.
proof fn lemma_comment_dates_shape(cs: Seq<TimelineComment>)
    ensures
        comment_dates(cs) matches Ok(uds) ==> uds.len() == cs.len() && forall|k: int|
            0 <= k < cs.len() ==> iso8601_julian_day((#[trigger] cs[k]).updated_at@) == Some(
                uds[k].1,
            ) && uds[k].0 == login_or_ghost(cs[k].author_login),
        comment_dates(cs) matches Err(t) ==> iso8601_julian_day(t) is None && exists|k: int|
            0 <= k < cs.len() && (#[trigger] cs[k]).updated_at@ == t,
    decreases cs.len(),
{
    if cs.len() > 0 {
        let rest = cs.drop_last();
        lemma_comment_dates_shape(rest);
        assert forall|k: int| 0 <= k < rest.len() implies #[trigger] rest[k] == cs[k] by {}
        if let Ok(uds) = comment_dates(cs) {
            let prev = comment_dates(rest)->Ok_0;
            let n = cs.len() - 1;
            assert(uds == prev.push((login_or_ghost(cs[n].author_login), parsed_date(cs[n].updated_at@)->Ok_0)));
            assert forall|k: int| 0 <= k < cs.len() implies iso8601_julian_day(
                (#[trigger] cs[k]).updated_at@,
            ) == Some(uds[k].1) && uds[k].0 == login_or_ghost(cs[k].author_login) by {
                if k < n {
                    assert(rest[k] == cs[k]);
                    assert(uds[k] == prev[k]);
                }
            }
        }
        if let Err(t) = comment_dates(cs) {
            if comment_dates(rest) is Err {
                let k = choose|k: int| 0 <= k < rest.len() && (#[trigger] rest[k]).updated_at@ == t;
                assert(cs[k] == rest[k]);
            } else {
                assert(cs[cs.len() - 1].updated_at@ == t);
            }
        }
    }
}

/// Who acted when on a timeline item: for a review or review thread, each
/// comment's author with the day of its update time; else the item's author
/// with its update day, its actor with its day, or its commit's author with
/// the commit's day; no one for other items. A failure names a date that does
/// not parse, and says whether it was a comment's.
pub proof fn lemma_item_user_dates_who(item: TimelineItem)
    ensures
        item.comments matches Some(cs) ==> (item_user_dates(item) matches Ok(uds) ==> uds.len()
            == cs@.len() && forall|k: int|
            0 <= k < cs@.len() ==> uds[k].0 == login_or_ghost((#[trigger] cs@[k]).author_login)
                && iso8601_julian_day(cs@[k].updated_at@) == Some(uds[k].1)),
        item.comments is None && item.updated_at is Some ==> (item_user_dates(item) matches Ok(uds)
            ==> uds == seq![
            (login_or_ghost(item.author_login), iso8601_julian_day(item.updated_at->0@)->0),
        ]),
        item.comments is None && item.updated_at is None && item.created_at is Some ==> (
        item_user_dates(item) matches Ok(uds) ==> uds == seq![
            (login_or_ghost(item.actor_login), iso8601_julian_day(item.created_at->0@)->0),
        ]),
        item.comments is None && item.updated_at is None && item.created_at is None
            && item.commit is Some ==> (item_user_dates(item) matches Ok(uds) ==> uds == seq![
            (
                login_or_ghost(item.commit->0.author_login),
                iso8601_julian_day(item.commit->0.committed_date@)->0,
            ),
        ]),
        item.comments is None && item.updated_at is None && item.created_at is None
            && item.commit is None ==> item_user_dates(item) == Ok::<
            Seq<(Seq<char>, i32)>,
            (Seq<char>, bool),
        >(seq![]),
        item_user_dates(item) matches Err((t, in_comment)) ==> iso8601_julian_day(t) is None
            && in_comment == item.comments is Some,
{
    if let Some(cs) = item.comments {
        lemma_comment_dates_shape(cs@);
    }
}

} // verus!
