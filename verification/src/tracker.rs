//! The Cargo status tracker: a GitHub project board whose items follow the
//! team's FCPs and nominated issues. This module holds the board's data as
//! plain values and decides what to change on it.
use vstd::prelude::*;
use crate::text::{
    chars_eq, chars_eq_str, chars_of, copy_range, extend_chars, extend_str, find, find_chars,
    join, lemma_find_from, string_of, trim, trim_chars,
};
use crate::sorting::{sort_words, sorted};

verus! {

/// One value of a field on a board item, as the project's GraphQL API
/// returns it: the field's name and the value's text, option name or date.
#[derive(Clone, Debug)]
pub struct FieldValue {
    pub field_name: Option<String>,
    pub text: Option<String>,
    pub name: Option<String>,
    pub date: Option<String>,
}

/// What a board item tracks: a draft issue (no number or repository), or an
/// issue or PR of a repository (`owner/name`).
#[derive(Clone, Debug)]
pub struct ItemContent {
    pub id: Option<String>,
    pub number: Option<u64>,
    pub repository: Option<String>,
}

/// An item on the board.
#[derive(Clone, Debug)]
pub struct ProjectItem {
    pub id: String,
    pub field_values: Vec<FieldValue>,
    pub content: ItemContent,
}

/// An FCP as rfcbot reports it.
#[derive(Clone, Debug)]
pub struct Fcp {
    /// The issue or PR under FCP, and its repository (`owner/name`).
    pub number: u64,
    pub repository: String,
    pub labels: Vec<String>,
    /// `merge`, `close` or `postpone`.
    pub disposition: String,
    pub has_concerns: bool,
    /// Each team member asked to sign off, and whether they have checked
    /// their box.
    pub reviews: Vec<(String, bool)>,
    /// When the FCP was proposed (ISO 8601).
    pub created_at: String,
}

/// A field of the board: its name, ID, and for a single select field its
/// options (name, ID).
#[derive(Clone, Debug)]
pub struct FieldInfo {
    pub name: String,
    pub id: String,
    pub options: Vec<(String, String)>,
}

/// What the tracker knows of the board and the team.
pub struct Tracker {
    pub items: Vec<ProjectItem>,
    pub team_members: Vec<String>,
    pub rfcbot: Vec<Fcp>,
    pub fields: Vec<FieldInfo>,
}

/// Which part of a field value to compare.
#[derive(Clone, Copy, Debug, PartialEq, Eq, Structural)]
pub enum FieldKind {
    Text,
    Name,
    Date,
}

/// `o` holds a string that spells `t`.
pub open spec fn holds(o: Option<String>, t: Seq<char>) -> bool {
    o matches Some(v) && v@ == t
}

fn holds_exec(o: &Option<String>, t: &str) -> (r: bool)
    ensures
        r == holds(*o, t@),
{
    match o {
        Some(v) => {
            let a = chars_of(v.as_str());
            chars_eq_str(&a, t)
        },
        None => false,
    }
}

fn same_text(a: &str, b: &str) -> (r: bool)
    ensures
        r == (a@ == b@),
{
    let x = chars_of(a);
    chars_eq_str(&x, b)
}

// ---------------------------------------------------------------------------
// Values already on the board
// ---------------------------------------------------------------------------

/// The first item at or after `i` with the given ID.
pub open spec fn item_index(items: Seq<ProjectItem>, id: Seq<char>, i: int) -> Option<int>
    decreases items.len() - i,
{
    if i < 0 || i >= items.len() {
        None
    } else if items[i].id@ == id {
        Some(i)
    } else {
        item_index(items, id, i + 1)
    }
}

/// The first value at or after `i` that belongs to the named field.
pub open spec fn value_index(values: Seq<FieldValue>, field: Seq<char>, i: int) -> Option<int>
    decreases values.len() - i,
{
    if i < 0 || i >= values.len() {
        None
    } else if holds(values[i].field_name, field) {
        Some(i)
    } else {
        value_index(values, field, i + 1)
    }
}

/// The part of a field value that `kind` names.
pub open spec fn kind_value(v: FieldValue, kind: FieldKind) -> Option<String> {
    match kind {
        FieldKind::Text => v.text,
        FieldKind::Name => v.name,
        FieldKind::Date => v.date,
    }
}

/// The item's field already has the value: the first item with that ID has a
/// value for the field whose `kind` part is `new_value`, or it has no value
/// for a text field and `new_value` is empty (GitHub's unset text).
pub open spec fn already_set(
    items: Seq<ProjectItem>,
    item_id: Seq<char>,
    field: Seq<char>,
    kind: FieldKind,
    new_value: Seq<char>,
) -> bool {
    match item_index(items, item_id, 0) {
        None => false,
        Some(i) => match value_index(items[i].field_values@, field, 0) {
            Some(j) => holds(kind_value(items[i].field_values@[j], kind), new_value),
            None => kind == FieldKind::Text && new_value.len() == 0,
        },
    }
}

impl Tracker {
    /// Whether the given field of the item is already set to the value.
    #[verifier::loop_isolation(false)]
    pub fn value_already_set(
        &self,
        item_id: &str,
        field_name: &str,
        field_kind: FieldKind,
        new_value: &str,
    ) -> (r: bool)
        ensures
            r == already_set(self.items@, item_id@, field_name@, field_kind, new_value@),
    {
        let items = &self.items;
        let mut i: usize = 0;
        while i < items.len()
            invariant
                i <= items@.len(),
                item_index(items@, item_id@, i as int) == item_index(items@, item_id@, 0),
            decreases items@.len() - i,
        {
            if same_text(items[i].id.as_str(), item_id) {
                assert(item_index(items@, item_id@, i as int) == Some(i as int));
                let values = &items[i].field_values;
                let mut j: usize = 0;
                while j < values.len()
                    invariant
                        j <= values@.len(),
                        value_index(values@, field_name@, j as int) == value_index(
                            values@,
                            field_name@,
                            0,
                        ),
                    decreases values@.len() - j,
                {
                    if holds_exec(&values[j].field_name, field_name) {
                        assert(value_index(values@, field_name@, j as int) == Some(j as int));
                        let part = match field_kind {
                            FieldKind::Text => &values[j].text,
                            FieldKind::Name => &values[j].name,
                            FieldKind::Date => &values[j].date,
                        };
                        return holds_exec(part, new_value);
                    }
                    j += 1;
                }
                assert(value_index(values@, field_name@, j as int) is None);
                let empty = new_value.is_empty();
                return field_kind == FieldKind::Text && empty;
            }
            i += 1;
        }
        assert(item_index(items@, item_id@, i as int) is None);
        false
    }
}

// ---------------------------------------------------------------------------
// Field and option IDs
// ---------------------------------------------------------------------------

/// The last field with the given name (a later field of the same name
/// replaces an earlier one, as in a map built in order).
pub open spec fn field_index(fields: Seq<FieldInfo>, name: Seq<char>) -> Option<int>
    decreases fields.len(),
{
    if fields.len() == 0 {
        None
    } else if fields.last().name@ == name {
        Some(fields.len() - 1)
    } else {
        field_index(fields.drop_last(), name)
    }
}

/// The last option with the given name.
pub open spec fn option_index(options: Seq<(String, String)>, name: Seq<char>) -> Option<int>
    decreases options.len(),
{
    if options.len() == 0 {
        None
    } else if options.last().0@ == name {
        Some(options.len() - 1)
    } else {
        option_index(options.drop_last(), name)
    }
}

pub proof fn lemma_field_index_bound(fields: Seq<FieldInfo>, name: Seq<char>)
    ensures
        field_index(fields, name) matches Some(k) ==> 0 <= k < fields.len(),
    decreases fields.len(),
{
    if fields.len() > 0 {
        lemma_field_index_bound(fields.drop_last(), name);
    }
}

impl Tracker {
    /// Where the field with the given name is in `fields`.
    #[verifier::loop_isolation(false)]
    pub fn field_position(&self, name: &str) -> (r: Option<usize>)
        ensures
            r matches Some(k) ==> field_index(self.fields@, name@) == Some(k as int),
            r is None ==> field_index(self.fields@, name@) is None,
    {
        let fields = &self.fields;
        let mut k = fields.len();
        assert(fields@.take(k as int) =~= fields@);
        while k > 0
            invariant
                k <= fields@.len(),
                field_index(fields@, name@) == field_index(fields@.take(k as int), name@),
            decreases k,
        {
            assert(fields@.take(k as int).drop_last() =~= fields@.take(k - 1));
            assert(fields@.take(k as int).last() == fields@[k - 1]);
            if same_text(fields[k - 1].name.as_str(), name) {
                assert(field_index(fields@.take(k as int), name@) == Some(k - 1));
                return Some(k - 1);
            }
            k -= 1;
        }
        None
    }

    /// The ID of the field with the given name.
    pub fn field_id(&self, name: &str) -> (r: Option<String>)
        ensures
            r matches Some(id) ==> field_index(self.fields@, name@) matches Some(k) && id@
                == self.fields@[k].id@,
            r is None ==> field_index(self.fields@, name@) is None,
    {
        match self.field_position(name) {
            Some(k) => {
                proof {
                    lemma_field_index_bound(self.fields@, name@);
                }
                let c = chars_of(self.fields[k].id.as_str());
                Some(string_of(&c))
            },
            None => None,
        }
    }

    /// The ID of the option with the given name of the named single select
    /// field.
    #[verifier::loop_isolation(false)]
    pub fn option_id(&self, field: &str, option: &str) -> (r: Option<String>)
        ensures
            r matches Some(id) ==> field_index(self.fields@, field@) matches Some(k)
                && option_index(self.fields@[k].options@, option@) matches Some(o) && id@
                == self.fields@[k].options@[o].1@,
            r is None ==> (field_index(self.fields@, field@) matches Some(k) ==> option_index(
                self.fields@[k].options@,
                option@,
            ) is None),
    {
        let k = match self.field_position(field) {
            Some(k) => k,
            None => return None,
        };
        proof {
            lemma_field_index_bound(self.fields@, field@);
        }
        let options = &self.fields[k].options;
        let mut o = options.len();
        assert(options@.take(o as int) =~= options@);
        while o > 0
            invariant
                o <= options@.len(),
                option_index(options@, option@) == option_index(options@.take(o as int), option@),
            decreases o,
        {
            assert(options@.take(o as int).drop_last() =~= options@.take(o - 1));
            assert(options@.take(o as int).last() == options@[o - 1]);
            if same_text(options[o - 1].0.as_str(), option) {
                assert(option_index(options@.take(o as int), option@) == Some(o - 1));
                let c = chars_of(options[o - 1].1.as_str());
                return Some(string_of(&c));
            }
            o -= 1;
        }
        None
    }
}

// ---------------------------------------------------------------------------
// FCP fields
// ---------------------------------------------------------------------------

/// Why the tracker could not go on.
#[derive(Debug, Clone, PartialEq, Eq)]
pub enum TrackerError {
    /// rfcbot reported a disposition other than merge, close or postpone.
    UnexpectedDisposition(String),
    /// A date that does not parse as ISO 8601; `in_comment` when it was the
    /// date of a review comment.
    BadDate { text: String, in_comment: bool },
}

/// The status option for an FCP: by its disposition, or `FCP blocked` while
/// it has concerns; `None` for an unknown disposition.
pub open spec fn fcp_status_text(disposition: Seq<char>, has_concerns: bool) -> Option<Seq<char>> {
    if disposition != "merge"@ && disposition != "close"@ && disposition != "postpone"@ {
        None
    } else if has_concerns {
        Some("FCP blocked"@)
    } else if disposition == "merge"@ {
        Some("FCP merge"@)
    } else if disposition == "close"@ {
        Some("FCP close"@)
    } else {
        Some("FCP postpone"@)
    }
}

/// Concerns block an FCP whatever its disposition; without concerns its
/// status is `FCP` and the disposition; any other disposition has no status.
pub proof fn lemma_fcp_status_by_disposition(d: Seq<char>)
    ensures
        (d == "merge"@ || d == "close"@ || d == "postpone"@) ==> fcp_status_text(d, true) == Some(
            "FCP blocked"@,
        ) && fcp_status_text(d, false) == Some("FCP "@ + d),
        !(d == "merge"@ || d == "close"@ || d == "postpone"@) ==> fcp_status_text(d, true) is None
            && fcp_status_text(d, false) is None,
{
    reveal_strlit("FCP ");
    reveal_strlit("merge");
    reveal_strlit("close");
    reveal_strlit("postpone");
    reveal_strlit("FCP merge");
    reveal_strlit("FCP close");
    reveal_strlit("FCP postpone");
    assert("FCP merge"@ =~= "FCP "@ + "merge"@);
    assert("FCP close"@ =~= "FCP "@ + "close"@);
    assert("FCP postpone"@ =~= "FCP "@ + "postpone"@);
}

/// The board status for an FCP.
pub fn fcp_status(disposition: &str, has_concerns: bool) -> (r: Result<String, TrackerError>)
    ensures
        r matches Ok(s) ==> fcp_status_text(disposition@, has_concerns) == Some(s@),
        r matches Err(e) ==> fcp_status_text(disposition@, has_concerns) is None && (e
            matches TrackerError::UnexpectedDisposition(d) && d@ == disposition@),
{
    let status = if same_text(disposition, "merge") {
        "FCP merge"
    } else if same_text(disposition, "close") {
        "FCP close"
    } else if same_text(disposition, "postpone") {
        "FCP postpone"
    } else {
        let d = chars_of(disposition);
        return Err(TrackerError::UnexpectedDisposition(string_of(&d)));
    };
    let status = if has_concerns {
        "FCP blocked"
    } else {
        status
    };
    let c = chars_of(status);
    Ok(string_of(&c))
}

/// The logins of those who have not checked their box yet, in order.
pub open spec fn unreviewed(reviews: Seq<(String, bool)>) -> Seq<Seq<char>>
    decreases reviews.len(),
{
    if reviews.len() == 0 {
        seq![]
    } else if !reviews.last().1 {
        unreviewed(reviews.drop_last()).push(reviews.last().0@)
    } else {
        unreviewed(reviews.drop_last())
    }
}

/// The `Waiting on` text of an FCP: the logins of those who have not checked
/// their box yet, sorted and separated by spaces.
pub fn waiting_on(reviews: &[(String, bool)]) -> (r: String)
    ensures
        exists|ws: Seq<Seq<char>>|
            sorted(ws) && ws.to_multiset() == unreviewed(reviews@).to_multiset() && r@ == join(
                ws,
                seq![' '],
            ),
{
    let mut logins: Vec<Vec<char>> = Vec::new();
    assert(reviews@.take(0) =~= Seq::<(String, bool)>::empty());
    for i in 0..reviews.len()
        invariant
            crate::text::views(logins@) == unreviewed(reviews@.take(i as int)),
    {
        assert(reviews@.take(i + 1).drop_last() =~= reviews@.take(i as int));
        if !reviews[i].1 {
            let l = chars_of(reviews[i].0.as_str());
            let ghost prev = crate::text::views(logins@);
            logins.push(l);
            assert(crate::text::views(logins@) =~= prev.push(reviews@[i as int].0@));
        }
    }
    assert(reviews@.take(reviews@.len() as int) =~= reviews@);
    let sorted_logins = sort_words(logins);
    let sep = vec![' '];
    assert(sep@ =~= seq![' ']);
    let joined = crate::text::join_chars(&sorted_logins, &sep);
    string_of(&joined)
}

// ---------------------------------------------------------------------------
// Matching FCPs and board items
// ---------------------------------------------------------------------------

/// The first FCP at or after `i` about the given issue or PR.
pub open spec fn fcp_index(fcps: Seq<Fcp>, repository: Seq<char>, number: u64, i: int) -> Option<
    int,
>
    decreases fcps.len() - i,
{
    if i < 0 || i >= fcps.len() {
        None
    } else if fcps[i].number == number && fcps[i].repository@ == repository {
        Some(i)
    } else {
        fcp_index(fcps, repository, number, i + 1)
    }
}

/// The item tracks the given issue or PR.
pub open spec fn tracks(item: ProjectItem, repository: Seq<char>, number: u64) -> bool {
    holds(item.content.repository, repository) && item.content.number == Some(number)
}

/// The FCP has the `T-cargo` label.
pub open spec fn is_cargo_fcp(fcp: Fcp) -> bool {
    exists|k: int| 0 <= k < fcp.labels@.len() && #[trigger] fcp.labels@[k]@ == "T-cargo"@
}

/// A Cargo FCP that no item on the board tracks.
pub open spec fn fcp_missing(items: Seq<ProjectItem>, fcp: Fcp) -> bool {
    is_cargo_fcp(fcp) && forall|i: int|
        0 <= i < items.len() ==> !tracks(#[trigger] items[i], fcp.repository@, fcp.number)
}

/// The positions below `n` of the Cargo FCPs that no item tracks, in order.
pub open spec fn missing_positions(items: Seq<ProjectItem>, fcps: Seq<Fcp>, n: int) -> Seq<usize>
    decreases n,
{
    if n <= 0 {
        seq![]
    } else if fcp_missing(items, fcps[n - 1]) {
        missing_positions(items, fcps, n - 1).push((n - 1) as usize)
    } else {
        missing_positions(items, fcps, n - 1)
    }
}

/// The issue or PR is nominated: it has one of the nomination labels.
pub open spec fn has_nomination_label(labels: Seq<String>) -> bool {
    exists|k: int|
        0 <= k < labels.len() && (#[trigger] labels[k]@ == "I-nominated-to-discuss"@
            || labels[k]@ == "I-cargo-nominated"@)
}

/// The item's status is `Nominated`, and it is an issue or PR.
pub open spec fn is_nominated_item(item: ProjectItem) -> bool {
    &&& exists|j: int|
        0 <= j < item.field_values@.len() && holds(
            #[trigger] item.field_values@[j].field_name,
            "Status"@,
        ) && holds(item.field_values@[j].name, "Nominated"@)
    &&& item.content.number is Some
}

impl Tracker {
    /// The first FCP about the given issue or PR.
    #[verifier::loop_isolation(false)]
    pub fn fcp_for(&self, repository: &str, number: u64) -> (r: Option<usize>)
        ensures
            r matches Some(k) ==> fcp_index(self.rfcbot@, repository@, number, 0) == Some(
                k as int,
            ),
            r is None ==> fcp_index(self.rfcbot@, repository@, number, 0) is None,
    {
        let fcps = &self.rfcbot;
        let mut i: usize = 0;
        while i < fcps.len()
            invariant
                i <= fcps@.len(),
                fcp_index(fcps@, repository@, number, i as int) == fcp_index(
                    fcps@,
                    repository@,
                    number,
                    0,
                ),
            decreases fcps@.len() - i,
        {
            if fcps[i].number == number && same_text(fcps[i].repository.as_str(), repository) {
                assert(fcp_index(fcps@, repository@, number, i as int) == Some(i as int));
                return Some(i);
            }
            i += 1;
        }
        None
    }

    /// Whether some item tracks the given issue or PR.
    #[verifier::loop_isolation(false)]
    pub fn tracks_issue(&self, repository: &str, number: u64) -> (r: bool)
        ensures
            r == exists|i: int|
                0 <= i < self.items@.len() && tracks(#[trigger] self.items@[i], repository@, number),
    {
        let items = &self.items;
        for i in 0..items.len()
            invariant
                forall|j: int| 0 <= j < i ==> !tracks(#[trigger] items@[j], repository@, number),
        {
            if items[i].content.number == Some(number) && holds_exec(
                &items[i].content.repository,
                repository,
            ) {
                assert(tracks(items@[i as int], repository@, number));
                return true;
            }
        }
        false
    }

    /// The positions of the Cargo FCPs that no board item tracks, in order.
    #[verifier::loop_isolation(false)]
    pub fn missing_fcps(&self) -> (r: Vec<usize>)
        ensures
            r@ == missing_positions(self.items@, self.rfcbot@, self.rfcbot@.len() as int),
    {
        let mut r: Vec<usize> = Vec::new();
        for i in 0..self.rfcbot.len()
            invariant
                r@ == missing_positions(self.items@, self.rfcbot@, i as int),
        {
            let fcp = &self.rfcbot[i];
            let mut cargo = false;
            for k in 0..fcp.labels.len()
                invariant
                    cargo ==> is_cargo_fcp(*fcp),
                    !cargo ==> forall|x: int| 0 <= x < k ==> fcp.labels@[x]@ != "T-cargo"@,
            {
                if !cargo && same_text(fcp.labels[k].as_str(), "T-cargo") {
                    cargo = true;
                }
            }
            if cargo && !self.tracks_issue(fcp.repository.as_str(), fcp.number) {
                r.push(i);
            }
        }
        r
    }

    /// The board items whose status is `Nominated` and that are issues or
    /// PRs, as (item ID, content ID), in board order.
    #[verifier::loop_isolation(false)]
    pub fn nominated_items(&self) -> (r: Vec<(String, String)>)
        ensures
            r@.map_values(|p: (String, String)| (p.0@, p.1@)) == nominated_pairs(self.items@),
    {
        let items = &self.items;
        let mut r: Vec<(String, String)> = Vec::new();
        assert(items@.take(0) =~= Seq::<ProjectItem>::empty());
        assert(r@.map_values(|p: (String, String)| (p.0@, p.1@)) =~= Seq::<
            (Seq<char>, Seq<char>),
        >::empty());
        for i in 0..items.len()
            invariant
                items@ == self.items@,
                r@.map_values(|p: (String, String)| (p.0@, p.1@)) == nominated_pairs(
                    items@.take(i as int),
                ),
        {
            let item = &items[i];
            assert(items@.take(i + 1).drop_last() =~= items@.take(i as int));
            assert(items@.take(i + 1).last() == items@[i as int]);
            let mut nominated = false;
            for j in 0..item.field_values.len()
                invariant
                    nominated ==> exists|y: int|
                        0 <= y < item.field_values@.len() && holds(
                            #[trigger] item.field_values@[y].field_name,
                            "Status"@,
                        ) && holds(item.field_values@[y].name, "Nominated"@),
                    !nominated ==> forall|y: int|
                        0 <= y < j ==> !(holds(
                            #[trigger] item.field_values@[y].field_name,
                            "Status"@,
                        ) && holds(item.field_values@[y].name, "Nominated"@)),
            {
                let v = &item.field_values[j];
                if !nominated && holds_exec(&v.field_name, "Status") && holds_exec(
                    &v.name,
                    "Nominated",
                ) {
                    nominated = true;
                }
            }
            assert(nominated == (exists|y: int|
                0 <= y < item.field_values@.len() && holds(
                    #[trigger] item.field_values@[y].field_name,
                    "Status"@,
                ) && holds(item.field_values@[y].name, "Nominated"@)));
            if nominated && item.content.number.is_some() {
                if let Some(cid) = &item.content.id {
                    let a = chars_of(item.id.as_str());
                    let b = chars_of(cid.as_str());
                    let ghost prev = r@.map_values(|p: (String, String)| (p.0@, p.1@));
                    r.push((string_of(&a), string_of(&b)));
                    assert(r@.map_values(|p: (String, String)| (p.0@, p.1@)) =~= prev.push(
                        (item.id@, cid@),
                    ));
                }
            }
        }
        assert(items@.take(items@.len() as int) =~= items@);
        r
    }
}

/// The (item ID, content ID) of the nominated items among `items`, in order;
/// items whose content has no ID are left out.
pub open spec fn nominated_pairs(items: Seq<ProjectItem>) -> Seq<(Seq<char>, Seq<char>)>
    decreases items.len(),
{
    if items.len() == 0 {
        seq![]
    } else {
        let rest = nominated_pairs(items.drop_last());
        let item = items.last();
        if is_nominated_item(item) && item.content.id is Some {
            rest.push((item.id@, item.content.id->0@))
        } else {
            rest
        }
    }
}

/// Whether an issue or PR with these labels is still nominated.
pub fn still_nominated(labels: &[String]) -> (r: bool)
    ensures
        r == has_nomination_label(labels@),
{
    for k in 0..labels.len()
        invariant
            forall|x: int|
                0 <= x < k ==> !(#[trigger] labels@[x]@ == "I-nominated-to-discuss"@
                    || labels@[x]@ == "I-cargo-nominated"@),
    {
        if same_text(labels[k].as_str(), "I-nominated-to-discuss") || same_text(
            labels[k].as_str(),
            "I-cargo-nominated",
        ) {
            return true;
        }
    }
    false
}

/// The nominated issues and PRs, of those found, that the board does not
/// track yet (a content ID equal to none of the nominated items'), in order.
pub open spec fn unlisted(listed: Seq<(String, String)>, found: Seq<String>) -> Seq<Seq<char>>
    decreases found.len(),
{
    if found.len() == 0 {
        seq![]
    } else if exists|k: int| 0 <= k < listed.len() && #[trigger] listed[k].1@ == found.last()@ {
        unlisted(listed, found.drop_last())
    } else {
        unlisted(listed, found.drop_last()).push(found.last()@)
    }
}

/// The IDs among `found` that no nominated board item has as its content.
#[verifier::loop_isolation(false)]
pub fn unlisted_nominations(nominated: &[(String, String)], found: &[String]) -> (r: Vec<String>)
    ensures
        r@.map_values(|s: String| s@) == unlisted(nominated@, found@),
{
    let mut r: Vec<String> = Vec::new();
    assert(found@.take(0) =~= Seq::<String>::empty());
    assert(r@.map_values(|s: String| s@) =~= Seq::<Seq<char>>::empty());
    for i in 0..found.len()
        invariant
            r@.map_values(|s: String| s@) == unlisted(nominated@, found@.take(i as int)),
    {
        assert(found@.take(i + 1).drop_last() =~= found@.take(i as int));
        assert(found@.take(i + 1).last() == found@[i as int]);
        let mut seen = false;
        for k in 0..nominated.len()
            invariant
                seen ==> exists|x: int|
                    0 <= x < nominated@.len() && #[trigger] nominated@[x].1@ == found@[i as int]@,
                !seen ==> forall|x: int|
                    0 <= x < k ==> #[trigger] nominated@[x].1@ != found@[i as int]@,
        {
            if !seen && same_text(nominated[k].1.as_str(), found[i].as_str()) {
                seen = true;
            }
        }
        if !seen {
            let c = chars_of(found[i].as_str());
            let ghost prev = r@.map_values(|s: String| s@);
            r.push(string_of(&c));
            assert(r@.map_values(|s: String| s@) =~= prev.push(found@[i as int]@));
        }
    }
    assert(found@.take(found@.len() as int) =~= found@);
    r
}

/// The repositories and labels under which issues are nominated for the team.
pub fn nomination_sources() -> (r: Vec<(String, String)>)
    ensures
        r@.len() == 3,
        r@[0].0@ == "cargo"@ && r@[0].1@ == "I-nominated-to-discuss"@,
        r@[1].0@ == "rust"@ && r@[1].1@ == "I-cargo-nominated"@,
        r@[2].0@ == "rfcs"@ && r@[2].1@ == "I-cargo-nominated"@,
{
    let mut r: Vec<(String, String)> = Vec::new();
    r.push((string_of(&chars_of("cargo")), string_of(&chars_of("I-nominated-to-discuss"))));
    r.push((string_of(&chars_of("rust")), string_of(&chars_of("I-cargo-nominated"))));
    r.push((string_of(&chars_of("rfcs")), string_of(&chars_of("I-cargo-nominated"))));
    r
}

/// `owner/name` split at its first `/` (`str::split_once`).
pub open spec fn owner_and_name(repository: Seq<char>) -> Option<(Seq<char>, Seq<char>)> {
    match find(repository, seq!['/']) {
        Some(i) => Some((repository.take(i), repository.skip(i + 1))),
        None => None,
    }
}

/// Splits `owner/name` into owner and name.
pub fn split_owner_repo(repository: &str) -> (r: Option<(String, String)>)
    ensures
        r matches Some((o, n)) ==> owner_and_name(repository@) == Some((o@, n@)),
        r is None ==> owner_and_name(repository@) is None,
{
    let s = chars_of(repository);
    let slash = vec!['/'];
    assert(slash@ =~= seq!['/']);
    match find_chars(&s, &slash) {
        Some(i) => {
            proof {
                lemma_find_from(s@, slash@, 0);
            }
            assert(slash@.len() == 1);
            let n = s.len();
            assert(i + 1 <= n);
            let a = copy_range(&s, 0, i);
            let b = copy_range(&s, i + 1, s.len());
            assert(a@ =~= s@.take(i as int));
            assert(b@ =~= s@.skip(i + 1));
            Some((string_of(&a), string_of(&b)))
        },
        None => None,
    }
}

// ---------------------------------------------------------------------------
// Talking to GitHub
// ---------------------------------------------------------------------------

/// The `Authorization` header value for a GitHub token: `token {trimmed}`.
pub fn github_auth_value(token: &str) -> (r: String)
    ensures
        r@ == "token "@ + trim(token@),
{
    let mut v: Vec<char> = Vec::new();
    extend_str(&mut v, "token ");
    let t = chars_of(token);
    let tt = trim_chars(&t);
    extend_chars(&mut v, &tt);
    string_of(&v)
}

/// The error for a GraphQL reply with errors: their messages, one per line.
pub fn graphql_failure(messages: &[String]) -> (r: String)
    ensures
        r@ == "graphql failed: "@ + join(
            messages@.map_values(|m: String| m@),
            seq!['\n'],
        ),
{
    let mut parts: Vec<Vec<char>> = Vec::new();
    for i in 0..messages.len()
        invariant
            crate::text::views(parts@) == messages@.take(i as int).map_values(|m: String| m@),
    {
        let c = chars_of(messages[i].as_str());
        let ghost prev = crate::text::views(parts@);
        parts.push(c);
        assert(crate::text::views(parts@) =~= prev.push(messages@[i as int]@));
        assert(messages@.take(i + 1).map_values(|m: String| m@) =~= messages@.take(
            i as int,
        ).map_values(|m: String| m@).push(messages@[i as int]@));
    }
    assert(messages@.take(messages@.len() as int) =~= messages@);
    let nl = vec!['\n'];
    assert(nl@ =~= seq!['\n']);
    let joined = crate::text::join_chars(&parts, &nl);
    let mut v: Vec<char> = Vec::new();
    extend_str(&mut v, "graphql failed: ");
    extend_chars(&mut v, &joined);
    string_of(&v)
}


/// The positions below `n` that `missing_positions` lists are exactly those
/// of the FCPs with a `T-cargo` label (anywhere among their labels) about an
/// issue or PR that no board item tracks, in increasing order.
proof fn lemma_missing_positions(items: Seq<ProjectItem>, fcps: Seq<Fcp>, n: int)
    requires
        0 <= n <= fcps.len(),
        fcps.len() <= usize::MAX,
    ensures
        forall|j: int|
            0 <= j < missing_positions(items, fcps, n).len() ==> (#[trigger] missing_positions(
                items,
                fcps,
                n,
            )[j]) < n,
        forall|j: int, l: int|
            0 <= j < l < missing_positions(items, fcps, n).len() ==> missing_positions(
                items,
                fcps,
                n,
            )[j] < missing_positions(items, fcps, n)[l],
        forall|k: int|
            0 <= k < n ==> (missing_positions(items, fcps, n).contains(k as usize) <==> fcp_missing(
                items,
                #[trigger] fcps[k],
            )),
    decreases n,
{
    if n > 0 {
        lemma_missing_positions(items, fcps, n - 1);
        let prev = missing_positions(items, fcps, n - 1);
        let cur = missing_positions(items, fcps, n);
        assert forall|k: int| 0 <= k < n implies (cur.contains(k as usize) <==> fcp_missing(
            items,
            #[trigger] fcps[k],
        )) by {
            if k < n - 1 {
                if cur.contains(k as usize) {
                    let j = choose|j: int| 0 <= j < cur.len() && cur[j] == k as usize;
                    if j < prev.len() {
                        assert(cur[j] == prev[j]);
                    }
                }
                if prev.contains(k as usize) {
                    let j = choose|j: int| 0 <= j < prev.len() && prev[j] == k as usize;
                    assert(cur[j] == prev[j]);
                }
            } else {
                if cur.contains(k as usize) && !fcp_missing(items, fcps[k]) {
                    let j = choose|j: int| 0 <= j < cur.len() && cur[j] == k as usize;
                    assert(prev[j] < n - 1);
                }
                if fcp_missing(items, fcps[k]) {
                    assert(cur[prev.len() as int] == k as usize);
                }
            }
        }
    }
}

/// One of `labels`, at any place, is `name`.
pub open spec fn has_label(labels: Seq<String>, name: Seq<char>) -> bool {
    exists|l: int| 0 <= l < labels.len() && #[trigger] labels[l]@ == name
}

/// Some item of the board holds the issue or PR `number` of `repository`.
pub open spec fn on_board(items: Seq<ProjectItem>, repository: Seq<char>, number: u64) -> bool {
    exists|i: int|
        0 <= i < items.len() && (#[trigger] items[i]).content.number == Some(number) && holds(
            items[i].content.repository,
            repository,
        )
}

/// `missing_fcps` lists exactly the positions of the FCPs that carry the
/// `T-cargo` label, at any place among their labels, and whose issue or PR
/// (the same repository and number) no item of the board holds; each once,
/// in increasing order.
pub proof fn lemma_missing_fcps_are_the_untracked_cargo_fcps(
    items: Seq<ProjectItem>,
    fcps: Seq<Fcp>,
)
    requires
        fcps.len() <= usize::MAX,
    ensures
        forall|j: int, l: int|
            0 <= j < l < missing_positions(items, fcps, fcps.len() as int).len() ==> missing_positions(
                items,
                fcps,
                fcps.len() as int,
            )[j] < missing_positions(items, fcps, fcps.len() as int)[l],
        forall|j: int|
            0 <= j < missing_positions(items, fcps, fcps.len() as int).len() ==> (
            #[trigger] missing_positions(items, fcps, fcps.len() as int)[j]) < fcps.len(),
        forall|k: int|
            0 <= k < fcps.len() ==> (missing_positions(items, fcps, fcps.len() as int).contains(
                k as usize,
            ) <==> (has_label((#[trigger] fcps[k]).labels@, "T-cargo"@) && !on_board(
                items,
                fcps[k].repository@,
                fcps[k].number,
            ))),
{
    lemma_missing_positions(items, fcps, fcps.len() as int);
    assert forall|k: int| 0 <= k < fcps.len() implies (fcp_missing(items, #[trigger] fcps[k]) <==> (
    has_label(fcps[k].labels@, "T-cargo"@) && !on_board(items, fcps[k].repository@, fcps[k].number)))
        by {
        if on_board(items, fcps[k].repository@, fcps[k].number) {
            let i = choose|i: int|
                0 <= i < items.len() && (#[trigger] items[i]).content.number == Some(fcps[k].number)
                    && holds(items[i].content.repository, fcps[k].repository@);
            assert(tracks(items[i], fcps[k].repository@, fcps[k].number));
        }
    }
}


/// One of the item's field values, at any place, sets the `Status` field to
/// `value`.
pub open spec fn has_status(item: ProjectItem, value: Seq<char>) -> bool {
    exists|j: int|
        0 <= j < item.field_values@.len() && holds(
            #[trigger] item.field_values@[j].field_name,
            "Status"@,
        ) && holds(item.field_values@[j].name, value)
}

/// An item that should be listed as nominated: its status is `Nominated`,
/// and it holds an issue or PR whose content has an ID.
pub open spec fn nominee(item: ProjectItem) -> bool {
    item.content.number is Some && item.content.id is Some && has_status(item, "Nominated"@)
}

/// `nominated_items` lists, in board order and each once, exactly the items
/// whose status is `Nominated` (in any of their field values) and that hold
/// an issue or PR with a content ID, as (item ID, content ID); the returned
/// positions say which item each pair comes from.
pub proof fn lemma_nominated_pairs(items: Seq<ProjectItem>) -> (idx: Seq<int>)
    ensures
        idx.len() == nominated_pairs(items).len(),
        forall|m: int|
            0 <= m < idx.len() ==> 0 <= #[trigger] idx[m] < items.len() && nominee(items[idx[m]])
                && nominated_pairs(items)[m] == (items[idx[m]].id@, items[idx[m]].content.id->0@),
        forall|m1: int, m2: int| 0 <= m1 < m2 < idx.len() ==> idx[m1] < idx[m2],
        forall|i: int|
            0 <= i < items.len() && nominee(#[trigger] items[i]) ==> exists|m: int|
                0 <= m < idx.len() && #[trigger] idx[m] == i,
    decreases items.len(),
{
    if items.len() == 0 {
        seq![]
    } else {
        let rest = items.drop_last();
        let idx0 = lemma_nominated_pairs(rest);
        let n = items.len() - 1;
        let item = items[n];
        assert(items.last() == item);
        assert forall|i: int| 0 <= i < rest.len() implies #[trigger] rest[i] == items[i] by {}
        let prev = nominated_pairs(rest);
        let all = nominated_pairs(items);
        assert(is_nominated_item(item) && item.content.id is Some <==> nominee(item));
        if nominee(item) {
            let idx = idx0.push(n);
            assert(all == prev.push((item.id@, item.content.id->0@)));
            assert forall|m: int| 0 <= m < idx.len() implies 0 <= #[trigger] idx[m] < items.len()
                && nominee(items[idx[m]]) && all[m] == (
                items[idx[m]].id@,
                items[idx[m]].content.id->0@,
            ) by {
                if m < idx0.len() {
                    assert(idx[m] == idx0[m]);
                    assert(rest[idx0[m]] == items[idx0[m]]);
                }
            }
            assert forall|i: int| 0 <= i < items.len() && nominee(#[trigger] items[i]) implies exists|
                m: int,
            | 0 <= m < idx.len() && #[trigger] idx[m] == i by {
                if i < n {
                    assert(rest[i] == items[i]);
                    let m = choose|m: int| 0 <= m < idx0.len() && #[trigger] idx0[m] == i;
                    assert(idx[m] == idx0[m]);
                } else {
                    assert(idx[idx0.len() as int] == n);
                }
            }
            idx
        } else {
            assert(all == prev);
            assert forall|m: int| 0 <= m < idx0.len() implies 0 <= #[trigger] idx0[m] < items.len()
                && nominee(items[idx0[m]]) && all[m] == (
                items[idx0[m]].id@,
                items[idx0[m]].content.id->0@,
            ) by {
                assert(rest[idx0[m]] == items[idx0[m]]);
            }
            assert forall|i: int| 0 <= i < items.len() && nominee(#[trigger] items[i]) implies exists|
                m: int,
            | 0 <= m < idx0.len() && #[trigger] idx0[m] == i by {
                assert(i != n);
                assert(rest[i] == items[i]);
            }
            idx0
        }
    }
}

} // verus!
