//! Meeting notes: the note that a new meeting starts from, and the text that
//! is saved to the team repository once the meeting is over.
use vstd::prelude::*;
use crate::text::{
    chars_eq, chars_of, ends_with, extend_chars, extend_str, free_of, is_ws, join, lemma_join_split,
    lemma_lines_first_line, lemma_lines_free_of_cr, lemma_split_on_nonempty, lines, lines_of,
    split_on, string_of, trim_start, trim_start_pos, views,
};

verus! {

/// The frontmatter fence, `---`.
pub open spec fn fence() -> Seq<char> {
    seq!['-', '-', '-']
}

/// The first line at or after `i` that is a fence.
pub open spec fn closing_fence(ls: Seq<Seq<char>>, i: int) -> Option<int>
    decreases ls.len() - i,
{
    if i < 0 || i >= ls.len() {
        None
    } else if ls[i] == fence() {
        Some(i)
    } else {
        closing_fence(ls, i + 1)
    }
}

/// The content without its frontmatter: if the first line is `---` and a
/// later line is `---` too, the lines after that later line, joined with
/// `\n` and without leading whitespace; otherwise the content unchanged.
pub open spec fn without_frontmatter(content: Seq<char>) -> Seq<char> {
    let ls = lines(content);
    if ls.len() == 0 || ls[0] != fence() {
        content
    } else {
        match closing_fence(ls, 1) {
            Some(i) => trim_start(join(ls.skip(i + 1), seq!['\n'])),
            None => content,
        }
    }
}

/// Removes the `---` delimited frontmatter that HackMD keeps at the top of a
/// note.
#[verifier::loop_isolation(false)]
pub fn strip_frontmatter(content: &str) -> (r: String)
    ensures
        r@ == without_frontmatter(content@),
{
    let s = chars_of(content);
    let ls = lines_of(&s);
    let fence_chars = vec!['-', '-', '-'];
    assert(fence_chars@ =~= fence());
    if ls.len() == 0 {
        return string_of(&s);
    }
    assert(views(ls@)[0] == ls@[0]@);
    if !chars_eq(&ls[0], &fence_chars) {
        return string_of(&s);
    }
    let mut i: usize = 1;
    while i < ls.len()
        invariant
            1 <= i <= ls@.len(),
            views(ls@) == lines(content@),
            fence_chars@ == fence(),
            closing_fence(views(ls@), i as int) == closing_fence(views(ls@), 1),
        decreases ls@.len() - i,
    {
        assert(views(ls@)[i as int] == ls@[i as int]@);
        if chars_eq(&ls[i], &fence_chars) {
            let mut rest: Vec<Vec<char>> = Vec::new();
            let mut k = i + 1;
            while k < ls.len()
                invariant
                    i + 1 <= k <= ls@.len(),
                    views(rest@) == views(ls@).subrange(i + 1, k as int),
                decreases ls@.len() - k,
            {
                let mut line: Vec<char> = Vec::new();
                extend_chars(&mut line, &ls[k]);
                let ghost prev = views(rest@);
                rest.push(line);
                assert(views(rest@) =~= prev.push(ls@[k as int]@));
                assert(views(ls@).subrange(i + 1, k + 1) =~= views(ls@).subrange(
                    i + 1,
                    k as int,
                ).push(views(ls@)[k as int]));
                k += 1;
            }
            assert(views(ls@).subrange(i + 1, ls@.len() as int) =~= views(ls@).skip(i + 1));
            assert(closing_fence(views(ls@), i as int) == Some(i as int));
            let nl = vec!['\n'];
            assert(nl@ =~= seq!['\n']);
            let joined = crate::text::join_chars(&rest, &nl);
            let start = trim_start_pos(&joined, 0, joined.len());
            assert(joined@.subrange(0, joined@.len() as int) =~= joined@);
            let body = crate::text::copy_range(&joined, start, joined.len());
            return string_of(&body);
        }
        i += 1;
    }
    assert(closing_fence(views(ls@), i as int) is None);
    string_of(&s)
}

/// The text saved for a meeting: the note without frontmatter, ending in a
/// line break.
pub open spec fn saved_note_text(content: Seq<char>) -> Seq<char> {
    let body = without_frontmatter(content);
    if ends_with(body, seq!['\n']) {
        body
    } else {
        body.push('\n')
    }
}

/// The text to save for a meeting's note: without its frontmatter, and with
/// a final line break.
pub fn saved_note(content: &str) -> (r: String)
    ensures
        r@ == saved_note_text(content@),
{
    let body = strip_frontmatter(content);
    let mut v = chars_of(body.as_str());
    if v.len() > 0 && v[v.len() - 1] == '\n' {
        assert(v@.subrange(v@.len() - 1, v@.len() as int) =~= seq!['\n']);
        string_of(&v)
    } else {
        proof {
            if ends_with(v@, seq!['\n']) {
                assert(v@.subrange(v@.len() - 1, v@.len() as int)[0] == v@[v@.len() - 1]);
            }
        }
        v.push('\n');
        string_of(&v)
    }
}

/// The file that a meeting's notes are saved to: `{date}.md`.
pub fn notes_file_name(date: &str) -> (r: String)
    ensures
        r@ == date@ + ".md"@,
{
    let mut v = chars_of(date);
    extend_str(&mut v, ".md");
    string_of(&v)
}

/// The commit that saves a meeting's notes: `Add {date}`.
pub fn notes_commit_message(date: &str) -> (r: String)
    ensures
        r@ == "Add "@ + date@,
{
    let mut v: Vec<char> = Vec::new();
    extend_str(&mut v, "Add ");
    extend_str(&mut v, date);
    string_of(&v)
}

/// The first note at or after `i` whose title is `title`.
pub open spec fn note_index(titles: Seq<Option<String>>, title: Seq<char>, i: int) -> Option<int>
    decreases titles.len() - i,
{
    if i < 0 || i >= titles.len() {
        None
    } else if titles[i] matches Some(t) && t@ == title {
        Some(i)
    } else {
        note_index(titles, title, i + 1)
    }
}

/// The position of the first note with the given title, among the notes'
/// titles (`None` for a note without one).
pub fn find_note_by_title(titles: &[Option<String>], title: &str) -> (r: Option<usize>)
    ensures
        r matches Some(k) ==> note_index(titles@, title@, 0) == Some(k as int),
        r is None ==> note_index(titles@, title@, 0) is None,
{
    let want = chars_of(title);
    let mut i: usize = 0;
    while i < titles.len()
        invariant
            i <= titles@.len(),
            want@ == title@,
            note_index(titles@, title@, i as int) == note_index(titles@, title@, 0),
        decreases titles@.len() - i,
    {
        if let Some(t) = &titles[i] {
            let tc = chars_of(t.as_str());
            if chars_eq(&tc, &want) {
                assert(note_index(titles@, title@, i as int) == Some(i as int));
                return Some(i);
            }
        }
        i += 1;
    }
    None
}

/// The frontmatter of a new meeting's note.
pub open spec fn new_note_frontmatter() -> Seq<char> {
    "---\nrobots: noindex, nofollow\ntags: meetings\n---\n"@
}

/// The agenda skeleton of a new meeting's note, after its title.
pub open spec fn new_note_agenda() -> Seq<char> {
    "\n\nhttps://meet.jit.si/CargoTeamMeeting\n\nOut:\nAttendees:\n\n## FCP Reminders\n\n## New RFCs\n\n"@
}

/// The note a new meeting starts from.
pub open spec fn new_note_text(title: Seq<char>) -> Seq<char> {
    new_note_frontmatter() + "\n# "@ + title + new_note_agenda()
}

/// The content of the HackMD note created for a new meeting.
pub fn new_meeting_content(title: &str) -> (r: String)
    ensures
        r@ == new_note_text(title@),
{
    let mut v: Vec<char> = Vec::new();
    extend_str(&mut v, "---\nrobots: noindex, nofollow\ntags: meetings\n---\n");
    extend_str(&mut v, "\n# ");
    extend_str(&mut v, title);
    extend_str(
        &mut v,
        "\n\nhttps://meet.jit.si/CargoTeamMeeting\n\nOut:\nAttendees:\n\n## FCP Reminders\n\n## New RFCs\n\n",
    );
    string_of(&v)
}

/// What follows the frontmatter of a new meeting's note.
pub open spec fn new_note_rest(title: Seq<char>) -> Seq<char> {
    "\n# "@ + title + new_note_agenda()
}

proof fn lemma_new_note_lines(title: Seq<char>)
    requires
        free_of(title, '\r'),
    ensures
        lines(new_note_text(title)) == seq![
            fence(),
            "robots: noindex, nofollow"@,
            "tags: meetings"@,
            fence(),
        ] + lines(new_note_rest(title)),
        free_of(new_note_rest(title), '\r'),
{
    reveal_strlit("---\nrobots: noindex, nofollow\ntags: meetings\n---\n");
    reveal_strlit("\n# ");
    reveal_strlit(
        "\n\nhttps://meet.jit.si/CargoTeamMeeting\n\nOut:\nAttendees:\n\n## FCP Reminders\n\n## New RFCs\n\n",
    );
    reveal_strlit("robots: noindex, nofollow");
    reveal_strlit("tags: meetings");
    let a = new_note_agenda();
    let l1 = "robots: noindex, nofollow"@;
    let l2 = "tags: meetings"@;
    let nl = seq!['\n'];
    let r = new_note_rest(title);
    assert(free_of(a, '\r'));
    assert(free_of(l1, '\n') && free_of(l1, '\r'));
    assert(free_of(l2, '\n') && free_of(l2, '\r'));
    assert(free_of(r, '\r'));
    assert(new_note_frontmatter() =~= fence() + nl + l1 + nl + l2 + nl + fence() + nl);
    let whole = new_note_text(title);
    assert(whole =~= fence() + nl + (l1 + nl + (l2 + nl + (fence() + nl + r))));
    lemma_lines_first_line(fence(), l1 + nl + (l2 + nl + (fence() + nl + r)));
    lemma_lines_first_line(l1, l2 + nl + (fence() + nl + r));
    lemma_lines_first_line(l2, fence() + nl + r);
    lemma_lines_first_line(fence(), r);
    assert(lines(whole) =~= seq![fence(), l1, l2, fence()] + lines(r));
}

proof fn lemma_new_note_rest_joined(title: Seq<char>)
    requires
        free_of(new_note_rest(title), '\r'),
    ensures
        trim_start(join(lines(new_note_rest(title)), seq!['\n'])) == "# "@ + title
            + new_note_agenda().drop_last(),
{
    reveal_strlit("\n# ");
    reveal_strlit("# ");
    reveal_strlit(
        "\n\nhttps://meet.jit.si/CargoTeamMeeting\n\nOut:\nAttendees:\n\n## FCP Reminders\n\n## New RFCs\n\n",
    );
    let a = new_note_agenda();
    let r = new_note_rest(title);
    lemma_lines_free_of_cr(r);
    let rb = r.drop_last();
    assert(r.last() == '\n');
    assert(rb.push('\n') =~= r);
    lemma_split_on_nonempty(rb, '\n');
    assert(split_on(r, '\n') == split_on(rb, '\n').push(Seq::empty()));
    assert(lines(r) =~= split_on(rb, '\n'));
    lemma_join_split(rb, '\n');
    let body = rb.drop_first();
    assert(is_ws(rb[0]));
    assert(body =~= "# "@ + title + a.drop_last());
    assert(body[0] == '#');
    assert(trim_start(body) == body);
    assert(trim_start(rb) == body);
}

/// A note created for a new meeting is saved, once the meeting is over,
/// as its title heading and agenda, without the frontmatter, for any title
/// without carriage returns (meeting titles are `Cargo team meeting notes
/// {date}`).
pub proof fn lemma_new_note_saved(title: Seq<char>)
    requires
        free_of(title, '\r'),
    ensures
        saved_note_text(new_note_text(title)) == "# "@ + title + new_note_agenda().drop_last(),
{
    reveal_strlit("robots: noindex, nofollow");
    reveal_strlit("tags: meetings");
    reveal_strlit(
        "\n\nhttps://meet.jit.si/CargoTeamMeeting\n\nOut:\nAttendees:\n\n## FCP Reminders\n\n## New RFCs\n\n",
    );
    lemma_new_note_lines(title);
    lemma_new_note_rest_joined(title);
    let ls = lines(new_note_text(title));
    let l1 = "robots: noindex, nofollow"@;
    let l2 = "tags: meetings"@;
    assert(ls[0] == fence());
    assert(ls[1] == l1 && l1.len() != 3);
    assert(ls[2] == l2 && l2.len() != 3);
    assert(ls[3] == fence());
    assert(closing_fence(ls, 3) == Some(3int));
    assert(closing_fence(ls, 2) == Some(3int));
    assert(closing_fence(ls, 1) == Some(3int));
    assert(ls.skip(4) =~= lines(new_note_rest(title)));
    let body = "# "@ + title + new_note_agenda().drop_last();
    assert(without_frontmatter(new_note_text(title)) == body);
    let a = new_note_agenda();
    assert(body.last() == a[a.len() - 2]);
    assert(body.subrange(body.len() - 1, body.len() as int) =~= seq!['\n']);
}

} // verus!
