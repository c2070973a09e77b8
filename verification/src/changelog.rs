//! Cargo's changelog: reading PR references out of `git log`, formatting
//! them as changelog entries, and rolling the `HASH...HEAD` links over to a
//! new release.
use vstd::prelude::*;
use vstd::string::StringSliceAdditionalSpecFns;
use crate::text::{
    blank, chars_of, copy_range, decimal, decimal_chars, extend_chars, extend_str, is_blank,
    chars_eq, contains, contains_chars, find, find_chars, free_of, lemma_find_from, lines, lines_of,
    occurs_at, occurs_at_exec, starts_with, string_of, trim, trim_chars, trim_end, trim_end_pos,
    views,
};

verus! {

/// Errors in reading a git log or in updating the changelog.
#[derive(Debug, PartialEq, Eq)]
pub enum ChangelogError {
    /// A PR number in the log does not fit in a `u32`; holds its digits.
    PrNumberTooLarge(String),
    /// The changelog does not hold exactly two equal `HASH...HEAD` links.
    HeadLinks,
    /// The changelog has no `### Added` heading.
    MissingAdded,
    /// The changelog does not start with `# Changelog`.
    MissingTitle,
}

/// A PR as the changelog records it: number, URL and description.
pub open spec fn pr_view(pr: (u32, String, String)) -> (u32, Seq<char>, Seq<char>) {
    (pr.0, pr.1@, pr.2@)
}

pub open spec fn pr_views(prs: Seq<(u32, String, String)>) -> Seq<(u32, Seq<char>, Seq<char>)> {
    prs.map_values(|pr: (u32, String, String)| pr_view(pr))
}

// ---------------------------------------------------------------------------
// Formatting PR links
// ---------------------------------------------------------------------------

/// The link to PR `n` of rust-lang/cargo.
pub open spec fn pr_url(n: nat) -> Seq<char> {
    "https://github.com/rust-lang/cargo/pull/"@ + decimal(n)
}

/// One changelog entry: `- {description} \n  [#{number}]({url})\n`.
pub open spec fn pr_link(pr: (u32, Seq<char>, Seq<char>)) -> Seq<char> {
    "- "@ + pr.2 + " \n  [#"@ + decimal(pr.0 as nat) + "]("@ + pr.1 + ")\n"@
}

/// The entries of all PRs, in order.
pub open spec fn pr_links(prs: Seq<(u32, Seq<char>, Seq<char>)>) -> Seq<char>
    decreases prs.len(),
{
    if prs.len() == 0 {
        seq![]
    } else {
        pr_links(prs.drop_last()) + pr_link(prs.last())
    }
}

fn push_pr_link(out: &mut Vec<char>, pr: &(u32, String, String))
    ensures
        final(out)@ == old(out)@ + pr_link(pr_view(*pr)),
{
    extend_str(out, "- ");
    extend_str(out, pr.2.as_str());
    extend_str(out, " \n  [#");
    let n = decimal_chars(pr.0 as u64);
    extend_chars(out, &n);
    extend_str(out, "](");
    extend_str(out, pr.1.as_str());
    extend_str(out, ")\n");
    assert(final(out)@ =~= old(out)@ + pr_link(pr_view(*pr)));
}

/// Formats PRs as changelog entries, one after another.
pub fn format_pr_links(prs: &[(u32, String, String)]) -> (r: String)
    ensures
        r@ == pr_links(pr_views(prs@)),
{
    let mut out: Vec<char> = Vec::new();
    for i in 0..prs.len()
        invariant
            out@ == pr_links(pr_views(prs@).take(i as int)),
    {
        push_pr_link(&mut out, &prs[i]);
        assert(pr_views(prs@).take(i + 1).drop_last() =~= pr_views(prs@).take(i as int));
    }
    assert(pr_views(prs@).take(prs@.len() as int) =~= pr_views(prs@));
    string_of(&out)
}

// ---------------------------------------------------------------------------
// Reading PRs out of `git log --first-parent`
// ---------------------------------------------------------------------------

/// `commit ` as it starts each commit in `git log` output.
pub open spec fn commit_word() -> Seq<char> {
    seq!['c', 'o', 'm', 'm', 'i', 't', ' ']
}

/// A commit header starts at `p`: `commit ` at the start of a line.
pub open spec fn commit_header_at(s: Seq<char>, p: int) -> bool {
    occurs_at(s, commit_word(), p) && (p == 0 || s[p - 1] == '\n')
}

/// The pieces of `s[start..]` between commit headers, scanning from `i`
/// (splitting at the regex `(?m)^commit `).
pub open spec fn commit_chunks_from(s: Seq<char>, start: int, i: int) -> Seq<Seq<char>>
    decreases s.len() - i,
{
    if i >= s.len() {
        seq![s.subrange(start, s.len() as int)]
    } else if commit_header_at(s, i) {
        seq![s.subrange(start, i)] + commit_chunks_from(s, i + 7, i + 7)
    } else {
        commit_chunks_from(s, start, i + 1)
    }
}

/// The pieces of a log between commit headers.
pub open spec fn commit_chunks(s: Seq<char>) -> Seq<Seq<char>> {
    commit_chunks_from(s, 0, 0)
}

fn commit_chunks_exec(s: &[char]) -> (r: Vec<Vec<char>>)
    ensures
        views(r@) == commit_chunks(s@),
{
    let word = vec!['c', 'o', 'm', 'm', 'i', 't', ' '];
    assert(word@ =~= commit_word());
    let mut acc: Vec<Vec<char>> = Vec::new();
    let mut start: usize = 0;
    let mut i: usize = 0;
    while i < s.len()
        invariant
            start <= i <= s@.len(),
            word@ == commit_word(),
            views(acc@) + commit_chunks_from(s@, start as int, i as int) == commit_chunks(s@),
        decreases s@.len() - i,
    {
        let at_line_start = i == 0 || s[i - 1] == '\n';
        if at_line_start && occurs_at_exec(s, &word, i) {
            let piece = copy_range(s, start, i);
            let ghost prev = views(acc@);
            acc.push(piece);
            assert(views(acc@) =~= prev.push(s@.subrange(start as int, i as int)));
            assert(views(acc@) + commit_chunks_from(s@, (i + 7) as int, (i + 7) as int) =~= prev
                + commit_chunks_from(s@, start as int, i as int));
            i = i + 7;
            start = i;
        } else {
            i = i + 1;
        }
    }
    let last = copy_range(s, start, s.len());
    let ghost prev = views(acc@);
    acc.push(last);
    assert(views(acc@) =~= prev.push(s@.subrange(start as int, s@.len() as int)));
    assert(views(acc@) =~= commit_chunks(s@));
    acc
}

/// A line of a commit's message: indented and not blank.
pub open spec fn is_message_line(l: Seq<char>) -> bool {
    !is_blank(l) && l.len() > 0 && l[0] == ' '
}

/// The trimmed message lines among `ls`, in order.
pub open spec fn message_lines(ls: Seq<Seq<char>>) -> Seq<Seq<char>>
    decreases ls.len(),
{
    if ls.len() == 0 {
        seq![]
    } else if is_message_line(ls.last()) {
        message_lines(ls.drop_last()).push(trim(ls.last()))
    } else {
        message_lines(ls.drop_last())
    }
}

fn message_lines_exec(chunk: &[char]) -> (r: Vec<Vec<char>>)
    ensures
        views(r@) == message_lines(lines(chunk@)),
{
    let ls = lines_of(chunk);
    let mut r: Vec<Vec<char>> = Vec::new();
    for i in 0..ls.len()
        invariant
            views(ls@) == lines(chunk@),
            views(r@) == message_lines(views(ls@).take(i as int)),
    {
        assert(views(ls@)[i as int] == ls@[i as int]@);
        assert(views(ls@).take(i + 1).drop_last() =~= views(ls@).take(i as int));
        let l = &ls[i];
        if l.len() > 0 && l[0] == ' ' && !blank(l) {
            let t = trim_chars(l);
            let ghost prev = views(r@);
            r.push(t);
            assert(views(r@) =~= prev.push(trim(l@)));
        }
    }
    assert(views(ls@).take(ls@.len() as int) =~= views(ls@));
    r
}

pub open spec fn is_digit(c: char) -> bool {
    '0' <= c <= '9'
}

/// The end of the run of ASCII digits in `s` that starts at `i`.
pub open spec fn digits_end(s: Seq<char>, i: int) -> int
    decreases s.len() - i,
{
    if 0 <= i < s.len() && is_digit(s[i]) {
        digits_end(s, i + 1)
    } else {
        i
    }
}

pub proof fn lemma_digits_end(s: Seq<char>, i: int)
    requires
        0 <= i <= s.len(),
    ensures
        i <= digits_end(s, i) <= s.len(),
        forall|k: int| i <= k < digits_end(s, i) ==> is_digit(#[trigger] s[k]),
        digits_end(s, i) < s.len() ==> !is_digit(s[digits_end(s, i)]),
    decreases s.len() - i,
{
    if i < s.len() && is_digit(s[i]) {
        lemma_digits_end(s, i + 1);
    }
}

fn digits_end_exec(s: &[char], i: usize) -> (r: usize)
    requires
        i <= s@.len(),
    ensures
        r as int == digits_end(s@, i as int),
{
    let mut j = i;
    while j < s.len() && '0' <= s[j] && s[j] <= '9'
        invariant
            i <= j <= s@.len(),
            digits_end(s@, j as int) == digits_end(s@, i as int),
        decreases s@.len() - j,
    {
        j += 1;
    }
    j
}

pub open spec fn auto_merge_word() -> Seq<char> {
    seq!['A', 'u', 't', 'o', ' ', 'm', 'e', 'r', 'g', 'e', ' ', 'o', 'f', ' ', '#']
}

pub open spec fn merge_pr_word() -> Seq<char> {
    seq![
        'M', 'e', 'r', 'g', 'e', ' ', 'p', 'u', 'l', 'l', ' ', 'r', 'e', 'q', 'u', 'e', 's', 't',
        ' ', '#',
    ]
}

pub open spec fn squash_word() -> Seq<char> {
    seq!['(', '#']
}

/// The digits of `Auto merge of #N` or `Merge pull request #N` starting at `p`.
pub open spec fn merge_ref_at(s: Seq<char>, p: int) -> Option<(int, int)> {
    if occurs_at(s, auto_merge_word(), p) && digits_end(s, p + 15) > p + 15 {
        Some((p + 15, digits_end(s, p + 15)))
    } else if occurs_at(s, merge_pr_word(), p) && digits_end(s, p + 20) > p + 20 {
        Some((p + 20, digits_end(s, p + 20)))
    } else {
        None
    }
}

/// The digits of `(#N)` starting at `p` and ending the line.
pub open spec fn squash_ref_at(s: Seq<char>, p: int) -> Option<(int, int)> {
    if occurs_at(s, squash_word(), p) && digits_end(s, p + 2) > p + 2 && digits_end(s, p + 2) + 1
        == s.len() && s[s.len() - 1] == ')' {
        Some((p + 2, digits_end(s, p + 2)))
    } else {
        None
    }
}

/// The leftmost PR reference in `s` at or after `p`, as the regex
/// `(?:Auto merge of|Merge pull request) #([0-9]+)|\(#([0-9]+)\)$` finds it:
/// whether it is a merge (first group) or a squash (second group), and the
/// range of its digits.
pub open spec fn pr_ref_from(s: Seq<char>, p: int) -> Option<(bool, int, int)>
    decreases s.len() + 1 - p,
{
    if p < 0 || p > s.len() {
        None
    } else {
        match merge_ref_at(s, p) {
            Some((a, b)) => Some((true, a, b)),
            None => match squash_ref_at(s, p) {
                Some((a, b)) => Some((false, a, b)),
                None => pr_ref_from(s, p + 1),
            },
        }
    }
}

pub proof fn lemma_pr_ref_from(s: Seq<char>, p: int)
    requires
        0 <= p,
    ensures
        pr_ref_from(s, p) matches Some((m, a, b)) ==> {
            &&& (if m {
                a >= 15
            } else {
                a >= 2 && occurs_at(s, squash_word(), a - 2)
            })
            &&& p <= a < b <= s.len()
            &&& forall|k: int| a <= k < b ==> is_digit(#[trigger] s[k])
        },
    decreases s.len() + 1 - p,
{
    if p > s.len() {
    } else if merge_ref_at(s, p) is Some {
        if occurs_at(s, auto_merge_word(), p) && digits_end(s, p + 15) > p + 15 {
            lemma_digits_end(s, p + 15);
        } else {
            lemma_digits_end(s, p + 20);
        }
    } else if squash_ref_at(s, p) is Some {
        lemma_digits_end(s, p + 2);
    } else {
        lemma_pr_ref_from(s, p + 1);
    }
}

fn merge_ref_at_exec(s: &[char], p: usize) -> (r: Option<(usize, usize)>)
    requires
        p <= s@.len(),
    ensures
        r matches Some((a, b)) ==> merge_ref_at(s@, p as int) == Some((a as int, b as int)),
        r is None ==> merge_ref_at(s@, p as int) is None,
{
    let auto = vec!['A', 'u', 't', 'o', ' ', 'm', 'e', 'r', 'g', 'e', ' ', 'o', 'f', ' ', '#'];
    let mpr = vec![
        'M', 'e', 'r', 'g', 'e', ' ', 'p', 'u', 'l', 'l', ' ', 'r', 'e', 'q', 'u', 'e', 's', 't',
        ' ', '#',
    ];
    assert(auto@ =~= auto_merge_word());
    assert(mpr@ =~= merge_pr_word());
    assert(auto@.len() == 15);
    assert(mpr@.len() == 20);
    let n = s.len();
    if occurs_at_exec(s, &auto, p) {
        assert(p + 15 <= n);
        let e = digits_end_exec(s, p + 15);
        if e > p + 15 {
            return Some((p + 15, e));
        }
    }
    if occurs_at_exec(s, &mpr, p) {
        assert(p + 20 <= n);
        let e = digits_end_exec(s, p + 20);
        if e > p + 20 {
            return Some((p + 20, e));
        }
    }
    None
}

fn squash_ref_at_exec(s: &[char], p: usize) -> (r: Option<(usize, usize)>)
    requires
        p <= s@.len(),
    ensures
        r matches Some((a, b)) ==> squash_ref_at(s@, p as int) == Some((a as int, b as int)),
        r is None ==> squash_ref_at(s@, p as int) is None,
{
    let sq = vec!['(', '#'];
    assert(sq@ =~= squash_word());
    assert(sq@.len() == 2);
    let n = s.len();
    if occurs_at_exec(s, &sq, p) {
        assert(p + 2 <= n);
        let e = digits_end_exec(s, p + 2);
        proof {
            lemma_digits_end(s@, p + 2);
        }
        if e > p + 2 && e < s.len() && e == s.len() - 1 && s[s.len() - 1] == ')' {
            return Some((p + 2, e));
        }
    }
    None
}

fn pr_ref_exec(s: &[char]) -> (r: Option<(bool, usize, usize)>)
    ensures
        r matches Some((m, a, b)) ==> pr_ref_from(s@, 0) == Some((m, a as int, b as int)),
        r is None ==> pr_ref_from(s@, 0) is None,
{
    let mut p: usize = 0;
    while p <= s.len()
        invariant
            pr_ref_from(s@, p as int) == pr_ref_from(s@, 0),
        decreases s@.len() + 1 - p,
    {
        if let Some((a, b)) = merge_ref_at_exec(s, p) {
            return Some((true, a, b));
        }
        if let Some((a, b)) = squash_ref_at_exec(s, p) {
            return Some((false, a, b));
        }
        if p == s.len() {
            assert(pr_ref_from(s@, (p + 1) as int) is None);
            return None;
        }
        p += 1;
    }
    None
}

/// The value of a string of decimal digits.
pub open spec fn digits_value(s: Seq<char>) -> nat
    decreases s.len(),
{
    if s.len() == 0 {
        0
    } else {
        digits_value(s.drop_last()) * 10 + ((s.last() as u32) - ('0' as u32)) as nat
    }
}

/// Parses ASCII digits as a `u32` (`str::parse::<u32>`); `None` on overflow.
fn parse_u32_digits(s: &[char]) -> (r: Option<u32>)
    requires
        s@.len() > 0,
        forall|k: int| 0 <= k < s@.len() ==> is_digit(#[trigger] s@[k]),
    ensures
        r matches Some(n) ==> n as nat == digits_value(s@),
        r is None <==> digits_value(s@) > u32::MAX,
{
    let mut v: u64 = 0;
    assert(s@.take(0) =~= Seq::<char>::empty());
    for i in 0..s.len()
        invariant
            forall|k: int| 0 <= k < s@.len() ==> is_digit(#[trigger] s@[k]),
            v as nat == digits_value(s@.take(i as int)),
            v <= u32::MAX,
    {
        assert(s@.take(i + 1).drop_last() =~= s@.take(i as int));
        assert(is_digit(s@[i as int]));
        let d = (s[i] as u32 - '0' as u32) as u64;
        let w = v * 10 + d;
        if w > u32::MAX as u64 {
            proof {
                lemma_digits_value_monotone(s@, i + 1);
            }
            return None;
        }
        v = w;
    }
    assert(s@.take(s@.len() as int) =~= s@);
    Some(v as u32)
}

/// Longer digit strings with the same prefix are at least as large.
pub proof fn lemma_digits_value_monotone(s: Seq<char>, i: int)
    requires
        0 <= i <= s.len(),
        forall|k: int| 0 <= k < s.len() ==> is_digit(#[trigger] s[k]),
    ensures
        digits_value(s.take(i)) <= digits_value(s),
    decreases s.len() - i,
{
    if i < s.len() {
        lemma_digits_value_monotone(s, i + 1);
        assert(s.take(i + 1).drop_last() =~= s.take(i));
        assert(is_digit(s[i]));
    } else {
        assert(s.take(i) =~= s);
    }
}

/// What one commit of the log contributes: nothing (no message line, or no PR
/// reference in its first message line), a PR, or the digits of a PR number
/// too large for a `u32`.
pub open spec fn commit_entry(chunk: Seq<char>) -> Option<
    Result<(u32, Seq<char>, Seq<char>), Seq<char>>,
> {
    let ls = message_lines(lines(chunk));
    if ls.len() == 0 {
        None
    } else {
        let first = ls[0];
        match pr_ref_from(first, 0) {
            None => None,
            Some((is_merge, a, b)) => {
                let digits = first.subrange(a, b);
                let description = if is_merge {
                    if ls.len() > 1 {
                        ls[1]
                    } else {
                        seq![]
                    }
                } else {
                    trim_end(first.take(a - 2))
                };
                if digits_value(digits) > u32::MAX {
                    Some(Err(digits))
                } else {
                    let n = digits_value(digits);
                    Some(Ok((n as u32, pr_url(n), description)))
                }
            },
        }
    }
}

/// A commit's entry depends on its first two message lines alone: two
/// commits that agree on them, whatever message lines follow, give the same
/// entry.
pub proof fn lemma_commit_entry_reads_two_lines(c1: Seq<char>, c2: Seq<char>)
    requires
        message_lines(lines(c1)).len() >= 2,
        message_lines(lines(c2)).len() >= 2,
        message_lines(lines(c1))[0] == message_lines(lines(c2))[0],
        message_lines(lines(c1))[1] == message_lines(lines(c2))[1],
    ensures
        commit_entry(c1) == commit_entry(c2),
{
}

/// A commit contributes an entry exactly when the first of its message lines
/// holds a PR reference. A merge commit (`Auto merge of #N` or `Merge pull
/// request #N` in that line) is described by its second message line, or by
/// nothing if it has one line only; a squash commit (`... (#N)`) by the text
/// of its first line before the reference. The entry's number is the value of
/// the reference's digits, or the digits are the error when that value does
/// not fit in a `u32`; the URL is that of PR `N`.
pub proof fn lemma_commit_description(c: Seq<char>)
    requires
        message_lines(lines(c)).len() >= 1,
    ensures
        commit_entry(c) is None <==> pr_ref_from(message_lines(lines(c))[0], 0) is None,
        commit_entry(c) matches Some(Err(digits)) ==> (pr_ref_from(message_lines(lines(c))[0], 0)
            matches Some((_, a, b)) && digits == message_lines(lines(c))[0].subrange(a, b)
            && digits_value(digits) > u32::MAX),
        commit_entry(c) matches Some(Ok((n, url, d))) ==> {
            let ls = message_lines(lines(c));
            &&& url == pr_url(n as nat)
            &&& pr_ref_from(ls[0], 0) matches Some((is_merge, a, b)) && n as nat == digits_value(
                ls[0].subrange(a, b),
            ) && if is_merge {
                d == (if ls.len() >= 2 {
                    ls[1]
                } else {
                    Seq::<char>::empty()
                })
            } else {
                d == trim_end(ls[0].take(a - 2))
            }
        },
{
}

/// The PRs of the non-blank commits in `chunks`, in order, or the digits of
/// the first PR number that does not fit in a `u32`.
pub open spec fn entries_of(chunks: Seq<Seq<char>>) -> Result<
    Seq<(u32, Seq<char>, Seq<char>)>,
    Seq<char>,
>
    decreases chunks.len(),
{
    if chunks.len() == 0 {
        Ok(seq![])
    } else {
        match entries_of(chunks.drop_last()) {
            Err(e) => Err(e),
            Ok(prev) => if is_blank(chunks.last()) {
                Ok(prev)
            } else {
                match commit_entry(chunks.last()) {
                    None => Ok(prev),
                    Some(Err(e)) => Err(e),
                    Some(Ok(pr)) => Ok(prev.push(pr)),
                }
            },
        }
    }
}

/// The PRs that `git log --first-parent` output records, in order.
pub open spec fn log_prs(log: Seq<char>) -> Result<Seq<(u32, Seq<char>, Seq<char>)>, Seq<char>> {
    entries_of(commit_chunks(log))
}

fn pr_url_exec(n: u32) -> (r: Vec<char>)
    ensures
        r@ == pr_url(n as nat),
{
    let mut r: Vec<char> = Vec::new();
    extend_str(&mut r, "https://github.com/rust-lang/cargo/pull/");
    let d = decimal_chars(n as u64);
    extend_chars(&mut r, &d);
    r
}

fn commit_entry_exec(chunk: &[char]) -> (r: Option<Result<(u32, String, String), Vec<char>>>)
    ensures
        r matches Some(Ok(pr)) ==> commit_entry(chunk@) == Some(
            Ok::<(u32, Seq<char>, Seq<char>), Seq<char>>(pr_view(pr)),
        ),
        r matches Some(Err(d)) ==> commit_entry(chunk@) == Some(
            Err::<(u32, Seq<char>, Seq<char>), Seq<char>>(d@),
        ),
        r is None ==> commit_entry(chunk@) is None,
{
    let ls = message_lines_exec(chunk);
    if ls.len() == 0 {
        return None;
    }
    assert(views(ls@)[0] == ls@[0]@);
    let first = &ls[0];
    match pr_ref_exec(first) {
        None => None,
        Some((is_merge, a, b)) => {
            proof {
                lemma_pr_ref_from(first@, 0);
            }
            let digits = copy_range(first, a, b);
            let description = if is_merge {
                if ls.len() > 1 {
                    assert(views(ls@)[1] == ls@[1]@);
                    copy_range(&ls[1], 0, ls[1].len())
                } else {
                    Vec::new()
                }
            } else {
                let e = trim_end_pos(first, 0, a - 2);
                copy_range(first, 0, e)
            };
            proof {
                if is_merge && ls.len() > 1 {
                    assert(ls@[1]@.subrange(0, ls@[1]@.len() as int) =~= ls@[1]@);
                }
                if !is_merge {
                    assert(first@.subrange(0, a - 2) =~= first@.take(a - 2));
                }
            }
            match parse_u32_digits(&digits) {
                None => Some(Err(digits)),
                Some(n) => {
                    let url = pr_url_exec(n);
                    let ghost dv = description@;
                    let r = (n, string_of(&url), string_of(&description));
                    assert(pr_view(r) == (n, pr_url(n as nat), dv));
                    Some(Ok(r))
                },
            }
        },
    }
}

/// Reads `(PR number, PR URL, PR description)` out of `git log --first-parent`
/// output. Each commit whose first indented message line refers to a PR
/// (`Auto merge of #N`, `Merge pull request #N`, or a trailing `(#N)`) gives
/// one entry; a merge is described by its next message line, a squash by its
/// first line without the reference.
pub fn commits_in_log(log: &str) -> (r: Result<Vec<(u32, String, String)>, ChangelogError>)
    ensures
        r matches Ok(prs) ==> log_prs(log@) == Ok::<
            Seq<(u32, Seq<char>, Seq<char>)>,
            Seq<char>,
        >(pr_views(prs@)),
        r matches Err(e) ==> e matches ChangelogError::PrNumberTooLarge(d) && log_prs(log@)
            == Err::<Seq<(u32, Seq<char>, Seq<char>)>, Seq<char>>(d@),
{
    let s = chars_of(log);
    let chunks = commit_chunks_exec(&s);
    let mut out: Vec<(u32, String, String)> = Vec::new();
    assert(views(chunks@).take(0) =~= Seq::<Seq<char>>::empty());
    assert(pr_views(out@) =~= Seq::<(u32, Seq<char>, Seq<char>)>::empty());
    for i in 0..chunks.len()
        invariant
            views(chunks@) == commit_chunks(s@),
            s@ == log@,
            entries_of(views(chunks@).take(i as int)) == Ok::<
                Seq<(u32, Seq<char>, Seq<char>)>,
                Seq<char>,
            >(pr_views(out@)),
    {
        assert(views(chunks@)[i as int] == chunks@[i as int]@);
        assert(views(chunks@).take(i + 1).drop_last() =~= views(chunks@).take(i as int));
        let chunk = &chunks[i];
        if !blank(chunk) {
            match commit_entry_exec(chunk) {
                None => {},
                Some(Err(d)) => {
                    proof {
                        lemma_entries_error_persists(views(chunks@), i + 1);
                    }
                    assert(views(chunks@).take(chunks@.len() as int) =~= views(chunks@));
                    return Err(ChangelogError::PrNumberTooLarge(string_of(&d)));
                },
                Some(Ok(pr)) => {
                    let ghost prev = pr_views(out@);
                    out.push(pr);
                    assert(pr_views(out@) =~= prev.push(pr_view(pr)));
                },
            }
        }
    }
    assert(views(chunks@).take(chunks@.len() as int) =~= views(chunks@));
    Ok(out)
}

/// Once a prefix of the chunks fails, every longer prefix fails the same way.
pub proof fn lemma_entries_error_persists(chunks: Seq<Seq<char>>, i: int)
    requires
        0 <= i <= chunks.len(),
        entries_of(chunks.take(i)) is Err,
    ensures
        entries_of(chunks) == entries_of(chunks.take(i)),
    decreases chunks.len() - i,
{
    if i < chunks.len() {
        assert(chunks.take(i + 1).drop_last() =~= chunks.take(i));
        lemma_entries_error_persists(chunks, i + 1);
    } else {
        assert(chunks.take(i) =~= chunks);
    }
}

// ---------------------------------------------------------------------------
// Rolling the `HASH...HEAD` links
// ---------------------------------------------------------------------------

/// A lowercase hexadecimal digit, as `[a-f0-9]` matches.
pub open spec fn is_hex(c: char) -> bool {
    ('a' <= c <= 'f') || ('0' <= c <= '9')
}

/// The end of the run of hexadecimal digits in `s` that starts at `i`.
pub open spec fn hex_end(s: Seq<char>, i: int) -> int
    decreases s.len() - i,
{
    if 0 <= i < s.len() && is_hex(s[i]) {
        hex_end(s, i + 1)
    } else {
        i
    }
}

pub proof fn lemma_hex_end(s: Seq<char>, i: int)
    requires
        0 <= i <= s.len(),
    ensures
        i <= hex_end(s, i) <= s.len(),
        forall|k: int| i <= k < hex_end(s, i) ==> is_hex(#[trigger] s[k]),
    decreases s.len() - i,
{
    if i < s.len() && is_hex(s[i]) {
        lemma_hex_end(s, i + 1);
    }
}

/// `...HEAD`
pub open spec fn head_word() -> Seq<char> {
    seq!['.', '.', '.', 'H', 'E', 'A', 'D']
}

/// A link `HASH...HEAD` starts at `p` (the regex `([a-f0-9]+)\.\.\.HEAD`).
pub open spec fn head_link_at(s: Seq<char>, p: int) -> bool {
    0 <= p < s.len() && is_hex(s[p]) && occurs_at(s, head_word(), hex_end(s, p))
}

/// The `HASH...HEAD` links of `s` at or after `p`, leftmost first and not
/// overlapping, each as the start of its hash and the end of its hash.
pub open spec fn head_links_from(s: Seq<char>, p: int) -> Seq<(int, int)>
    decreases s.len() + 1 - p,
{
    if p < 0 || p >= s.len() {
        seq![]
    } else if head_link_at(s, p) {
        proof {
            lemma_hex_end(s, p);
        }
        seq![(p, hex_end(s, p))] + head_links_from(s, hex_end(s, p) + 7)
    } else {
        head_links_from(s, p + 1)
    }
}

/// The text of the link `(start, hash end)`: the hash followed by `...HEAD`.
pub open spec fn link_text(s: Seq<char>, m: (int, int)) -> Seq<char> {
    s.subrange(m.0, m.1 + 7)
}

/// Rolls the changelog's two `HASH...HEAD` links over to `HASH...{beta}`:
/// the new changelog and the hash where the beta range starts, or `None` unless
/// the changelog holds exactly two such links with the same text.
pub open spec fn rolled_head_links(s: Seq<char>, beta: Seq<char>) -> Option<(Seq<char>, Seq<char>)> {
    let ms = head_links_from(s, 0);
    if ms.len() != 2 || link_text(s, ms[0]) != link_text(s, ms[1]) {
        None
    } else {
        let h = s.subrange(ms[0].0, ms[0].1);
        let r = h + "..."@ + beta;
        Some((s.take(ms[0].0) + r + s.subrange(ms[0].1 + 7, ms[1].0) + r + s.skip(ms[1].1 + 7), h))
    }
}

/// A found link `m` lies at or after `p` and really is a `HASH...HEAD` link.
pub open spec fn link_ok(s: Seq<char>, m: (int, int), p: int) -> bool {
    &&& p <= m.0 < m.1
    &&& m.1 + 7 <= s.len()
    &&& forall|q: int| m.0 <= q < m.1 ==> is_hex(#[trigger] s[q])
    &&& occurs_at(s, head_word(), m.1)
}

pub proof fn lemma_head_links_from(s: Seq<char>, p: int)
    requires
        0 <= p,
    ensures
        forall|k: int|
            0 <= k < head_links_from(s, p).len() ==> link_ok(
                s,
                #[trigger] head_links_from(s, p)[k],
                p,
            ),
        forall|k: int, l: int|
            0 <= k < l < head_links_from(s, p).len() ==> head_links_from(s, p)[k].1 + 7
                <= head_links_from(s, p)[l].0,
    decreases s.len() + 1 - p,
{
    if p >= s.len() {
    } else if head_link_at(s, p) {
        lemma_hex_end(s, p);
        lemma_hex_end(s, p + 1);
        let e = hex_end(s, p);
        assert(e > p);
        assert(head_word().len() == 7);
        lemma_head_links_from(s, e + 7);
        let rest = head_links_from(s, e + 7);
        let all = head_links_from(s, p);
        assert(all == seq![(p, e)] + rest);
        assert forall|k: int| 0 <= k < all.len() implies link_ok(s, #[trigger] all[k], p) by {
            if k > 0 {
                assert(all[k] == rest[k - 1]);
                assert(link_ok(s, rest[k - 1], e + 7));
            }
        }
        assert forall|k: int, l: int| 0 <= k < l < all.len() implies all[k].1 + 7 <= all[l].0 by {
            assert(all[l] == rest[l - 1]);
            assert(link_ok(s, rest[l - 1], e + 7));
            if k > 0 {
                assert(all[k] == rest[k - 1]);
            }
        }
    } else {
        lemma_head_links_from(s, p + 1);
        let all = head_links_from(s, p);
        assert(all == head_links_from(s, p + 1));
        assert forall|k: int| 0 <= k < all.len() implies link_ok(s, #[trigger] all[k], p) by {
            assert(link_ok(s, all[k], p + 1));
        }
    }
}

fn hex_end_exec(s: &[char], i: usize) -> (r: usize)
    requires
        i <= s@.len(),
    ensures
        r as int == hex_end(s@, i as int),
{
    let mut j = i;
    while j < s.len() && (('a' <= s[j] && s[j] <= 'f') || ('0' <= s[j] && s[j] <= '9'))
        invariant
            i <= j <= s@.len(),
            hex_end(s@, j as int) == hex_end(s@, i as int),
        decreases s@.len() - j,
    {
        j += 1;
    }
    j
}

fn head_links_exec(s: &[char]) -> (r: Vec<(usize, usize)>)
    ensures
        r@.len() == head_links_from(s@, 0).len(),
        forall|k: int|
            0 <= k < r@.len() ==> #[trigger] head_links_from(s@, 0)[k] == (
                r@[k].0 as int,
                r@[k].1 as int,
            ),
{
    let word = vec!['.', '.', '.', 'H', 'E', 'A', 'D'];
    assert(word@ =~= head_word());
    let mut found: Vec<(usize, usize)> = Vec::new();
    let ghost mut acc: Seq<(int, int)> = seq![];
    let mut p: usize = 0;
    while p < s.len()
        invariant
            p <= s@.len(),
            word@ == head_word(),
            acc + head_links_from(s@, p as int) == head_links_from(s@, 0),
            found@.len() == acc.len(),
            forall|k: int| 0 <= k < acc.len() ==> #[trigger] acc[k] == (found@[k].0 as int, found@[k].1 as int),
        decreases s@.len() - p,
    {
        let c = s[p];
        let is_h = ('a' <= c && c <= 'f') || ('0' <= c && c <= '9');
        if is_h {
            let e = hex_end_exec(s, p);
            proof {
                lemma_hex_end(s@, p as int);
            }
            if occurs_at_exec(s, &word, e) {
                assert(head_link_at(s@, p as int));
                proof {
                    acc = acc.push((p as int, e as int));
                }
                found.push((p, e));
                assert(acc + head_links_from(s@, e + 7) =~= head_links_from(s@, 0));
                p = e + 7;
                continue;
            }
        }
        assert(!head_link_at(s@, p as int));
        p += 1;
    }
    assert(head_links_from(s@, p as int) =~= Seq::<(int, int)>::empty());
    assert(acc =~= head_links_from(s@, 0));
    found
}

/// Rolls the changelog's `HASH...HEAD` links over to `HASH...{beta}`,
/// returning the new changelog and the hash where the beta range starts.
pub fn roll_head_links(changelog: &str, beta: &str) -> (r: Result<(String, String), ChangelogError>)
    ensures
        r matches Ok((c, h)) ==> rolled_head_links(changelog@, beta@) == Some((c@, h@)),
        r matches Err(e) ==> e == ChangelogError::HeadLinks && rolled_head_links(
            changelog@,
            beta@,
        ) is None,
{
    let s = chars_of(changelog);
    let ms = head_links_exec(&s);
    proof {
        lemma_head_links_from(s@, 0);
    }
    if ms.len() != 2 {
        return Err(ChangelogError::HeadLinks);
    }
    let (a0, e0) = ms[0];
    let (a1, e1) = ms[1];
    assert(head_links_from(s@, 0)[0] == (a0 as int, e0 as int));
    assert(head_links_from(s@, 0)[1] == (a1 as int, e1 as int));
    assert(link_ok(s@, head_links_from(s@, 0)[0], 0));
    assert(link_ok(s@, head_links_from(s@, 0)[1], 0));
    let n = s.len();
    assert(e0 + 7 <= n && e1 + 7 <= n);
    let t0 = copy_range(&s, a0, e0 + 7);
    let t1 = copy_range(&s, a1, e1 + 7);
    if !chars_eq(&t0, &t1) {
        return Err(ChangelogError::HeadLinks);
    }
    let h = copy_range(&s, a0, e0);
    let mut r: Vec<char> = Vec::new();
    extend_chars(&mut r, &h);
    extend_str(&mut r, "...");
    extend_str(&mut r, beta);
    let mut out = copy_range(&s, 0, a0);
    extend_chars(&mut out, &r);
    let mid = copy_range(&s, e0 + 7, a1);
    extend_chars(&mut out, &mid);
    extend_chars(&mut out, &r);
    let tail = copy_range(&s, e1 + 7, s.len());
    extend_chars(&mut out, &tail);
    assert(s@.subrange(0, a0 as int) =~= s@.take(a0 as int));
    assert(s@.subrange(e1 + 7, s@.len() as int) =~= s@.skip(e1 + 7));
    Ok((string_of(&out), string_of(&h)))
}

// ---------------------------------------------------------------------------
// New entries and sections
// ---------------------------------------------------------------------------

/// `s` with `t` inserted at position `i` (`String::insert_str`).
pub open spec fn insert_at(s: Seq<char>, i: int, t: Seq<char>) -> Seq<char> {
    s.take(i) + t + s.skip(i)
}

fn insert_chars(s: &[char], i: usize, t: &[char]) -> (r: Vec<char>)
    requires
        i <= s@.len(),
    ensures
        r@ == insert_at(s@, i as int, t@),
{
    let mut r = copy_range(s, 0, i);
    extend_chars(&mut r, t);
    let rest = copy_range(s, i, s.len());
    extend_chars(&mut r, &rest);
    assert(s@.subrange(0, i as int) =~= s@.take(i as int));
    assert(s@.subrange(i as int, s@.len() as int) =~= s@.skip(i as int));
    r
}

/// The changelog with `entries` inserted before its first `### Added` line,
/// or `None` if it has none.
pub open spec fn with_added_entries(changelog: Seq<char>, entries: Seq<char>) -> Option<Seq<char>> {
    match find(changelog, "### Added\n"@) {
        Some(i) => Some(insert_at(changelog, i, entries)),
        None => None,
    }
}

/// Inserts `entries` before the first `### Added` line of the changelog.
pub fn insert_added_entries(changelog: &str, entries: &str) -> (r: Result<String, ChangelogError>)
    ensures
        r matches Ok(c) ==> with_added_entries(changelog@, entries@) == Some(c@),
        r matches Err(e) ==> e == ChangelogError::MissingAdded && with_added_entries(
            changelog@,
            entries@,
        ) is None,
{
    let s = chars_of(changelog);
    let pat = chars_of("### Added\n");
    match find_chars(&s, &pat) {
        Some(i) => {
            proof {
                lemma_find_from(s@, pat@, 0);
            }
            let e = chars_of(entries);
            let r = insert_chars(&s, i, &e);
            Ok(string_of(&r))
        },
        None => Err(ChangelogError::MissingAdded),
    }
}

/// The branch of the beta release: `rust-1.{minor}.0`.
pub open spec fn beta_branch(minor: nat) -> Seq<char> {
    "rust-1."@ + decimal(minor) + ".0"@
}

/// The name of the release branch for Rust `1.{minor}.0`.
pub fn beta_branch_name(minor: u64) -> (r: String)
    ensures
        r@ == beta_branch(minor as nat),
{
    let mut v: Vec<char> = Vec::new();
    extend_str(&mut v, "rust-1.");
    let d = decimal_chars(minor);
    extend_chars(&mut v, &d);
    extend_str(&mut v, ".0");
    string_of(&v)
}

/// The new section for nightly Cargo `1.{minor}`, released on `date`, whose
/// range starts at `short`, listing `entries`.
pub open spec fn release_section(
    minor: nat,
    date: Seq<char>,
    short: Seq<char>,
    entries: Seq<char>,
) -> Seq<char> {
    "\n## Cargo 1."@ + decimal(minor) + " ("@ + date + ")\n["@ + short
        + "...HEAD](https://github.com/rust-lang/cargo/compare/"@ + short + "...HEAD)\n\n"@
        + entries
        + "\n\n### Added\n\n### Changed\n\n### Fixed\n\n### Nightly only\n\n### Documentation\n\n### Internal\n\n"@
}

/// `# Changelog` and its line break, which the changelog starts with.
pub open spec fn changelog_title() -> Seq<char> {
    seq!['#', ' ', 'C', 'h', 'a', 'n', 'g', 'e', 'l', 'o', 'g', '\n']
}

/// Whether the changelog starts with `# Changelog` and a line break.
pub fn has_changelog_title(changelog: &str) -> (r: bool)
    ensures
        r == starts_with(changelog@, changelog_title()),
{
    let s = chars_of(changelog);
    let title = vec!['#', ' ', 'C', 'h', 'a', 'n', 'g', 'e', 'l', 'o', 'g', '\n'];
    assert(title@ =~= changelog_title());
    occurs_at_exec(&s, &title, 0)
}

/// The changelog with the new section inserted right after its title, or
/// `None` if it does not start with `# Changelog`.
pub open spec fn with_release_section(
    changelog: Seq<char>,
    minor: nat,
    date: Seq<char>,
    short: Seq<char>,
    entries: Seq<char>,
) -> Option<Seq<char>> {
    if starts_with(changelog, changelog_title()) {
        Some(insert_at(changelog, 12, release_section(minor, date, short, entries)))
    } else {
        None
    }
}

/// Inserts the stub section for nightly Cargo `1.{minor}` after the title.
pub fn insert_release_section(
    changelog: &str,
    minor: u64,
    date: &str,
    short: &str,
    entries: &str,
) -> (r: Result<String, ChangelogError>)
    ensures
        r matches Ok(c) ==> with_release_section(changelog@, minor as nat, date@, short@, entries@)
            == Some(c@),
        r matches Err(e) ==> e == ChangelogError::MissingTitle && with_release_section(
            changelog@,
            minor as nat,
            date@,
            short@,
            entries@,
        ) is None,
{
    let s = chars_of(changelog);
    let title = vec!['#', ' ', 'C', 'h', 'a', 'n', 'g', 'e', 'l', 'o', 'g', '\n'];
    assert(title@ =~= changelog_title());
    if !occurs_at_exec(&s, &title, 0) {
        return Err(ChangelogError::MissingTitle);
    }
    let mut sec: Vec<char> = Vec::new();
    extend_str(&mut sec, "\n## Cargo 1.");
    let d = decimal_chars(minor);
    extend_chars(&mut sec, &d);
    extend_str(&mut sec, " (");
    extend_str(&mut sec, date);
    extend_str(&mut sec, ")\n[");
    extend_str(&mut sec, short);
    extend_str(&mut sec, "...HEAD](https://github.com/rust-lang/cargo/compare/");
    extend_str(&mut sec, short);
    extend_str(&mut sec, "...HEAD)\n\n");
    extend_str(&mut sec, entries);
    extend_str(
        &mut sec,
        "\n\n### Added\n\n### Changed\n\n### Fixed\n\n### Nightly only\n\n### Documentation\n\n### Internal\n\n",
    );
    assert(sec@ =~= release_section(minor as nat, date@, short@, entries@));
    let r = insert_chars(&s, 12, &sec);
    Ok(string_of(&r))
}

/// The first eight bytes of a commit hash.
pub fn short_hash(hash: &str) -> (r: &str)
    requires
        vstd::utf8::is_char_boundary(hash.spec_bytes(), 8),
    ensures
        r.spec_bytes() == hash.spec_bytes().subrange(0, 8),
{
    hash.split_at(8).0
}

// ---------------------------------------------------------------------------
// PRs already in the changelog
// ---------------------------------------------------------------------------

/// How the changelog refers to PR `n`: `[#n]`.
pub open spec fn pr_mention(n: nat) -> Seq<char> {
    seq!['[', '#'] + decimal(n) + seq![']']
}

/// The PRs of `prs` that the changelog mentions (`documented`) or not.
pub open spec fn prs_by_mention(
    changelog: Seq<char>,
    prs: Seq<(u32, Seq<char>, Seq<char>)>,
    documented: bool,
) -> Seq<(u32, Seq<char>, Seq<char>)>
    decreases prs.len(),
{
    if prs.len() == 0 {
        seq![]
    } else {
        let rest = prs_by_mention(changelog, prs.drop_last(), documented);
        if contains(changelog, pr_mention(prs.last().0 as nat)) == documented {
            rest.push(prs.last())
        } else {
            rest
        }
    }
}

/// Splits PRs into those the changelog already mentions and the rest, both
/// in their original order.
pub fn partition_documented(changelog: &str, prs: Vec<(u32, String, String)>) -> (r: (
    Vec<(u32, String, String)>,
    Vec<(u32, String, String)>,
))
    ensures
        pr_views(r.0@) == prs_by_mention(changelog@, pr_views(prs@), true),
        pr_views(r.1@) == prs_by_mention(changelog@, pr_views(prs@), false),
{
    let s = chars_of(changelog);
    let mut documented: Vec<(u32, String, String)> = Vec::new();
    let mut fresh: Vec<(u32, String, String)> = Vec::new();
    let n = prs.len();
    let ghost all = pr_views(prs@);
    let mut rest = prs;
    assert(pr_views(documented@) =~= Seq::<(u32, Seq<char>, Seq<char>)>::empty());
    assert(pr_views(fresh@) =~= Seq::<(u32, Seq<char>, Seq<char>)>::empty());
    assert(all.take(0) =~= Seq::<(u32, Seq<char>, Seq<char>)>::empty());
    for i in 0..n
        invariant
            n == all.len(),
            s@ == changelog@,
            rest@.len() == n - i,
            forall|k: int| 0 <= k < rest@.len() ==> pr_view(#[trigger] rest@[k]) == all[i + k],
            pr_views(documented@) == prs_by_mention(changelog@, all.take(i as int), true),
            pr_views(fresh@) == prs_by_mention(changelog@, all.take(i as int), false),
    {
        assert(pr_view(rest@[0]) == all[i + 0]);
        let pr = rest.remove(0);
        assert(pr_view(pr) == all[i as int]);
        assert(all.take(i + 1).drop_last() =~= all.take(i as int));
        let mut m: Vec<char> = Vec::new();
        m.push('[');
        m.push('#');
        let d = decimal_chars(pr.0 as u64);
        extend_chars(&mut m, &d);
        m.push(']');
        assert(m@ =~= pr_mention(pr.0 as nat));
        if contains_chars(&s, &m) {
            let ghost prev = pr_views(documented@);
            documented.push(pr);
            assert(pr_views(documented@) =~= prev.push(pr_view(pr)));
        } else {
            let ghost prev = pr_views(fresh@);
            fresh.push(pr);
            assert(pr_views(fresh@) =~= prev.push(pr_view(pr)));
        }
    }
    assert(all.take(n as int) =~= all);
    (documented, fresh)
}

// ---------------------------------------------------------------------------
// Entries just added count as documented
// ---------------------------------------------------------------------------

/// An occurrence is found by `contains`.
pub proof fn lemma_occurs_contains(s: Seq<char>, t: Seq<char>, i: int)
    requires
        occurs_at(s, t, i),
    ensures
        contains(s, t),
{
    lemma_find_from(s, t, 0);
}

/// An occurrence inside an occurrence.
pub proof fn lemma_occurs_within(s: Seq<char>, t: Seq<char>, u: Seq<char>, i: int, j: int)
    requires
        occurs_at(s, t, i),
        occurs_at(t, u, j),
    ensures
        occurs_at(s, u, i + j),
{
    assert(s.subrange(i + j, i + j + u.len()) =~= t.subrange(j, j + u.len()));
}

/// Each entry mentions its PR as `[#N]`.
pub proof fn lemma_link_mentions_pr(pr: (u32, Seq<char>, Seq<char>))
    ensures
        occurs_at(pr_link(pr), pr_mention(pr.0 as nat), pr.2.len() + 6int),
{
    reveal_strlit("- ");
    reveal_strlit(" \n  [#");
    reveal_strlit("](");
    let l = pr_link(pr);
    let m = pr_mention(pr.0 as nat);
    let d = decimal(pr.0 as nat);
    let at: int = pr.2.len() + 6int;
    assert(l =~= "- "@ + pr.2 + " \n  [#"@ + d + "]("@ + pr.1 + ")\n"@);
    assert forall|q: int| 0 <= q < m.len() implies l[at + q] == m[q] by {
        if q == 0 {
            assert(l[at] == " \n  [#"@[4]);
        } else if q == 1 {
            assert(l[at + 1] == " \n  [#"@[5]);
        } else if q < 2 + d.len() {
            assert(l[at + q] == d[q - 2]);
        } else {
            assert(l[at + q] == "]("@[0]);
        }
    }
    assert(l.subrange(at, at + m.len() as int) =~= m);
}

/// The entries of the first `k` PRs begin the entries of all of them.
pub proof fn lemma_links_prefix(prs: Seq<(u32, Seq<char>, Seq<char>)>, k: int)
    requires
        0 <= k <= prs.len(),
    ensures
        pr_links(prs.take(k)).len() <= pr_links(prs).len(),
        pr_links(prs).subrange(0, pr_links(prs.take(k)).len() as int) == pr_links(prs.take(k)),
    decreases prs.len() - k,
{
    if k == prs.len() {
        assert(prs.take(k) =~= prs);
        assert(pr_links(prs).subrange(0, pr_links(prs).len() as int) =~= pr_links(prs));
    } else {
        lemma_links_prefix(prs, k + 1);
        assert(prs.take(k + 1).drop_last() =~= prs.take(k));
        let a = pr_links(prs.take(k));
        let b = pr_links(prs.take(k + 1));
        let c = pr_links(prs);
        assert(b == a + pr_link(prs[k]));
        assert(c.subrange(0, a.len() as int) =~= b.subrange(0, a.len() as int));
    }
}

/// The entry of the `k`-th PR appears in the entries of all the PRs.
pub proof fn lemma_link_in_links(prs: Seq<(u32, Seq<char>, Seq<char>)>, k: int)
    requires
        0 <= k < prs.len(),
    ensures
        occurs_at(pr_links(prs), pr_link(prs[k]), pr_links(prs.take(k)).len() as int),
{
    lemma_links_prefix(prs, k + 1);
    assert(prs.take(k + 1).drop_last() =~= prs.take(k));
    assert(prs.take(k + 1).last() == prs[k]);
    let a = pr_links(prs.take(k));
    let l = pr_link(prs[k]);
    let b = pr_links(prs.take(k + 1));
    let c = pr_links(prs);
    assert(b == a + l);
    assert(c.subrange(0, b.len() as int) == b);
    assert(c.subrange(a.len() as int, (a.len() + l.len()) as int) =~= l) by {
        assert forall|q: int| 0 <= q < l.len() implies c[a.len() + q] == l[q] by {
            assert(c.subrange(0, b.len() as int)[a.len() + q] == c[a.len() + q]);
            assert(b[a.len() + q] == l[q]);
        }
    }
}

/// Once the entries of some PRs are added to the changelog, each of those PRs
/// counts as documented: the changelog mentions it as `[#N]`, so a later run
/// does not list it again.
pub proof fn lemma_added_prs_are_documented(
    changelog: Seq<char>,
    prs: Seq<(u32, Seq<char>, Seq<char>)>,
    k: int,
)
    requires
        0 <= k < prs.len(),
        with_added_entries(changelog, pr_links(prs)) is Some,
    ensures
        contains(with_added_entries(changelog, pr_links(prs))->0, pr_mention(prs[k].0 as nat)),
{
    let links = pr_links(prs);
    let i = find(changelog, "### Added\n"@)->0;
    lemma_find_from(changelog, "### Added\n"@, 0);
    let out = insert_at(changelog, i, links);
    assert(out.subrange(i, i + links.len()) =~= links);
    assert(occurs_at(out, links, i));
    lemma_link_in_links(prs, k);
    lemma_occurs_within(out, links, pr_link(prs[k]), i, pr_links(prs.take(k)).len() as int);
    lemma_link_mentions_pr(prs[k]);
    lemma_occurs_within(
        out,
        pr_link(prs[k]),
        pr_mention(prs[k].0 as nat),
        i + pr_links(prs.take(k)).len(),
        prs[k].2.len() + 6int,
    );
    lemma_occurs_contains(
        out,
        pr_mention(prs[k].0 as nat),
        i + pr_links(prs.take(k)).len() + prs[k].2.len() + 6,
    );
}


// ---------------------------------------------------------------------------
// The prepared changelog rolls again
// ---------------------------------------------------------------------------

/// `s` spells `...HEAD` nowhere.
pub open spec fn free_of_head_word(s: Seq<char>) -> bool {
    forall|p: int| !#[trigger] occurs_at(s, head_word(), p)
}

/// A character of `...HEAD` that can end a proper prefix of it.
pub open spec fn head_word_lead(c: char) -> bool {
    c == '.' || c == 'H' || c == 'E' || c == 'A'
}

/// A character of `...HEAD` that can start a proper suffix of it.
pub open spec fn head_word_tail(c: char) -> bool {
    c == '.' || c == 'H' || c == 'E' || c == 'A' || c == 'D'
}

/// No `...HEAD` can straddle the seam between `x` and `y`.
pub open spec fn seam_clean(x: Seq<char>, y: Seq<char>) -> bool {
    x.len() == 0 || y.len() == 0 || !head_word_lead(x.last()) || !head_word_tail(y[0])
}

/// A `...HEAD` in `x + y` lies within `x` or within `y` when the seam is clean.
proof fn lemma_head_word_in_concat(x: Seq<char>, y: Seq<char>, p: int)
    requires
        occurs_at(x + y, head_word(), p),
        seam_clean(x, y),
    ensures
        occurs_at(x, head_word(), p) || occurs_at(y, head_word(), p - x.len()),
{
    let w = head_word();
    let s = x + y;
    assert(w.len() == 7);
    if p + 7 <= x.len() {
        assert(x.subrange(p, p + 7) =~= s.subrange(p, p + 7));
    } else if p >= x.len() {
        assert(y.subrange(p - x.len(), p - x.len() + 7) =~= s.subrange(p, p + 7));
    } else {
        let k = x.len() - p;
        assert(s.subrange(p, p + 7)[k] == w[k]);
        assert(s.subrange(p, p + 7)[k - 1] == w[k - 1]);
        assert(s[x.len() as int] == y[0]);
        assert(s[x.len() - 1] == x.last());
        assert(false);
    }
}

/// Two pieces without `...HEAD`, joined at a clean seam, have none either.
proof fn lemma_free_concat(x: Seq<char>, y: Seq<char>)
    requires
        free_of_head_word(x),
        free_of_head_word(y),
        seam_clean(x, y),
    ensures
        free_of_head_word(x + y),
{
    assert forall|p: int| !#[trigger] occurs_at(x + y, head_word(), p) by {
        if occurs_at(x + y, head_word(), p) {
            lemma_head_word_in_concat(x, y, p);
        }
    }
}

/// Text without an `H` has no `...HEAD`.
proof fn lemma_free_without_h(x: Seq<char>)
    requires
        free_of(x, 'H'),
    ensures
        free_of_head_word(x),
{
    assert forall|p: int| !#[trigger] occurs_at(x, head_word(), p) by {
        if occurs_at(x, head_word(), p) {
            assert(x.subrange(p, p + 7)[3] == head_word()[3]);
        }
    }
}

/// Decimal notation has no `...HEAD` and starts with a digit.
proof fn lemma_decimal_free(n: nat)
    ensures
        free_of_head_word(decimal(n)),
        decimal(n).len() >= 1,
        '0' <= decimal(n)[0] <= '9',
        '0' <= decimal(n).last() <= '9',
{
    crate::text::lemma_decimal_digits(n);
    assert(decimal(n)[decimal(n).len() - 1] == decimal(n).last());
    lemma_free_without_h(decimal(n));
}


/// No PR's description or URL spells `...HEAD`.
pub open spec fn entries_free_of_head_word(prs: Seq<(u32, Seq<char>, Seq<char>)>) -> bool {
    forall|k: int|
        0 <= k < prs.len() ==> free_of_head_word(#[trigger] prs[k].1) && free_of_head_word(
            prs[k].2,
        )
}

/// An entry has no `...HEAD` when its description and URL have none, and it
/// starts with `-` and ends with a line break.
proof fn lemma_pr_link_free(pr: (u32, Seq<char>, Seq<char>))
    requires
        free_of_head_word(pr.1),
        free_of_head_word(pr.2),
    ensures
        free_of_head_word(pr_link(pr)),
        pr_link(pr).len() >= 1,
        pr_link(pr)[0] == '-',
        pr_link(pr).last() == '\n',
{
    reveal_strlit("- ");
    reveal_strlit(" \n  [#");
    reveal_strlit("](");
    reveal_strlit(")\n");
    let a = "- "@;
    let b = " \n  [#"@;
    let c = "]("@;
    let d = ")\n"@;
    let n = decimal(pr.0 as nat);
    lemma_decimal_free(pr.0 as nat);
    lemma_free_without_h(a);
    lemma_free_without_h(b);
    lemma_free_without_h(c);
    lemma_free_without_h(d);
    lemma_free_concat(a, pr.2);
    let x1 = a + pr.2;
    assert(x1.len() == 0 || x1.len() > 0);
    lemma_free_concat(x1, b);
    let x2 = x1 + b;
    assert(x2.last() == '#');
    lemma_free_concat(x2, n);
    let x3 = x2 + n;
    lemma_free_concat(x3, c);
    let x4 = x3 + c;
    assert(x4.last() == '(');
    lemma_free_concat(x4, pr.1);
    let x5 = x4 + pr.1;
    lemma_free_concat(x5, d);
    assert(pr_link(pr) == x5 + d);
    assert((x5 + d)[0] == '-');
}

/// The entries of PRs whose descriptions and URLs have no `...HEAD` have
/// none either; they start with `-` unless there are none.
proof fn lemma_pr_links_free(prs: Seq<(u32, Seq<char>, Seq<char>)>)
    requires
        entries_free_of_head_word(prs),
    ensures
        free_of_head_word(pr_links(prs)),
        pr_links(prs).len() == 0 || pr_links(prs)[0] == '-',
    decreases prs.len(),
{
    if prs.len() > 0 {
        let rest = prs.drop_last();
        assert forall|k: int|
            0 <= k < rest.len() implies free_of_head_word(#[trigger] rest[k].1)
            && free_of_head_word(rest[k].2) by {
            assert(rest[k] == prs[k]);
        }
        lemma_pr_links_free(rest);
        lemma_pr_link_free(prs.last());
        lemma_free_concat(pr_links(rest), pr_link(prs.last()));
    }
}


/// A beta branch name has no `...HEAD`; it starts with `r` and ends with `0`.
proof fn lemma_beta_branch_free(minor: nat)
    ensures
        free_of_head_word(beta_branch(minor)),
        beta_branch(minor).len() >= 1,
        beta_branch(minor)[0] == 'r',
        beta_branch(minor).last() == '0',
{
    reveal_strlit("rust-1.");
    reveal_strlit(".0");
    let a = "rust-1."@;
    let b = ".0"@;
    lemma_decimal_free(minor);
    lemma_free_without_h(a);
    lemma_free_without_h(b);
    lemma_free_concat(a, decimal(minor));
    lemma_free_concat(a + decimal(minor), b);
}

/// Hexadecimal digits spell no `...HEAD`.
proof fn lemma_hex_free(h: Seq<char>)
    requires
        forall|q: int| 0 <= q < h.len() ==> is_hex(#[trigger] h[q]),
    ensures
        free_of_head_word(h),
{
    assert forall|q: int| 0 <= q < h.len() implies #[trigger] h[q] != 'H' by {
        assert(is_hex(h[q]));
    }
    lemma_free_without_h(h);
}


/// A run of hexadecimal digits from `i` to `j`, followed by the end or a
/// character that is not one, ends at `j`.
proof fn lemma_hex_run_end(s: Seq<char>, i: int, j: int)
    requires
        0 <= i <= j <= s.len(),
        forall|q: int| i <= q < j ==> is_hex(#[trigger] s[q]),
        j == s.len() || !is_hex(s[j]),
    ensures
        hex_end(s, i) == j,
    decreases j - i,
{
    if i < j {
        lemma_hex_run_end(s, i + 1, j);
    }
}

/// Where no link starts, the scan for links moves on.
proof fn lemma_links_skip(s: Seq<char>, p: int, m: int)
    requires
        0 <= p <= m <= s.len(),
        forall|q: int| p <= q < m ==> !#[trigger] head_link_at(s, q),
    ensures
        head_links_from(s, p) == head_links_from(s, m),
    decreases m - p,
{
    if p < m {
        assert(!head_link_at(s, p));
        lemma_links_skip(s, p + 1, m);
    }
}


/// The fixed pieces of a new release section: none spells `...HEAD` apart
/// from the two that start with it, and their ends.
proof fn lemma_section_pieces()
    ensures
        "...HEAD](https://github.com/rust-lang/cargo/compare/"@ == head_word()
            + "](https://github.com/rust-lang/cargo/compare/"@,
        "...HEAD)\n\n"@ == head_word() + ")\n\n"@,
        free_of_head_word("\n## Cargo 1."@),
        free_of_head_word(" ("@),
        free_of_head_word(")\n["@),
        free_of_head_word("](https://github.com/rust-lang/cargo/compare/"@),
        free_of_head_word(")\n\n"@),
        free_of_head_word(
            "\n\n### Added\n\n### Changed\n\n### Fixed\n\n### Nightly only\n\n### Documentation\n\n### Internal\n\n"@,
        ),
        "\n## Cargo 1."@.len() == 12 && "\n## Cargo 1."@.last() == '.',
        " ("@.len() == 2 && " ("@[0] == ' ' && " ("@.last() == '(',
        ")\n["@.len() == 3 && ")\n["@[0] == ')' && ")\n["@.last() == '[',
        "](https://github.com/rust-lang/cargo/compare/"@.len() >= 1
            && "](https://github.com/rust-lang/cargo/compare/"@[0] == ']'
            && "](https://github.com/rust-lang/cargo/compare/"@.last() == '/',
        ")\n\n"@.len() == 3 && ")\n\n"@[0] == ')' && ")\n\n"@.last() == '\n',
        "\n\n### Added\n\n### Changed\n\n### Fixed\n\n### Nightly only\n\n### Documentation\n\n### Internal\n\n"@.len()
            >= 1
            && "\n\n### Added\n\n### Changed\n\n### Fixed\n\n### Nightly only\n\n### Documentation\n\n### Internal\n\n"@[0]
            == '\n'
            && "\n\n### Added\n\n### Changed\n\n### Fixed\n\n### Nightly only\n\n### Documentation\n\n### Internal\n\n"@.last()
            == '\n',
{
    reveal_strlit("\n## Cargo 1.");
    reveal_strlit(" (");
    reveal_strlit(")\n[");
    reveal_strlit("...HEAD](https://github.com/rust-lang/cargo/compare/");
    reveal_strlit("](https://github.com/rust-lang/cargo/compare/");
    reveal_strlit("...HEAD)\n\n");
    reveal_strlit(")\n\n");
    reveal_strlit(
        "\n\n### Added\n\n### Changed\n\n### Fixed\n\n### Nightly only\n\n### Documentation\n\n### Internal\n\n",
    );
    assert("...HEAD](https://github.com/rust-lang/cargo/compare/"@ =~= head_word()
        + "](https://github.com/rust-lang/cargo/compare/"@);
    assert("...HEAD)\n\n"@ =~= head_word() + ")\n\n"@);
    lemma_free_without_h("\n## Cargo 1."@);
    lemma_free_without_h(" ("@);
    lemma_free_without_h(")\n["@);
    lemma_free_without_h("](https://github.com/rust-lang/cargo/compare/"@);
    lemma_free_without_h(")\n\n"@);
    lemma_free_without_h(
        "\n\n### Added\n\n### Changed\n\n### Fixed\n\n### Nightly only\n\n### Documentation\n\n### Internal\n\n"@,
    );
}

/// The changelog after a release is prepared: its two `HASH...HEAD` links
/// rolled over to the beta branch `rust-1.{beta_minor}.0`, the entries of
/// the beta PRs inserted before its first `### Added`, and the section of
/// nightly `1.{minor}`, whose range starts at `short`, listing the master
/// PRs, inserted after its title.
pub open spec fn prepared_changelog(
    changelog: Seq<char>,
    beta_minor: nat,
    beta_prs: Seq<(u32, Seq<char>, Seq<char>)>,
    minor: nat,
    date: Seq<char>,
    short: Seq<char>,
    master_prs: Seq<(u32, Seq<char>, Seq<char>)>,
) -> Option<Seq<char>> {
    match rolled_head_links(changelog, beta_branch(beta_minor)) {
        None => None,
        Some((rolled, _)) => match with_added_entries(rolled, pr_links(beta_prs)) {
            None => None,
            Some(added) => with_release_section(added, minor, date, short, pr_links(master_prs)),
        },
    }
}


/// Each `...HEAD` of `x`, but one at its very start, follows a character
/// that is not a hexadecimal digit, so that it ends no `HASH...HEAD` link.
pub open spec fn loose_head_words(x: Seq<char>) -> bool {
    forall|q: int| #[trigger] occurs_at(x, head_word(), q) && q > 0 ==> !is_hex(x[q - 1])
}

/// Where a `...HEAD` of `x + y` lies, and what comes before it, when the seam
/// is clean.
proof fn lemma_head_word_before(x: Seq<char>, y: Seq<char>, p: int)
    requires
        occurs_at(x + y, head_word(), p),
        seam_clean(x, y),
        p > 0,
    ensures
        (occurs_at(x, head_word(), p) && (x + y)[p - 1] == x[p - 1]) || (occurs_at(
            y,
            head_word(),
            p - x.len(),
        ) && p - x.len() > 0 && (x + y)[p - 1] == y[p - x.len() - 1]) || (occurs_at(
            y,
            head_word(),
            0,
        ) && p == x.len() && (x + y)[p - 1] == x.last()),
{
    lemma_head_word_in_concat(x, y, p);
    if occurs_at(x, head_word(), p) {
        assert((x + y)[p - 1] == x[p - 1]);
    } else if p - x.len() > 0 {
        assert((x + y)[p - 1] == y[p - x.len() - 1]);
    } else {
        assert((x + y)[p - 1] == x[x.len() - 1]);
    }
}

/// Joining two texts whose `...HEAD`s end no link keeps it so, when the seam
/// is clean and nothing hexadecimal ends `x` right before a `...HEAD` that
/// starts `y`.
proof fn lemma_loose_concat(x: Seq<char>, y: Seq<char>)
    requires
        loose_head_words(x),
        loose_head_words(y),
        seam_clean(x, y),
        x.len() == 0 || !is_hex(x.last()) || !occurs_at(y, head_word(), 0),
    ensures
        loose_head_words(x + y),
{
    assert forall|q: int| #[trigger] occurs_at(x + y, head_word(), q) && q > 0 implies !is_hex(
        (x + y)[q - 1],
    ) by {
        lemma_head_word_before(x, y, q);
    }
}

/// Text without `...HEAD` has no link-ending one either.
proof fn lemma_free_loose(x: Seq<char>)
    requires
        free_of_head_word(x),
    ensures
        loose_head_words(x),
        !occurs_at(x, head_word(), 0),
{
}

/// A stretch of `s` keeps its `...HEAD`s' predecessors, but for the first.
proof fn lemma_loose_stretch(s: Seq<char>, i: int, j: int)
    requires
        0 <= i <= j <= s.len(),
        forall|q: int|
            #[trigger] occurs_at(s, head_word(), q) && i < q && q + 7 <= j ==> !is_hex(s[q - 1]),
    ensures
        loose_head_words(s.subrange(i, j)),
        occurs_at(s.subrange(i, j), head_word(), 0) ==> occurs_at(s, head_word(), i),
{
    let t = s.subrange(i, j);
    assert forall|p: int| #[trigger] occurs_at(t, head_word(), p) && p > 0 implies !is_hex(
        t[p - 1],
    ) by {
        assert(t.subrange(p, p + 7) =~= s.subrange(i + p, i + p + 7));
        assert(occurs_at(s, head_word(), i + p));
        assert(t[p - 1] == s[i + p - 1]);
    }
    if occurs_at(t, head_word(), 0) {
        assert(t.subrange(0, 7) =~= s.subrange(i, i + 7));
    }
}

/// A link-free stretch of text whose `...HEAD`s end no link.
proof fn lemma_loose_subrange(s: Seq<char>, i: int, j: int)
    requires
        loose_head_words(s),
        0 <= i <= j <= s.len(),
    ensures
        loose_head_words(s.subrange(i, j)),
        occurs_at(s.subrange(i, j), head_word(), 0) ==> occurs_at(s, head_word(), i),
{
    lemma_loose_stretch(s, i, j);
}

/// Where the run of hexadecimal digits that ends right before `e` starts.
proof fn lemma_hex_run_start(s: Seq<char>, e: int) -> (r: int)
    requires
        0 <= e <= s.len(),
    ensures
        0 <= r <= e,
        forall|k: int| r <= k < e ==> is_hex(#[trigger] s[k]),
        r == 0 || !is_hex(s[r - 1]),
    decreases e,
{
    if e > 0 && is_hex(s[e - 1]) {
        let r = lemma_hex_run_start(s, e - 1);
        r
    } else {
        e
    }
}

/// A `...HEAD` that follows the run of hexadecimal digits starting at `r`
/// ends one of the links that the scan from `p` finds, when the scan starts
/// at or before the run.
proof fn lemma_hex_run_is_link(s: Seq<char>, p: int, r: int, e: int)
    requires
        0 <= p <= r < e,
        occurs_at(s, head_word(), e),
        forall|k: int| r <= k < e ==> is_hex(#[trigger] s[k]),
        r == 0 || !is_hex(s[r - 1]),
    ensures
        exists|k: int|
            0 <= k < head_links_from(s, p).len() && (#[trigger] head_links_from(s, p)[k]).1 == e,
    decreases r - p,
{
    let w = head_word();
    assert(s.subrange(e, e + 7)[0] == w[0]);
    if p == r {
        lemma_hex_run_end(s, r, e);
        assert(head_link_at(s, r));
        assert(head_links_from(s, p)[0] == (r, e));
    } else if head_link_at(s, p) {
        lemma_hex_end(s, p);
        let e2 = hex_end(s, p);
        if e2 >= r {
            assert(is_hex(s[r - 1]));
        }
        assert(occurs_at(s, w, e2));
        assert forall|j: int| e2 <= j < e2 + 7 implies !is_hex(#[trigger] s[j]) by {
            assert(s[j] == s.subrange(e2, e2 + 7)[j - e2]);
        }
        assert(r >= e2 + 7);
        lemma_hex_run_is_link(s, e2 + 7, r, e);
        let rest = head_links_from(s, e2 + 7);
        let k = choose|k: int| 0 <= k < rest.len() && (#[trigger] rest[k]).1 == e;
        assert(head_links_from(s, p) == seq![(p, e2)] + rest);
        assert(head_links_from(s, p)[k + 1] == rest[k]);
    } else {
        lemma_hex_run_is_link(s, p + 1, r, e);
        assert(head_links_from(s, p) == head_links_from(s, p + 1));
    }
}

/// Every `...HEAD` that follows a hexadecimal digit ends a link.
proof fn lemma_hex_preceded_ends_link(s: Seq<char>, e: int)
    requires
        occurs_at(s, head_word(), e),
        e > 0,
        is_hex(s[e - 1]),
    ensures
        exists|k: int|
            0 <= k < head_links_from(s, 0).len() && (#[trigger] head_links_from(s, 0)[k]).1 == e,
{
    let r = lemma_hex_run_start(s, e);
    lemma_hex_run_is_link(s, 0, r, e);
}

/// No `...HEAD` of the changelog starts right after one of its two links.
pub open spec fn no_head_word_after_links(s: Seq<char>) -> bool {
    forall|q: int|
        #[trigger] occurs_at(s, head_word(), q) ==> q != head_links_from(s, 0)[0].1 + 7 && q
            != head_links_from(s, 0)[1].1 + 7
}

/// When no `...HEAD` of the changelog starts right after a link, the rolled
/// changelog's `...HEAD`s end no link.
proof fn lemma_rolled_loose(s: Seq<char>, beta_minor: nat)
    requires
        rolled_head_links(s, beta_branch(beta_minor)) is Some,
        no_head_word_after_links(s),
    ensures
        loose_head_words((rolled_head_links(s, beta_branch(beta_minor))->0).0),
{
    let beta = beta_branch(beta_minor);
    let ms = head_links_from(s, 0);
    lemma_head_links_from(s, 0);
    assert(link_ok(s, ms[0], 0));
    assert(link_ok(s, ms[1], 0));
    let (a0, e0) = ms[0];
    let (a1, e1) = ms[1];
    assert(e0 + 7 <= a1);
    let h = s.subrange(a0, e0);
    assert forall|q: int| 0 <= q < h.len() implies is_hex(#[trigger] h[q]) by {
        assert(h[q] == s[a0 + q]);
    }
    lemma_hex_free(h);
    reveal_strlit("...");
    let dots = "..."@;
    lemma_free_without_h(dots);
    lemma_free_concat(h, dots);
    lemma_beta_branch_free(beta_minor);
    lemma_free_concat(h + dots, beta);
    let r = h + dots + beta;
    assert(r[0] == h[0]);
    assert(r.last() == '0');
    lemma_free_loose(r);
    assert forall|q: int| #[trigger] occurs_at(s, head_word(), q) && q > 0 && q != e0 && q
        != e1 implies !is_hex(s[q - 1]) by {
        if is_hex(s[q - 1]) {
            lemma_hex_preceded_ends_link(s, q);
            let k = choose|k: int| 0 <= k < ms.len() && (#[trigger] ms[k]).1 == q;
        }
    }
    lemma_loose_stretch(s, 0, a0);
    lemma_loose_stretch(s, e0 + 7, a1);
    lemma_loose_stretch(s, e1 + 7, s.len() as int);
    assert(s.take(a0) == s.subrange(0, a0));
    assert(s.skip(e1 + 7) == s.subrange(e1 + 7, s.len() as int));
    let p1 = s.take(a0);
    let p2 = s.subrange(e0 + 7, a1);
    let p3 = s.skip(e1 + 7);
    lemma_loose_concat(p1, r);
    assert((p1 + r).last() == '0');
    lemma_loose_concat(p1 + r, p2);
    assert((p1 + r + p2).len() == 0 || p2.len() > 0 || (p1 + r + p2).last() == '0');
    lemma_loose_concat(p1 + r + p2, r);
    assert((p1 + r + p2 + r).last() == '0');
    lemma_loose_concat(p1 + r + p2 + r, p3);
}

/// The rolled changelog with the beta entries added still has no `...HEAD`
/// that ends a link.
proof fn lemma_added_loose(
    changelog: Seq<char>,
    beta_minor: nat,
    beta_prs: Seq<(u32, Seq<char>, Seq<char>)>,
)
    requires
        rolled_head_links(changelog, beta_branch(beta_minor)) is Some,
        with_added_entries(
            (rolled_head_links(changelog, beta_branch(beta_minor))->0).0,
            pr_links(beta_prs),
        ) is Some,
        no_head_word_after_links(changelog),
        entries_free_of_head_word(beta_prs),
    ensures
        loose_head_words(
            with_added_entries(
                (rolled_head_links(changelog, beta_branch(beta_minor))->0).0,
                pr_links(beta_prs),
            )->0,
        ),
{
    let rolled = (rolled_head_links(changelog, beta_branch(beta_minor))->0).0;
    lemma_rolled_loose(changelog, beta_minor);
    let e1 = pr_links(beta_prs);
    lemma_pr_links_free(beta_prs);
    lemma_free_loose(e1);
    reveal_strlit("### Added\n");
    let added_word = "### Added\n"@;
    lemma_find_from(rolled, added_word, 0);
    let i = find(rolled, added_word)->0;
    assert(rolled.subrange(i, i + added_word.len())[0] == added_word[0]);
    lemma_loose_subrange(rolled, 0, i);
    lemma_loose_subrange(rolled, i, rolled.len() as int);
    assert(rolled.take(i) == rolled.subrange(0, i));
    let rest = rolled.subrange(i, rolled.len() as int);
    assert(rest[0] == '#');
    assert(!occurs_at(rest, head_word(), 0)) by {
        if occurs_at(rest, head_word(), 0) {
            assert(rest.subrange(0, 7)[0] == head_word()[0]);
        }
    }
    assert(rolled.skip(i) == rest);
    lemma_loose_concat(rolled.take(i), e1);
    lemma_loose_concat(rolled.take(i) + e1, rest);
}

/// Where the `...HEAD`s of `x{short}...HEAD y{short}...HEAD z` are: the two
/// shown, and others that follow a character that is not a hexadecimal digit.
#[verifier::rlimit(40)]
proof fn lemma_two_head_words(
    f: Seq<char>,
    x: Seq<char>,
    short: Seq<char>,
    y: Seq<char>,
    z: Seq<char>,
)
    requires
        f == x + (short + (head_word() + (y + (short + (head_word() + z))))),
        loose_head_words(x),
        !occurs_at(x, head_word(), 0),
        x.len() >= 1,
        free_of_head_word(y),
        loose_head_words(z),
        y.len() >= 1 && !head_word_tail(y[0]),
        z.len() == 0 || !head_word_tail(z[0]),
        short.len() == 8,
        forall|q: int| 0 <= q < 8 ==> is_hex(#[trigger] short[q]),
    ensures
        occurs_at(f, head_word(), x.len() as int + 8),
        occurs_at(f, head_word(), x.len() as int + 23 + y.len() as int),
        forall|p: int|
            #[trigger] occurs_at(f, head_word(), p) ==> p == x.len() + 8 || p == x.len() + 23
                + y.len() || (p > 0 && !is_hex(f[p - 1])),
{
    let w = head_word();
    lemma_hex_free(short);
    let t5 = short + (w + z);
    let t4 = y + t5;
    let t3 = w + t4;
    let t2 = short + t3;
    let a = x.len() as int;
    let b = a + 15 + y.len();
    assert(t2[0] == short[0]);
    assert(t3[0] == '.');
    assert(short.last() == short[7]);
    assert(t4[0] == y[0]);
    assert(t5[0] == short[0]);
    assert((w + z)[0] == '.');
    assert forall|p: int| #[trigger] occurs_at(f, w, p) implies p == a + 8 || p == b + 8 || (p > 0
        && !is_hex(f[p - 1])) by {
        lemma_head_word_in_concat(x, t2, p);
        if p > 0 && !occurs_at(x, w, p) {
            lemma_head_word_before(x, t2, p);
            let p1 = p - a;
            lemma_head_word_before(short, t3, p1);
            if p1 != 8 {
                let p2 = p1 - 8;
                lemma_head_word_before(w, t4, p2);
                let p3 = p2 - 7;
                lemma_head_word_before(y, t5, p3);
                let p4 = p3 - y.len();
                lemma_head_word_before(short, w + z, p4);
                if p4 != 8 {
                    let p5 = p4 - 8;
                    lemma_head_word_before(w, z, p5);
                }
            }
        }
    }
    assert(f.subrange(a + 8, a + 15) =~= w);
    assert(f.subrange(b + 8, b + 15) =~= w);
}

/// No link starts in `[lo, a)` when every `...HEAD` that starts there follows
/// a character that is not a hexadecimal digit, and the character before `a`
/// (if any follows) is not one.
proof fn lemma_no_link_before(s: Seq<char>, lo: int, a: int, q: int)
    requires
        0 <= lo <= q < a <= s.len(),
        a == s.len() || !is_hex(s[a - 1]),
        forall|e: int|
            #[trigger] occurs_at(s, head_word(), e) && lo <= e < a ==> e > 0 && !is_hex(s[e - 1]),
    ensures
        !head_link_at(s, q),
{
    if head_link_at(s, q) {
        lemma_hex_end(s, q + 1);
        let e = hex_end(s, q);
        assert(e == hex_end(s, q + 1));
        assert(occurs_at(s, head_word(), e));
        assert(is_hex(s[e - 1]));
        if a < s.len() && e >= a {
            assert(is_hex(s[a - 1]));
        }
    }
}

/// Text whose `...HEAD`s are the two after the eight hexadecimal digits at
/// `a` and at `b`, each preceded by a character that is not one, and others
/// that follow such a character, holds exactly the links at `a` and `b`.
proof fn lemma_links_at(f: Seq<char>, a: int, b: int)
    requires
        0 < a,
        a + 15 <= b,
        b + 15 <= f.len(),
        !is_hex(f[a - 1]),
        !is_hex(f[b - 1]),
        forall|q: int| a <= q < a + 8 ==> is_hex(#[trigger] f[q]),
        forall|q: int| b <= q < b + 8 ==> is_hex(#[trigger] f[q]),
        occurs_at(f, head_word(), a + 8),
        occurs_at(f, head_word(), b + 8),
        forall|p: int|
            #[trigger] occurs_at(f, head_word(), p) ==> p == a + 8 || p == b + 8 || (p > 0
                && !is_hex(f[p - 1])),
    ensures
        head_links_from(f, 0) == seq![(a, a + 8), (b, b + 8)],
{
    let w = head_word();
    let q1 = a + 8;
    let q2 = b + 8;
    assert(f.subrange(q1, q1 + 7)[0] == w[0]);
    assert(f.subrange(q2, q2 + 7)[0] == w[0]);
    lemma_hex_run_end(f, a, q1);
    lemma_hex_run_end(f, b, q2);
    assert forall|q: int| 0 <= q < a implies !#[trigger] head_link_at(f, q) by {
        lemma_no_link_before(f, 0, a, q);
    }
    lemma_links_skip(f, 0, a);
    assert(head_link_at(f, a));
    assert(head_links_from(f, a) == seq![(a, q1)] + head_links_from(f, q1 + 7));
    assert forall|q: int| q1 + 7 <= q < b implies !#[trigger] head_link_at(f, q) by {
        lemma_no_link_before(f, q1 + 7, b, q);
    }
    lemma_links_skip(f, q1 + 7, b);
    assert(head_link_at(f, b));
    assert(head_links_from(f, b) == seq![(b, q2)] + head_links_from(f, q2 + 7));
    assert forall|q: int| q2 + 7 <= q < f.len() implies !#[trigger] head_link_at(f, q) by {
        lemma_no_link_before(f, q2 + 7, f.len() as int, q);
    }
    lemma_links_skip(f, q2 + 7, f.len() as int);
    assert(head_links_from(f, f.len() as int) =~= Seq::<(int, int)>::empty());
    assert(head_links_from(f, 0) =~= seq![(a, q1), (b, q2)]);
}

/// Text of the shape `x{short}...HEAD y{short}...HEAD z`, where `short` is
/// eight hexadecimal digits preceded by characters that are not and every
/// other `...HEAD` follows such a character, holds exactly the two links
/// shown, both `{short}...HEAD`; rolling it over succeeds and starts at
/// `short`.
#[verifier::rlimit(40)]
proof fn lemma_two_links(
    f: Seq<char>,
    x: Seq<char>,
    short: Seq<char>,
    y: Seq<char>,
    z: Seq<char>,
)
    requires
        f == x + short + head_word() + y + short + head_word() + z,
        loose_head_words(x),
        !occurs_at(x, head_word(), 0),
        free_of_head_word(y),
        loose_head_words(z),
        x.len() >= 1 && !is_hex(x.last()),
        y.len() >= 1 && !is_hex(y.last()) && !head_word_tail(y[0]),
        z.len() == 0 || !head_word_tail(z[0]),
        short.len() == 8,
        forall|q: int| 0 <= q < 8 ==> is_hex(#[trigger] short[q]),
    ensures
        head_links_from(f, 0).len() == 2,
        link_text(f, head_links_from(f, 0)[0]) == short + head_word(),
        link_text(f, head_links_from(f, 0)[1]) == short + head_word(),
        forall|next: Seq<char>|
            #[trigger] rolled_head_links(f, next) matches Some((_, h)) && h == short,
{
    let w = head_word();
    assert(f =~= x + (short + (w + (y + (short + (w + z))))));
    lemma_two_head_words(f, x, short, y, z);
    let a = x.len() as int;
    let b = a + 15 + y.len();
    assert(f[a - 1] == x.last());
    assert(f[b - 1] == y.last());
    assert forall|q: int| a <= q < a + 8 implies is_hex(#[trigger] f[q]) by {
        assert(f[q] == short[q - a]);
    }
    assert forall|q: int| b <= q < b + 8 implies is_hex(#[trigger] f[q]) by {
        assert(f[q] == short[q - b]);
    }
    lemma_links_at(f, a, b);
    assert(f.subrange(a, a + 15) =~= short + w);
    assert(f.subrange(b, b + 15) =~= short + w);
    assert(f.subrange(a, a + 8) =~= short);
}

/// A changelog whose `...HEAD`s end no link, given a new release section
/// whose range starts at the eight hexadecimal digits `short`, holds exactly
/// the section's two links, both `{short}...HEAD`.
proof fn lemma_section_links(
    added: Seq<char>,
    minor: nat,
    date: Seq<char>,
    short: Seq<char>,
    entries: Seq<char>,
)
    requires
        loose_head_words(added),
        starts_with(added, changelog_title()),
        free_of_head_word(date),
        free_of_head_word(entries),
        short.len() == 8,
        forall|q: int| 0 <= q < 8 ==> is_hex(#[trigger] short[q]),
    ensures
        head_links_from(with_release_section(added, minor, date, short, entries)->0, 0).len()
            == 2,
        link_text(
            with_release_section(added, minor, date, short, entries)->0,
            head_links_from(with_release_section(added, minor, date, short, entries)->0, 0)[0],
        ) == short + head_word(),
        link_text(
            with_release_section(added, minor, date, short, entries)->0,
            head_links_from(with_release_section(added, minor, date, short, entries)->0, 0)[1],
        ) == short + head_word(),
        forall|next: Seq<char>|
            #[trigger] rolled_head_links(
                with_release_section(added, minor, date, short, entries)->0,
                next,
            ) matches Some((_, h)) && h == short,
{
    let w = head_word();
    let prepared = with_release_section(added, minor, date, short, entries)->0;
    assert(added.len() >= 12);
    assert(added[0] == changelog_title()[0]);
    lemma_section_pieces();
    let lit1 = "\n## Cargo 1."@;
    let lit2 = " ("@;
    let lit3 = ")\n["@;
    let b_lit = "](https://github.com/rust-lang/cargo/compare/"@;
    let lit4 = ")\n\n"@;
    let tail =
        "\n\n### Added\n\n### Changed\n\n### Fixed\n\n### Nightly only\n\n### Documentation\n\n### Internal\n\n"@;
    let dec = decimal(minor);
    lemma_decimal_free(minor);
    lemma_free_concat(lit1, dec);
    lemma_free_concat(lit1 + dec, lit2);
    lemma_free_concat(lit1 + dec + lit2, date);
    lemma_free_concat(lit1 + dec + lit2 + date, lit3);
    let p1 = lit1 + dec + lit2 + date + lit3;
    lemma_free_loose(p1);
    lemma_loose_subrange(added, 0, 12);
    lemma_loose_subrange(added, 12, added.len() as int);
    let head = added.subrange(0, 12);
    let rest = added.subrange(12, added.len() as int);
    lemma_loose_concat(head, p1);
    let x = head + p1;
    assert(x.last() == '[');
    assert(x[0] == '#');
    assert(!occurs_at(x, w, 0)) by {
        if occurs_at(x, w, 0) {
            assert(x.subrange(0, 7)[0] == w[0]);
        }
    }
    lemma_free_concat(lit4, entries);
    lemma_free_concat(lit4 + entries, tail);
    let c0 = lit4 + entries + tail;
    lemma_free_loose(c0);
    assert(c0.last() == '\n');
    lemma_loose_concat(c0, rest);
    let z = c0 + rest;
    assert(z[0] == ')');
    let section = release_section(minor, date, short, entries);
    assert(section =~= p1 + short + w + b_lit + short + w + c0);
    assert(prepared =~= head + section + rest);
    assert(prepared =~= x + short + w + b_lit + short + w + z);
    lemma_two_links(prepared, x, short, b_lit, z);
}

/// A prepared changelog passes the same check on the next run: it holds
/// exactly two `HASH...HEAD` links, both `{short}...HEAD`, so rolling it
/// over again succeeds and starts the next beta range at `short`. This holds
/// when `short` is eight hexadecimal digits, neither the date nor any PR
/// description or URL spells `...HEAD`, and no `...HEAD` of the changelog
/// starts right after one of its links (the rolled link would end in the
/// digit `0` before it and make it a third link).
pub proof fn lemma_prepared_changelog_rolls_again(
    changelog: Seq<char>,
    beta_minor: nat,
    beta_prs: Seq<(u32, Seq<char>, Seq<char>)>,
    minor: nat,
    date: Seq<char>,
    short: Seq<char>,
    master_prs: Seq<(u32, Seq<char>, Seq<char>)>,
    prepared: Seq<char>,
)
    requires
        prepared_changelog(changelog, beta_minor, beta_prs, minor, date, short, master_prs)
            == Some(prepared),
        no_head_word_after_links(changelog),
        short.len() == 8,
        forall|q: int| 0 <= q < 8 ==> is_hex(#[trigger] short[q]),
        free_of_head_word(date),
        entries_free_of_head_word(beta_prs),
        entries_free_of_head_word(master_prs),
    ensures
        head_links_from(prepared, 0).len() == 2,
        link_text(prepared, head_links_from(prepared, 0)[0]) == short + head_word(),
        link_text(prepared, head_links_from(prepared, 0)[1]) == short + head_word(),
        forall|next: Seq<char>|
            #[trigger] rolled_head_links(prepared, next) matches Some((_, h)) && h == short,
{
    let rolled = (rolled_head_links(changelog, beta_branch(beta_minor))->0).0;
    lemma_added_loose(changelog, beta_minor, beta_prs);
    let added = with_added_entries(rolled, pr_links(beta_prs))->0;
    lemma_pr_links_free(master_prs);
    lemma_section_links(added, minor, date, short, pr_links(master_prs));
}

} // verus!
