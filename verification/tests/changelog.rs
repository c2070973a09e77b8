use cargo_team_tools::changelog::{
    beta_branch_name, commits_in_log, format_pr_links, has_changelog_title, insert_added_entries,
    insert_release_section, partition_documented, roll_head_links, short_hash, ChangelogError,
};
use regex::Regex;

/// The PRs as the regular expressions of the release script read them.
fn regex_commits(log: &str) -> Result<Vec<(u32, String, String)>, String> {
    let commit_re = Regex::new("(?m)^commit ").unwrap();
    let merge_re =
        Regex::new(r"(?:Auto merge of|Merge pull request) #([0-9]+)|\(#([0-9]+)\)$").unwrap();
    commit_re
        .split(log)
        .filter(|commit| !commit.trim().is_empty())
        .filter_map(|commit| {
            let mut lines = commit
                .lines()
                .filter(|line| !line.trim().is_empty() && line.starts_with(' '))
                .map(str::trim);
            let first = lines.next()?;
            let captures = merge_re.captures(first)?;
            let (capture, description) = match (captures.get(1), captures.get(2)) {
                (Some(capture), _) => (capture, lines.next().unwrap_or_default().to_owned()),
                (_, Some(capture)) => {
                    let mut title = first.to_owned();
                    let range = (capture.range().start - 2)..=capture.range().end;
                    title.replace_range(range, "");
                    (capture, title.trim_end().to_owned())
                }
                (None, None) => unreachable!(),
            };
            let number = match capture.as_str().parse::<u32>() {
                Ok(number) => number,
                Err(_) => return Some(Err(capture.as_str().to_owned())),
            };
            Some(Ok((
                number,
                format!("https://github.com/rust-lang/cargo/pull/{number}"),
                description,
            )))
        })
        .collect()
}

const LOG: &str = "commit 1111111111111111111111111111111111111111
Merge: aaaa bbbb
Author: bors <bors@rust-lang.org>
Date:   Mon Jan 1 00:00:00 2024 +0000

    Auto merge of #13000 - someone:branch, r=ehuss

    Add a new flag to cargo build

commit 2222222222222222222222222222222222222222
Author: Someone <someone@example.com>
Date:   Tue Jan 2 00:00:00 2024 +0000

    fix(resolver): prefer newer versions (#13005)

    Longer body here.

commit 3333333333333333333333333333333333333333
Author: Someone <someone@example.com>

    chore: no pull request here

commit 4444444444444444444444444444444444444444
Merge: cccc dddd

    Merge pull request #13010 from someone/topic

commit 5555555555555555555555555555555555555555

    docs: mention (#12) in the middle and end (#13011)
";

#[test]
fn commits_in_log_reads_merges_and_squashes() {
    let prs = commits_in_log(LOG).unwrap();
    assert_eq!(
        prs,
        vec![
            (
                13000,
                "https://github.com/rust-lang/cargo/pull/13000".to_owned(),
                "Add a new flag to cargo build".to_owned()
            ),
            (
                13005,
                "https://github.com/rust-lang/cargo/pull/13005".to_owned(),
                "fix(resolver): prefer newer versions".to_owned()
            ),
            (13010, "https://github.com/rust-lang/cargo/pull/13010".to_owned(), String::new()),
            (
                13011,
                "https://github.com/rust-lang/cargo/pull/13011".to_owned(),
                "docs: mention (#12) in the middle and end".to_owned()
            ),
        ]
    );
    assert_eq!(Ok(prs), regex_commits(LOG));
}

#[test]
fn commits_in_log_agrees_with_the_regexes() {
    let logs = [
        "",
        "commit x\n",
        "commit abc\n\n    Merge pull request #7\n    second\n",
        "commit abc\n\n    Auto merge of #12 - x\ncommit def\n    Merge pull request #34 from y\n",
        "intro\ncommit a\n    (#5)\n",
        "commit a\n    Title (#)\n",
        "commit a\n    Title (#5) trailing\n",
        "commit a\n    Auto merge of #\n    Merge pull request #9\n",
        "commit a\r\n    Fix the thing (#77)\r\n",
        "  commit a\n    (#1)\n",
        "commit a\n\tnot indented (#3)\n    indented (#4)\n",
        "commit a\n    Auto merge of #4294967296 - overflow\n",
        "commit a\n    Big (#99999999999)\n",
    ];
    for log in logs {
        let ours = commits_in_log(log).map_err(|e| match e {
            ChangelogError::PrNumberTooLarge(d) => d,
            other => panic!("{other:?}"),
        });
        assert_eq!(ours, regex_commits(log), "{log:?}");
    }
}

#[test]
fn too_large_pr_number_is_an_error() {
    assert_eq!(
        commits_in_log("commit a\n    Auto merge of #4294967296 - x\n"),
        Err(ChangelogError::PrNumberTooLarge("4294967296".to_owned()))
    );
    assert!(commits_in_log("commit a\n    Auto merge of #4294967295 - x\n").is_ok());
}

#[test]
fn pr_links_are_formatted_one_per_entry() {
    let prs = vec![
        (1, "https://x/1".to_owned(), "First".to_owned()),
        (22, "https://x/22".to_owned(), "Second".to_owned()),
    ];
    assert_eq!(
        format_pr_links(&prs),
        "- First \n  [#1](https://x/1)\n- Second \n  [#22](https://x/22)\n"
    );
    assert_eq!(format_pr_links(&[]), "");
}

/// The link rolling as the release script's regex does it.
fn regex_roll(changelog: &str, beta: &str) -> Option<(String, String)> {
    let head_re = Regex::new(r"([a-f0-9]+)\.\.\.HEAD").unwrap();
    let matches = head_re.captures_iter(changelog).collect::<Vec<_>>();
    if matches.len() != 2
        || matches[0].get(0).unwrap().as_str() != matches[1].get(0).unwrap().as_str()
    {
        return None;
    }
    let start = matches[0].get(1).unwrap().as_str().to_owned();
    let rolled = head_re.replace_all(changelog, format!("{start}...{beta}")).into_owned();
    Some((rolled, start))
}

#[test]
fn head_links_roll_over_to_the_beta_branch() {
    let changelog = "# Changelog\n\n## Cargo 1.80 (2024-07-25)\n[abc123...HEAD](https://github.com/rust-lang/cargo/compare/abc123...HEAD)\n";
    let (rolled, hash) = roll_head_links(changelog, "rust-1.80.0").unwrap();
    assert_eq!(hash, "abc123");
    assert_eq!(
        rolled,
        "# Changelog\n\n## Cargo 1.80 (2024-07-25)\n[abc123...rust-1.80.0](https://github.com/rust-lang/cargo/compare/abc123...rust-1.80.0)\n"
    );
    assert_eq!(Some((rolled, hash)), regex_roll(changelog, "rust-1.80.0"));
}

#[test]
fn head_link_rolling_agrees_with_the_regex() {
    let texts = [
        "",
        "abc...HEAD",
        "abc...HEAD abc...HEAD",
        "abc...HEAD abd...HEAD",
        "xyz...HEAD ...HEAD abc...HEAD abc...HEAD",
        "ab...HEAD...HEADab...HEAD",
        "ABC...HEAD abc...HEAD abc...HEAD",
        "g12...HEAD 12...HEAD",
        "1...HEAD 1...HEAD 1...HEAD",
        "cafe...HEA cafe...HEAD",
    ];
    for t in texts {
        let ours = roll_head_links(t, "rust-1.2.0").ok();
        assert_eq!(ours, regex_roll(t, "rust-1.2.0"), "{t:?}");
    }
    assert_eq!(roll_head_links("abc...HEAD", "b"), Err(ChangelogError::HeadLinks));
}

#[test]
fn added_entries_go_before_the_first_added_heading() {
    let c = "# Changelog\nintro\n### Added\nx\n### Added\n";
    assert_eq!(
        insert_added_entries(c, "- new\n").unwrap(),
        "# Changelog\nintro\n- new\n### Added\nx\n### Added\n"
    );
    assert_eq!(insert_added_entries("# Changelog\n", "- new\n"), Err(ChangelogError::MissingAdded));
}

#[test]
fn release_section_follows_the_title() {
    let c = "# Changelog\n\n## Cargo 1.80\n";
    let out = insert_release_section(c, 81, "2024-09-05", "abcdef12", "- pr\n").unwrap();
    let expected = format!(
        "# Changelog\n{}\n## Cargo 1.80\n",
        "\n## Cargo 1.81 (2024-09-05)\n[abcdef12...HEAD](https://github.com/rust-lang/cargo/compare/abcdef12...HEAD)\n\n- pr\n\n\n### Added\n\n### Changed\n\n### Fixed\n\n### Nightly only\n\n### Documentation\n\n### Internal\n\n"
    );
    assert_eq!(out, expected);
    assert_eq!(
        insert_release_section("# Changes\n", 81, "d", "h", ""),
        Err(ChangelogError::MissingTitle)
    );
}

#[test]
fn beta_branch_and_short_hash() {
    assert_eq!(beta_branch_name(79), "rust-1.79.0");
    assert_eq!(short_hash("0123456789abcdef"), "01234567");
}

#[test]
fn documented_prs_are_set_apart() {
    let changelog = "- Old \n  [#10](u)\n- Other [#12] here\n";
    let prs = vec![
        (10, "u10".to_owned(), "a".to_owned()),
        (11, "u11".to_owned(), "b".to_owned()),
        (12, "u12".to_owned(), "c".to_owned()),
        (1, "u1".to_owned(), "d".to_owned()),
    ];
    let (documented, fresh) = partition_documented(changelog, prs);
    assert_eq!(documented.iter().map(|p| p.0).collect::<Vec<_>>(), vec![10, 12]);
    assert_eq!(fresh.iter().map(|p| p.0).collect::<Vec<_>>(), vec![11, 1]);
}

#[test]
fn prs_just_added_count_as_documented() {
    let prs = vec![(42, "https://x/42".to_owned(), "Thing".to_owned())];
    let links = format_pr_links(&prs);
    let changelog = insert_added_entries("# Changelog\n### Added\n", &links).unwrap();
    let (documented, fresh) = partition_documented(&changelog, prs);
    assert_eq!(documented.len(), 1);
    assert!(fresh.is_empty());
}

#[test]
fn prepared_changelog_rolls_again() {
    let changelog = "# Changelog\n\n## Cargo 1.90 (2025-09-18)\n[0123abcd...HEAD](https://github.com/rust-lang/cargo/compare/0123abcd...HEAD)\n\n### Added\n\n- old entry\n";
    let (rolled, start) = roll_head_links(changelog, "rust-1.90.0").unwrap();
    assert_eq!(start, "0123abcd");
    let beta = format_pr_links(&[(15000, "https://github.com/rust-lang/cargo/pull/15000".to_string(), "fix: beta".to_string())]);
    let added = insert_added_entries(&rolled, &beta).unwrap();
    let master = format_pr_links(&[(15100, "https://github.com/rust-lang/cargo/pull/15100".to_string(), "feat: nightly".to_string())]);
    let hash = "89abcdef0123456789abcdef0123456789abcdef";
    let short = short_hash(hash);
    let prepared = insert_release_section(&added, 91, "2025-10-30", short, &master).unwrap();
    // The next run's check passes, and its beta range starts at `short`.
    let (again, next_start) = roll_head_links(&prepared, "rust-1.91.0").unwrap();
    assert_eq!(next_start, short);
    assert_eq!(Some((again, next_start)), regex_roll(&prepared, "rust-1.91.0"));
    assert_eq!(Regex::new(r"([a-f0-9]+)\.\.\.HEAD").unwrap().find_iter(&prepared).count(), 2);
    assert!(prepared.contains("[0123abcd...rust-1.90.0]"));
}

#[test]
fn changelog_title_check() {
    assert!(has_changelog_title("# Changelog\n\n## Cargo 1.91"));
    assert!(!has_changelog_title("# Changelog"));
    assert!(!has_changelog_title("## Changelog\n"));
    assert_eq!(
        insert_release_section("# Change log\n", 1, "d", "s", ""),
        Err(ChangelogError::MissingTitle)
    );
}

#[test]
fn stray_head_words_do_not_stop_the_next_roll() {
    // A `...HEAD` after a non-hex character is no link, before or after.
    let changelog = "# Changelog\n\n## Cargo 1.90 (2025-09-18)\n[0123abcd...HEAD](https://github.com/rust-lang/cargo/compare/0123abcd...HEAD)\n\nSee `git log x...HEAD`.\n\n### Added\n\n";
    let (rolled, _) = roll_head_links(changelog, "rust-1.90.0").unwrap();
    let added = insert_added_entries(&rolled, "").unwrap();
    let prepared = insert_release_section(&added, 91, "2025-10-30", "89abcdef", "").unwrap();
    let (_, next_start) = roll_head_links(&prepared, "rust-1.91.0").unwrap();
    assert_eq!(next_start, "89abcdef");
    assert_eq!(regex_roll(&prepared, "rust-1.91.0").map(|r| r.1), Some("89abcdef".to_string()));
}

#[test]
fn head_word_right_after_a_link_makes_a_third_link() {
    // Rolling ends the link in `...rust-1.90.0`, whose last `0` turns a
    // `...HEAD` right after it into a link: the next check fails.
    let changelog = "# Changelog\n[ab...HEAD...HEAD](u/ab...HEAD)\n### Added\n";
    let (rolled, _) = roll_head_links(changelog, "rust-1.90.0").unwrap();
    let added = insert_added_entries(&rolled, "").unwrap();
    let prepared = insert_release_section(&added, 91, "d", "89abcdef", "").unwrap();
    assert_eq!(roll_head_links(&prepared, "rust-1.91.0"), Err(ChangelogError::HeadLinks));
    assert_eq!(regex_roll(&prepared, "rust-1.91.0"), None);
}
