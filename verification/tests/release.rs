use cargo_team_tools::release::{
    branch_hash, check_beta_matches, check_checkout, check_clean, check_remote, submodule_hash,
    ReleaseError,
};
use cargo_team_tools::version::{
    bump_commit_message, bump_manifest_version, bump_parsed_version, changelog_commit_message,
    checked_next_version_date, iso_date, next_version_date, next_version_julian_day,
    package_version_span, version_string, BumpError,
};

const MANIFEST: &str = "[workspace]\nresolver = \"2\"\n\n[package]\nname = \"cargo\"\nversion = \"0.84.0\"\nedition = \"2021\"\n";

#[test]
fn manifest_version_bumps_to_next_minor() {
    let (m, minor) = bump_manifest_version(MANIFEST).unwrap();
    assert_eq!(minor, 85);
    assert_eq!(m, MANIFEST.replace("0.84.0", "0.85.0"));
}

#[test]
fn manifest_bump_errors() {
    assert_eq!(bump_manifest_version("[package]\nname = \"x\"\n"), Err(BumpError::NoPackageVersion));
    assert_eq!(bump_manifest_version("x\nversion = \"0.1.0"), Err(BumpError::UnterminatedVersion));
    assert_eq!(bump_manifest_version("x\nversion = \"zero\"\n"), Err(BumpError::InvalidVersion));
    assert_eq!(bump_manifest_version("x\nversion = \"1.2.3\"\n"), Err(BumpError::NotZeroMajor));
    let max = format!("x\nversion = \"0.{}.0\"\n", u64::MAX);
    assert_eq!(bump_manifest_version(&max), Err(BumpError::MinorOverflow));
}

#[test]
fn bump_keeps_pre_release_out_of_the_new_version() {
    let (m, minor) = bump_manifest_version("a\nversion = \"0.9.3-beta.1\"\nb").unwrap();
    assert_eq!(minor, 10);
    assert_eq!(m, "a\nversion = \"0.10.0\"\nb");
}

#[test]
fn version_span_finds_the_quoted_text() {
    let (start, len) = package_version_span(MANIFEST).unwrap();
    let chars: Vec<char> = MANIFEST.chars().collect();
    assert_eq!(chars[start..start + len].iter().collect::<String>(), "0.84.0");
}

#[test]
fn commit_messages() {
    assert_eq!(bump_commit_message(85), "chore: bump to 0.85.0");
    assert_eq!(changelog_commit_message(84), "docs(changelog): 1.84.0 update");
}

fn time_release_date(minor: u64) -> String {
    let first = time::Date::from_calendar_date(2015, time::Month::May, 15).unwrap();
    let next_days = ((minor - 1) * 42) as i64;
    let next_date = first + time::Duration::days(next_days - 1);
    let format = time::format_description::parse("[year]-[month]-[day]").unwrap();
    next_date.format(&format).unwrap()
}

#[test]
fn release_dates_match_the_time_crate() {
    assert_eq!(next_version_date(1), "2015-05-14");
    assert_eq!(next_version_date(85), "2025-01-09");
    for minor in [1, 2, 50, 84, 85, 100, 1000, 69437] {
        assert_eq!(next_version_date(minor), time_release_date(minor), "{minor}");
    }
    assert_eq!(next_version_julian_day(2) - next_version_julian_day(1), 42);
    assert_eq!(checked_next_version_date(0), None);
    assert_eq!(checked_next_version_date(69438), None);
    assert_eq!(checked_next_version_date(85).as_deref(), Some("2025-01-09"));
}

#[test]
fn iso_dates_pad_year_month_and_day() {
    assert_eq!(iso_date(987, 3, 4), "0987-03-04");
    assert_eq!(iso_date(-5, 12, 31), "-0005-12-31");
}

#[test]
fn checkout_checks() {
    assert_eq!(check_checkout("", "https://github.com/rust-lang/cargo.git"), Ok(()));
    assert_eq!(check_checkout(" M Cargo.toml", "x"), Err(ReleaseError::DirtyCheckout));
    assert_eq!(
        check_checkout("", "git@github.com:me/cargo.git"),
        Err(ReleaseError::NotCargoRemote)
    );
    assert_eq!(check_clean(""), Ok(()));
    assert_eq!(check_clean("?? new.rs"), Err(ReleaseError::DirtyCheckout));
    assert_eq!(check_remote("https://github.com/rust-lang/cargo.git"), Ok(()));
    assert_eq!(check_remote("cargo.git"), Err(ReleaseError::NotCargoRemote));
}

#[test]
fn submodule_entry_parsing() {
    let h = "0123456789abcdef0123456789abcdef01234567";
    assert_eq!(submodule_hash(&format!("160000 commit {h}\tsrc/tools/cargo")).unwrap(), h);
    assert_eq!(submodule_hash("100644 blob x src/tools/cargo"), Err(ReleaseError::UnexpectedSubmoduleEntry));
    assert_eq!(submodule_hash("160000 commit"), Err(ReleaseError::MissingSubmoduleHash));
    assert_eq!(submodule_hash("160000 commit h other"), Err(ReleaseError::UnexpectedSubmoduleEntry));
    assert_eq!(
        submodule_hash("160000 commit h src/tools/cargo extra"),
        Err(ReleaseError::UnexpectedSubmoduleEntry)
    );
    assert_eq!(submodule_hash(""), Err(ReleaseError::UnexpectedSubmoduleEntry));
}

#[test]
fn branch_line_and_beta_match() {
    assert_eq!(branch_hash("abc refs/remotes/origin/rust-1.80.0").unwrap(), "abc");
    assert_eq!(branch_hash("   "), Err(ReleaseError::MissingBranchHash));
    assert_eq!(check_beta_matches("a", "a"), Ok(()));
    assert_eq!(check_beta_matches("a", "b"), Err(ReleaseError::BetaMismatch));
}

#[test]
fn parsed_versions_bump() {
    let (start, len) = package_version_span(MANIFEST).unwrap();
    let (m, minor) = bump_parsed_version(MANIFEST, start, len, Some((0, 84, 0))).unwrap();
    assert_eq!(minor, 85);
    assert!(m.contains("\nversion = \"0.85.0\"\n"));
    // The new text follows the parsed numbers, not the text itself.
    let (m, minor) = bump_parsed_version(MANIFEST, start, len, Some((0, 9, 3))).unwrap();
    assert_eq!(minor, 10);
    assert!(m.contains("version = \"0.10.0\""));
    assert_eq!(bump_parsed_version(MANIFEST, start, len, None), Err(BumpError::InvalidVersion));
    assert_eq!(bump_parsed_version(MANIFEST, start, len, Some((1, 0, 0))), Err(BumpError::NotZeroMajor));
    assert_eq!(
        bump_parsed_version(MANIFEST, start, len, Some((0, u64::MAX, 0))),
        Err(BumpError::MinorOverflow)
    );
}

#[test]
fn version_strings_match_semver() {
    for (a, b, c) in [(0, 0, 0), (0, 85, 0), (1, 2, 3), (10, 200, 3000), (u64::MAX, 0, 7)] {
        assert_eq!(version_string(a, b, c), semver::Version::new(a, b, c).to_string());
    }
}
