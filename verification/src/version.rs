//! Cargo's version: bumping the package version in `Cargo.toml` and dating
//! the release that a version belongs to.
use vstd::prelude::*;
use crate::calendar::gregorian_date;
use crate::text::{
    chars_of, copy_range, decimal, decimal_chars, extend_chars, extend_str, find, find_chars,
    lemma_decimal_digits, lemma_find_from, lemma_find_from_first, occurs_at, padded_decimal,
    padded_decimal_chars, string_of,
};

verus! {

// ---------------------------------------------------------------------------
// semver
// ---------------------------------------------------------------------------

#[verifier::external_type_specification]
#[verifier::external_body]
pub struct ExSemverError(semver::Error);

/// Name for what `semver::Version::parse` finds in `text`: the major, minor
/// and patch numbers of the version, or `None` when it rejects the text.
pub uninterp spec fn semver_core(text: Seq<char>) -> Option<(u64, u64, u64)>;

/// `semver::Version::parse`: the version's major, minor and patch numbers,
/// or semver's error. The contract says only that the numbers are those of
/// `semver_core`; what semver accepts is not stated.
#[verifier::external_body]
fn semver_parse(text: &str) -> (r: Result<(u64, u64, u64), semver::Error>)
    ensures
        r matches Ok(v) ==> semver_core(text@) == Some(v),
        r is Err ==> semver_core(text@) is None,
{
    match semver::Version::parse(text) {
        Ok(v) => Ok((v.major, v.minor, v.patch)),
        Err(e) => Err(e),
    }
}

/// How semver writes a version without pre-release or build metadata:
/// `major.minor.patch`.
pub open spec fn version_text(major: nat, minor: nat, patch: nat) -> Seq<char> {
    decimal(major) + seq!['.'] + decimal(minor) + seq!['.'] + decimal(patch)
}

/// The text `major.minor.patch` of a version without pre-release or build
/// metadata.
pub fn version_string(major: u64, minor: u64, patch: u64) -> (r: String)
    ensures
        r@ == version_text(major as nat, minor as nat, patch as nat),
{
    let mut v = decimal_chars(major);
    v.push('.');
    let b = decimal_chars(minor);
    extend_chars(&mut v, &b);
    v.push('.');
    let c = decimal_chars(patch);
    extend_chars(&mut v, &c);
    string_of(&v)
}

// ---------------------------------------------------------------------------
// Bumping the package version
// ---------------------------------------------------------------------------

/// Why the package version in `Cargo.toml` could not be bumped.
#[derive(Debug, Clone, Copy, PartialEq, Eq)]
pub enum BumpError {
    /// No line `version = "` in the manifest.
    NoPackageVersion,
    /// The version has no closing quote.
    UnterminatedVersion,
    /// semver rejects the version.
    InvalidVersion,
    /// The version is not `0.x`.
    NotZeroMajor,
    /// The minor version is already `u64::MAX`.
    MinorOverflow,
}

/// A line break followed by `version = "`.
pub open spec fn version_key() -> Seq<char> {
    seq!['\n', 'v', 'e', 'r', 's', 'i', 'o', 'n', ' ', '=', ' ', '"']
}

/// Where the package version's text starts in the manifest and how long it
/// is: after the first `\nversion = "`, up to the next `"`.
pub open spec fn version_span(m: Seq<char>) -> Result<(int, int), BumpError> {
    match find(m, version_key()) {
        None => Err(BumpError::NoPackageVersion),
        Some(i) => match find(m.skip(i + 12), seq!['"']) {
            None => Err(BumpError::UnterminatedVersion),
            Some(l) => Ok((i + 12, l)),
        },
    }
}

/// The manifest with the version text at `start..start + len` bumped, given
/// what semver read from that text: from `0.x.y` to `0.(x+1).0`, with the new
/// minor version.
pub open spec fn bumped_from(
    m: Seq<char>,
    start: int,
    len: int,
    parsed: Option<(u64, u64, u64)>,
) -> Result<(Seq<char>, u64), BumpError> {
    match parsed {
        None => Err(BumpError::InvalidVersion),
        Some((major, minor, _patch)) => if major != 0 {
            Err(BumpError::NotZeroMajor)
        } else if minor == u64::MAX {
            Err(BumpError::MinorOverflow)
        } else {
            Ok(
                (
                    m.take(start) + version_text(0, (minor + 1) as nat, 0) + m.skip(start + len),
                    (minor + 1) as u64,
                ),
            )
        },
    }
}

/// The manifest with its version bumped from `0.x.y` to `0.(x+1).0`, and the
/// new minor version.
pub open spec fn bumped_manifest(m: Seq<char>) -> Result<(Seq<char>, u64), BumpError> {
    match version_span(m) {
        Err(e) => Err(e),
        Ok((start, len)) => bumped_from(m, start, len, semver_core(m.subrange(start, start + len))),
    }
}

/// Where the package version's text lies in the manifest.
pub fn package_version_span(manifest: &str) -> (r: Result<(usize, usize), BumpError>)
    ensures
        r matches Ok((a, l)) ==> version_span(manifest@) == Ok::<(int, int), BumpError>(
            (a as int, l as int),
        ) && a + l <= manifest@.len(),
        r matches Err(e) ==> version_span(manifest@) == Err::<(int, int), BumpError>(e),
{
    let s = chars_of(manifest);
    let key = vec!['\n', 'v', 'e', 'r', 's', 'i', 'o', 'n', ' ', '=', ' ', '"'];
    assert(key@ =~= version_key());
    match find_chars(&s, &key) {
        None => Err(BumpError::NoPackageVersion),
        Some(i) => {
            proof {
                lemma_find_from(s@, key@, 0);
            }
            assert(key@.len() == 12);
            let n = s.len();
            assert(i + 12 <= n);
            let rest = copy_range(&s, i + 12, s.len());
            assert(rest@ =~= s@.skip(i + 12));
            let quote = vec!['"'];
            assert(quote@ =~= seq!['"']);
            match find_chars(&rest, &quote) {
                None => Err(BumpError::UnterminatedVersion),
                Some(l) => {
                    proof {
                        lemma_find_from(rest@, quote@, 0);
                    }
                    Ok((i + 12, l))
                },
            }
        },
    }
}

/// Bumps the package version of a `0.x` Cargo manifest to the next minor
/// version: returns the new manifest and the new minor version.
pub fn bump_manifest_version(manifest: &str) -> (r: Result<(String, u64), BumpError>)
    ensures
        r matches Ok((m, minor)) ==> bumped_manifest(manifest@) == Ok::<
            (Seq<char>, u64),
            BumpError,
        >((m@, minor)),
        r matches Err(e) ==> bumped_manifest(manifest@) == Err::<(Seq<char>, u64), BumpError>(e),
{
    let (start, len) = match package_version_span(manifest) {
        Ok(span) => span,
        Err(e) => return Err(e),
    };
    let s = chars_of(manifest);
    let n = s.len();
    assert(start + len <= n);
    let text_chars = copy_range(&s, start, start + len);
    let text = string_of(&text_chars);
    let parsed = match semver_parse(text.as_str()) {
        Ok(v) => Some(v),
        Err(_) => None,
    };
    bump_parsed_version(manifest, start, len, parsed)
}

/// Bumps the version text at `start..start + len` of a manifest, given what
/// semver read from it (`None` if it rejected the text): from `0.x.y` to
/// `0.(x+1).0`. Returns the new manifest and the new minor version.
pub fn bump_parsed_version(
    manifest: &str,
    start: usize,
    len: usize,
    parsed: Option<(u64, u64, u64)>,
) -> (r: Result<(String, u64), BumpError>)
    requires
        start + len <= manifest@.len(),
    ensures
        r matches Ok((m, minor)) ==> bumped_from(manifest@, start as int, len as int, parsed)
            == Ok::<(Seq<char>, u64), BumpError>((m@, minor)),
        r matches Err(e) ==> bumped_from(manifest@, start as int, len as int, parsed) == Err::<
            (Seq<char>, u64),
            BumpError,
        >(e),
{
    let (major, minor, _patch) = match parsed {
        Some(v) => v,
        None => return Err(BumpError::InvalidVersion),
    };
    if major != 0 {
        return Err(BumpError::NotZeroMajor);
    }
    if minor == u64::MAX {
        return Err(BumpError::MinorOverflow);
    }
    let s = chars_of(manifest);
    let n = s.len();
    assert(start + len <= n);
    let next = version_string(0, minor + 1, 0);
    let mut out = copy_range(&s, 0, start);
    extend_str(&mut out, next.as_str());
    let tail = copy_range(&s, start + len, s.len());
    extend_chars(&mut out, &tail);
    assert(s@.subrange(0, start as int) =~= s@.take(start as int));
    assert(s@.subrange(start + len, s@.len() as int) =~= s@.skip(start + len));
    Ok((string_of(&out), minor + 1))
}

/// After a bump, the manifest's package version reads as the new version:
/// looking for it again finds `0.{minor}.0`, where the old version was.
pub proof fn lemma_bumped_version_reads_back(m: Seq<char>)
    requires
        bumped_manifest(m) is Ok,
    ensures
        match (bumped_manifest(m), version_span(m)) {
            (Ok((n, minor)), Ok((start, _len))) => {
                let vt = version_text(0, minor as nat, 0);
                &&& version_span(n) == Ok::<(int, int), BumpError>((start, vt.len() as int))
                &&& n.subrange(start, start + vt.len()) == vt
            },
            _ => false,
        },
{
    let key = version_key();
    let i = find(m, key)->0;
    lemma_find_from(m, key, 0);
    let start = i + 12;
    let rest = m.skip(start);
    let l = find(rest, seq!['"'])->0;
    lemma_find_from(rest, seq!['"'], 0);
    let (major, minor, patch) = semver_core(m.subrange(start, start + l))->0;
    let vt = version_text(0, (minor + 1) as nat, 0);
    let n = m.take(start) + vt + m.skip(start + l);
    assert(bumped_manifest(m) == Ok::<(Seq<char>, u64), BumpError>((n, (minor + 1) as u64)));
    // The key is still where it was, and nowhere before.
    assert(n.subrange(i, i + 12) =~= m.subrange(i, i + 12));
    assert(occurs_at(n, key, i));
    assert(key.len() == 12);
    assert forall|j: int| 0 <= j < i implies !occurs_at(n, key, j) by {
        assert(!occurs_at(m, key, j));
        if j + 12 <= n.len() {
            assert(n.subrange(j, j + 12) =~= m.subrange(j, j + 12));
        }
    }
    lemma_find_from_first(n, key, 0, i);
    // The new version holds no quote; the old closing quote follows it.
    lemma_decimal_digits((minor + 1) as nat);
    lemma_decimal_digits(0);
    let nrest = n.skip(start);
    assert(nrest =~= vt + m.skip(start + l));
    assert(rest.subrange(l, l + 1) == seq!['"']);
    assert(nrest[vt.len() as int] == rest[l]);
    assert(occurs_at(nrest, seq!['"'], vt.len() as int)) by {
        assert(nrest.subrange(vt.len() as int, vt.len() + 1int) =~= seq!['"']);
    }
    assert forall|j: int| 0 <= j < vt.len() implies !occurs_at(nrest, seq!['"'], j) by {
        assert(nrest.subrange(j, j + 1)[0] == vt[j]);
        if j < decimal(0).len() {
            assert(vt[j] == decimal(0)[j]);
        } else if j == decimal(0).len() {
        } else if j < decimal(0).len() + 1 + decimal((minor + 1) as nat).len() {
            assert(vt[j] == decimal((minor + 1) as nat)[j - decimal(0).len() - 1]);
        } else if j == decimal(0).len() + 1 + decimal((minor + 1) as nat).len() {
        } else {
            assert(vt[j] == decimal(0)[j - decimal(0).len() - 2 - decimal(
                (minor + 1) as nat,
            ).len()]);
        }
    }
    lemma_find_from_first(nrest, seq!['"'], 0, vt.len() as int);
    assert(n.subrange(start, start + vt.len()) =~= vt);
}

/// The commit message for the bump to `0.{minor}.0`.
pub open spec fn bump_message(minor: nat) -> Seq<char> {
    "chore: bump to "@ + version_text(0, minor, 0)
}

/// The commit message for the bump to `0.{minor}.0`.
pub fn bump_commit_message(minor: u64) -> (r: String)
    ensures
        r@ == bump_message(minor as nat),
{
    let mut v: Vec<char> = Vec::new();
    extend_str(&mut v, "chore: bump to ");
    let t = version_string(0, minor, 0);
    extend_str(&mut v, t.as_str());
    string_of(&v)
}

/// The commit message for the changelog of Cargo `1.{minor}.0`.
pub open spec fn changelog_message(minor: nat) -> Seq<char> {
    "docs(changelog): 1."@ + decimal(minor) + ".0 update"@
}

/// The commit message for the changelog of Cargo `1.{minor}.0`.
pub fn changelog_commit_message(minor: u64) -> (r: String)
    ensures
        r@ == changelog_message(minor as nat),
{
    let mut v: Vec<char> = Vec::new();
    extend_str(&mut v, "docs(changelog): 1.");
    let d = decimal_chars(minor);
    extend_chars(&mut v, &d);
    extend_str(&mut v, ".0 update");
    string_of(&v)
}

// ---------------------------------------------------------------------------
// Release dates (the `time` crate)
// ---------------------------------------------------------------------------

/// The Julian day of the first `time::Date`, -9999-01-01.
pub open spec fn first_julian_day() -> int {
    -1930999
}

/// The Julian day of the last `time::Date`, 9999-12-31.
pub open spec fn last_julian_day() -> int {
    5373484
}

/// The Julian day of the day before January 1 of year 1: Julian day `jd` is
/// day `jd - 1721425` as chrono numbers days.
pub open spec fn julian_day_offset() -> int {
    1721425
}

/// The calendar date `(year, month, day)` of a Julian day, as
/// `time::Date::from_julian_day(..).to_calendar_date()` computes it: its
/// proleptic Gregorian date.
pub open spec fn calendar_of_julian_day(jd: int) -> (i32, u8, u8) {
    let g = gregorian_date(jd - julian_day_offset());
    (g.0 as i32, g.1 as u8, g.2 as u8)
}

/// `time::Date::from_julian_day(jd)` followed by `to_calendar_date`: the year,
/// the month (1 to 12) and the day of the month (1 to 31).
#[verifier::external_body]
pub(crate) fn julian_day_calendar(jd: i32) -> (r: (i32, u8, u8))
    requires
        first_julian_day() <= jd <= last_julian_day(),
    ensures
        r == calendar_of_julian_day(jd as int),
        1 <= r.1 <= 12,
        1 <= r.2 <= 31,
{
    let (y, m, d) = time::Date::from_julian_day(jd).unwrap().to_calendar_date();
    (y, m as u8, d)
}

/// A date as the `time` format `[year]-[month]-[day]` writes it: the year
/// zero-padded to four digits (with a `-` before negative years), month and
/// day zero-padded to two digits.
pub open spec fn iso_date_text(y: int, m: nat, d: nat) -> Seq<char> {
    (if y < 0 {
        seq!['-'] + padded_decimal((-y) as nat, 4)
    } else {
        padded_decimal(y as nat, 4)
    }) + seq!['-'] + padded_decimal(m, 2) + seq!['-'] + padded_decimal(d, 2)
}

/// Writes a date as `YYYY-MM-DD`.
pub fn iso_date(y: i32, m: u8, d: u8) -> (r: String)
    ensures
        r@ == iso_date_text(y as int, m as nat, d as nat),
{
    let mut v: Vec<char> = Vec::new();
    if y < 0 {
        v.push('-');
        let p = padded_decimal_chars((-(y as i64)) as u64, 4);
        extend_chars(&mut v, &p);
    } else {
        let p = padded_decimal_chars(y as u64, 4);
        extend_chars(&mut v, &p);
    }
    v.push('-');
    let pm = padded_decimal_chars(m as u64, 2);
    extend_chars(&mut v, &pm);
    v.push('-');
    let pd = padded_decimal_chars(d as u64, 2);
    extend_chars(&mut v, &pd);
    string_of(&v)
}

/// The Julian day of 2015-05-15, the day Cargo 1.0 was released.
pub open spec fn cargo_one_julian_day() -> int {
    2457158
}

/// The Julian day on which nightly `0.{minor}` becomes a release: releases
/// come every six weeks after 2015-05-15, dated the day before.
pub open spec fn release_julian_day(minor: nat) -> int {
    cargo_one_julian_day() + (minor - 1) * 42 - 1
}

/// The minor versions whose release date the `time` crate can represent.
pub open spec fn dated_minor(minor: nat) -> bool {
    1 <= minor && release_julian_day(minor) <= last_julian_day()
}

/// The Julian day of the release of nightly `0.{minor}`.
pub fn next_version_julian_day(minor: u64) -> (r: i32)
    requires
        dated_minor(minor as nat),
    ensures
        r as int == release_julian_day(minor as nat),
{
    let days = (minor - 1) * 42;
    (2457158 + days - 1) as i32
}

/// The release date of nightly `0.{minor}` as `YYYY-MM-DD`.
pub open spec fn release_date_text(minor: nat) -> Seq<char> {
    let c = calendar_of_julian_day(release_julian_day(minor));
    iso_date_text(c.0 as int, c.1 as nat, c.2 as nat)
}

/// The release date of the nightly with the given minor version, as
/// `YYYY-MM-DD`.
pub fn next_version_date(minor: u64) -> (r: String)
    requires
        dated_minor(minor as nat),
    ensures
        r@ == release_date_text(minor as nat),
{
    let jd = next_version_julian_day(minor);
    let (y, m, d) = julian_day_calendar(jd);
    iso_date(y, m, d)
}

/// The release date of nightly `0.{minor}`, or `None` for a minor version
/// whose date is out of the `time` crate's range.
pub fn checked_next_version_date(minor: u64) -> (r: Option<String>)
    ensures
        r matches Some(t) ==> dated_minor(minor as nat) && t@ == release_date_text(minor as nat),
        r is None ==> !dated_minor(minor as nat),
{
    if minor == 0 || minor > 69437 {
        return None;
    }
    Some(next_version_date(minor))
}

/// Releases are six weeks apart.
pub proof fn lemma_releases_six_weeks_apart(minor: nat)
    requires
        1 <= minor,
    ensures
        release_julian_day(minor + 1) == release_julian_day(minor) + 42,
{
}

} // verus!
