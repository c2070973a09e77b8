//! Checks made while preparing a Cargo release: the checkout is clean and
//! points at rust-lang/cargo, and the Rust beta uses the tip of Cargo's beta
//! branch.
use vstd::prelude::*;
use crate::text::{chars_eq, chars_of, ends_with, occurs_at_exec, string_of, views, words, words_of};

verus! {

/// Why a release cannot be prepared.
#[derive(Debug, Clone, Copy, PartialEq, Eq, Structural)]
pub enum ReleaseError {
    /// `git status --porcelain` reports changes.
    DirtyCheckout,
    /// The remote's URL does not end in `rust-lang/cargo.git`.
    NotCargoRemote,
    /// The `ls-tree` entry for `src/tools/cargo` is not a submodule commit.
    UnexpectedSubmoduleEntry,
    /// The submodule entry has no hash.
    MissingSubmoduleHash,
    /// The `show-ref` line for the beta branch has no hash.
    MissingBranchHash,
    /// Rust's beta uses another Cargo commit than the tip of Cargo's beta
    /// branch.
    BetaMismatch,
}

/// The outcome of checking the checkout: clean, with a remote whose URL
/// ends in `rust-lang/cargo.git`.
pub open spec fn checkout_check(status: Seq<char>, remote_url: Seq<char>) -> Result<(), ReleaseError> {
    if status.len() != 0 {
        Err(ReleaseError::DirtyCheckout)
    } else if !ends_with(remote_url, "rust-lang/cargo.git"@) {
        Err(ReleaseError::NotCargoRemote)
    } else {
        Ok(())
    }
}

/// Checks that the checkout has no changes (`status` is the trimmed output of
/// `git status --porcelain`).
pub fn check_clean(status: &str) -> (r: Result<(), ReleaseError>)
    ensures
        r == (if status@.len() == 0 {
            Ok(())
        } else {
            Err(ReleaseError::DirtyCheckout)
        }),
{
    if !status.is_empty() {
        return Err(ReleaseError::DirtyCheckout);
    }
    Ok(())
}

/// Checks that the remote's URL ends in `rust-lang/cargo.git`.
pub fn check_remote(remote_url: &str) -> (r: Result<(), ReleaseError>)
    ensures
        r == (if ends_with(remote_url@, "rust-lang/cargo.git"@) {
            Ok(())
        } else {
            Err(ReleaseError::NotCargoRemote)
        }),
{
    let u = chars_of(remote_url);
    let suffix = chars_of("rust-lang/cargo.git");
    if suffix.len() > u.len() || !occurs_at_exec(&u, &suffix, u.len() - suffix.len()) {
        return Err(ReleaseError::NotCargoRemote);
    }
    Ok(())
}

/// Checks that the checkout has no changes (`status` is the trimmed output of
/// `git status --porcelain`) and that its remote is rust-lang/cargo; the
/// changes are reported first.
pub fn check_checkout(status: &str, remote_url: &str) -> (r: Result<(), ReleaseError>)
    ensures
        r == checkout_check(status@, remote_url@),
{
    match check_clean(status) {
        Err(e) => Err(e),
        Ok(()) => check_remote(remote_url),
    }
}

/// The hash in a `git ls-tree` entry for the Cargo submodule: exactly the
/// words `160000 commit {hash} src/tools/cargo`.
pub open spec fn submodule_entry_hash(ws: Seq<Seq<char>>) -> Result<Seq<char>, ReleaseError> {
    if ws.len() < 2 || ws[0] != "160000"@ || ws[1] != "commit"@ {
        Err(ReleaseError::UnexpectedSubmoduleEntry)
    } else if ws.len() < 3 {
        Err(ReleaseError::MissingSubmoduleHash)
    } else if ws.len() != 4 || ws[3] != "src/tools/cargo"@ {
        Err(ReleaseError::UnexpectedSubmoduleEntry)
    } else {
        Ok(ws[2])
    }
}

/// The Cargo commit that the Rust beta uses, from the `git ls-tree` line for
/// `src/tools/cargo`.
pub fn submodule_hash(entry: &str) -> (r: Result<String, ReleaseError>)
    ensures
        r matches Ok(h) ==> submodule_entry_hash(words(entry@)) == Ok::<Seq<char>, ReleaseError>(
            h@,
        ),
        r matches Err(e) ==> submodule_entry_hash(words(entry@)) == Err::<Seq<char>, ReleaseError>(
            e,
        ),
{
    let s = chars_of(entry);
    let ws = words_of(&s);
    if ws.len() < 2 {
        return Err(ReleaseError::UnexpectedSubmoduleEntry);
    }
    assert(views(ws@)[0] == ws@[0]@);
    assert(views(ws@)[1] == ws@[1]@);
    let w0 = chars_of("160000");
    let w1 = chars_of("commit");
    if !chars_eq(&ws[0], &w0) || !chars_eq(&ws[1], &w1) {
        return Err(ReleaseError::UnexpectedSubmoduleEntry);
    }
    if ws.len() < 3 {
        return Err(ReleaseError::MissingSubmoduleHash);
    }
    if ws.len() != 4 {
        return Err(ReleaseError::UnexpectedSubmoduleEntry);
    }
    assert(views(ws@)[2] == ws@[2]@);
    assert(views(ws@)[3] == ws@[3]@);
    let w3 = chars_of("src/tools/cargo");
    if !chars_eq(&ws[3], &w3) {
        return Err(ReleaseError::UnexpectedSubmoduleEntry);
    }
    Ok(string_of(&ws[2]))
}

/// The hash of a `git show-ref` line: its first word.
pub fn branch_hash(line: &str) -> (r: Result<String, ReleaseError>)
    ensures
        r matches Ok(h) ==> words(line@).len() > 0 && h@ == words(line@)[0],
        r matches Err(e) ==> words(line@).len() == 0 && e == ReleaseError::MissingBranchHash,
{
    let s = chars_of(line);
    let ws = words_of(&s);
    if ws.len() == 0 {
        return Err(ReleaseError::MissingBranchHash);
    }
    assert(views(ws@)[0] == ws@[0]@);
    Ok(string_of(&ws[0]))
}

/// Checks that the Rust beta uses the commit at the tip of Cargo's beta
/// branch.
pub fn check_beta_matches(submodule: &str, branch: &str) -> (r: Result<(), ReleaseError>)
    ensures
        r is Ok <==> submodule@ == branch@,
        r matches Err(e) ==> e == ReleaseError::BetaMismatch,
{
    let a = chars_of(submodule);
    let b = chars_of(branch);
    if chars_eq(&a, &b) {
        Ok(())
    } else {
        Err(ReleaseError::BetaMismatch)
    }
}

} // verus!
