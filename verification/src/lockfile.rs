//! Reading the records from the text of a lock file, which `cargo_lock`
//! does.
//!
//! Only plain text is handed to `cargo_lock`: text in ASCII without a
//! backslash. On such a text every value that `cargo_lock` takes apart is
//! ASCII as well, since a file can bring other characters into a value only
//! by holding them or by an escape. Lock files as `cargo` writes them are
//! plain; one that is not is refused here, even where `cargo_lock` would
//! read it.

use vstd::prelude::*;
use vstd::string::*;
use vstd::utf8::is_ascii_chars;
use crate::record::{records_view, Dependency, PackageRecord, RecordView};

verus! {

/// The error with which `cargo_lock` refuses a text.
#[verifier::external_type_specification]
#[verifier::external_body]
pub struct ExLockfileError(cargo_lock::Error);

/// The packages that `cargo_lock` reads from the text of a lock file, in the
/// order of the file; none where it refuses the text.
pub uninterp spec fn lockfile_packages(text: Seq<char>) -> Option<Seq<RecordView>>;

/// The text is in ASCII and holds no backslash.
pub open spec fn is_plain(text: Seq<char>) -> bool {
    &&& is_ascii_chars(text)
    &&& forall|i: int| 0 <= i < text.len() ==> text[i] != '\\'
}

/// What is said of a text that is not plain.
pub open spec fn not_plain_message() -> Seq<char> {
    "the lock file holds a backslash or a character outside ASCII"@
}

/// The lock file could not be read.
#[derive(Debug, PartialEq, Eq)]
pub struct ParseFailure {
    /// What was wrong with it: [`not_plain_message`], or what `cargo_lock`
    /// said of it.
    pub message: String,
}

/// Parses the text as a `cargo_lock::Lockfile` and hands out its packages,
/// each with its name, its version as `semver` writes it, its source and
/// checksum as `cargo_lock` writes them, and its dependencies and
/// replacement likewise.
///
/// Trusted: the result is, by definition, [`lockfile_packages`] of the
/// text. The text has to be plain: `cargo_lock` cuts a checksum of 64 bytes
/// into pairs of bytes, which fails on a character of several bytes.
#[verifier::external_body]
fn read_packages(text: &str) -> (r: Result<Vec<PackageRecord>, cargo_lock::Error>)
    requires
        is_plain(text@),
    ensures
        match r {
            Ok(records) => lockfile_packages(text@) == Some(records_view(records@)),
            Err(_) => lockfile_packages(text@) is None,
        },
{
    let lockfile = text.parse::<cargo_lock::Lockfile>()?;
    let plain = |d: &cargo_lock::Dependency| Dependency {
        name: d.name.to_string(),
        version: d.version.to_string(),
        source: d.source.as_ref().map(ToString::to_string),
    };
    Ok(lockfile.packages.iter().map(|p| PackageRecord {
        name: p.name.to_string(),
        version: p.version.to_string(),
        source: p.source.as_ref().map(ToString::to_string),
        checksum: p.checksum.as_ref().map(ToString::to_string),
        dependencies: p.dependencies.iter().map(plain).collect(),
        replace: p.replace.as_ref().map(plain),
    }).collect())
}

/// Writes the error with its `Display`.
///
/// Trusted, and nothing is claimed of the text.
#[verifier::external_body]
fn error_message(error: &cargo_lock::Error) -> String {
    error.to_string()
}

/// Whether the text is plain: see [`is_plain`].
pub fn plain(text: &str) -> (b: bool)
    ensures
        b == is_plain(text@),
{
    if !text.is_ascii() {
        return false;
    }
    let bytes = text.as_bytes();
    proof {
        is_ascii_spec_bytes(text);
    }
    let mut i: usize = 0;
    while i < bytes.len()
        invariant
            i <= bytes.len(),
            is_ascii_chars(text@),
            bytes@ =~= Seq::new(text@.len(), |k: int| text@.index(k) as u8),
            forall|k: int| 0 <= k < i ==> text@[k] != '\\',
        decreases bytes.len() - i,
    {
        if bytes[i] == 92 {
            proof {
                assert(text@[i as int] as u8 == 92);
                assert(text@[i as int] == '\\');
            }
            return false;
        }
        proof {
            assert(text@[i as int] as u8 != 92);
        }
        i += 1;
    }
    true
}

/// Reads the records from the text of a lock file.
///
/// They are the packages that `cargo_lock` finds in the text. Where it
/// refuses the text, so does this, with its message. A text that is not
/// plain is refused before `cargo_lock` sees it, with
/// [`not_plain_message`].
pub fn parse_lockfile(text: &str) -> (r: Result<Vec<PackageRecord>, ParseFailure>)
    ensures
        r is Ok <==> is_plain(text@) && lockfile_packages(text@) is Some,
        r matches Ok(records) ==> lockfile_packages(text@) == Some(records_view(records@)),
        r matches Err(failure) ==> (!is_plain(text@) ==> failure.message@ == not_plain_message()),
{
    if !plain(text) {
        return Err(
            ParseFailure {
                message: "the lock file holds a backslash or a character outside ASCII".to_owned(),
            },
        );
    }
    match read_packages(text) {
        Ok(records) => Ok(records),
        Err(error) => Err(ParseFailure { message: error_message(&error) }),
    }
}

} // verus!
