//! What is asked of the registry for the newest version of a package, and
//! what is read from its answer.

use vstd::prelude::*;
use vstd::string::*;
use crate::record::option_text;

verus! {

/// The text that the JSON document holds under the key `inner` of the
/// object under its key `outer`, as `serde_json` reads it; none where the
/// text is no JSON document, or holds no text there.
pub uninterp spec fn json_text_at(document: Seq<char>, outer: Seq<char>, inner: Seq<char>) -> Option<
    Seq<char>,
>;

/// Parses the document with `serde_json::from_str` into a
/// `serde_json::Value`, indexes it by the two keys, and takes the text with
/// `Value::as_str`.
///
/// Trusted: the result is, by definition, [`json_text_at`] of the three
/// texts.
#[verifier::external_body]
fn text_at(document: &str, outer: &str, inner: &str) -> (r: Option<String>)
    ensures
        option_text(r) == json_text_at(document@, outer@, inner@),
{
    let value: serde_json::Value = serde_json::from_str(document).ok()?;
    value[outer][inner].as_str().map(|text| text.to_string())
}

/// The address under which the registry describes a package.
pub fn registry_url(package: &str) -> (url: String)
    ensures
        url@ == "https://crates.io/api/v1/crates/"@ + package@,
{
    let mut url = "https://crates.io/api/v1/crates/".to_owned();
    url.append(package);
    url
}

/// The newest version that the registry's answer names: the text under
/// `newest_version` of the object under `crate`.
pub fn newest_version(answer: &str) -> (r: Option<String>)
    ensures
        option_text(r) == json_text_at(answer@, "crate"@, "newest_version"@),
{
    text_at(answer, "crate", "newest_version")
}

} // verus!
