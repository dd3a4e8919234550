//! Semantic versions, as the `semver` crate reads and orders them.
//!
//! Versions travel through the library as text. Whether a text is a version,
//! and how two versions compare, are decided by `semver`; the two facts are
//! named here and everything else is proved over those names.

use vstd::prelude::*;
use crate::names::Order;

verus! {

/// Whether `semver::Version::parse` accepts `text`.
pub uninterp spec fn is_semver(text: Seq<char>) -> bool;

/// How `semver` orders the version written `a` against the one written `b`.
/// Meaningful where both texts are versions.
pub uninterp spec fn semver_order(a: Seq<char>, b: Seq<char>) -> Order;

/// The texts of a sequence of strings.
pub open spec fn texts(strings: Seq<String>) -> Seq<Seq<char>> {
    strings.map_values(|s: String| s@)
}

/// Every text of `versions` is a version.
pub open spec fn all_semver(versions: Seq<Seq<char>>) -> bool {
    forall|i: int| 0 <= i < versions.len() ==> is_semver(#[trigger] versions[i])
}

/// The two texts are versions that `semver` holds equal.
pub open spec fn same_version(a: Seq<char>, b: Seq<char>) -> bool {
    semver_order(a, b) == Order::Equal
}

/// Position of the greatest version, found from left to right; of several
/// greatest ones the last. Zero for the empty sequence.
pub open spec fn max_index(versions: Seq<Seq<char>>) -> int
    decreases versions.len(),
{
    if versions.len() <= 1 {
        0
    } else {
        let m = max_index(versions.drop_last());
        if semver_order(versions.last(), versions[m]) == Order::Less {
            m
        } else {
            versions.len() - 1
        }
    }
}

/// No version of `versions` is greater than the one at `m`, and every one
/// behind `m` is smaller.
pub open spec fn is_maximum_at(versions: Seq<Seq<char>>, m: int) -> bool {
    &&& 0 <= m < versions.len()
    &&& forall|j: int|
        0 <= j < versions.len() && j != m ==> #[trigger] semver_order(versions[j], versions[m])
            != Order::Greater
    &&& forall|j: int|
        m < j < versions.len() ==> #[trigger] semver_order(versions[j], versions[m])
            == Order::Less
}

/// Calls `semver::Version::parse` and reports whether it succeeded.
///
/// Trusted: the result is, by definition, [`is_semver`] of the text.
#[verifier::external_body]
pub(crate) fn parses(text: &str) -> (ok: bool)
    ensures
        ok == is_semver(text@),
{
    semver::Version::parse(text).is_ok()
}

/// Parses both texts with `semver::Version::parse` and compares the versions
/// with `Ord::cmp`.
///
/// Trusted: the result is [`semver_order`] of the two texts, and `semver`
/// documents that order as total. Of a total order this states two laws:
/// exchanging the operands reverses the outcome, and whatever is at most `b`
/// is at most any `a` that `b` does not exceed.
#[verifier::external_body]
pub(crate) fn compare_versions(a: &str, b: &str) -> (o: Order)
    requires
        is_semver(a@),
        is_semver(b@),
    ensures
        o == semver_order(a@, b@),
        semver_order(b@, a@) == o.reversed(),
        forall|c: Seq<char>|
            is_semver(c) && #[trigger] semver_order(c, b@) != Order::Greater && o != Order::Less
                ==> semver_order(c, a@) != Order::Greater,
{
    let left = semver::Version::parse(a).unwrap();
    let right = semver::Version::parse(b).unwrap();
    match left.cmp(&right) {
        std::cmp::Ordering::Less => Order::Less,
        std::cmp::Ordering::Equal => Order::Equal,
        std::cmp::Ordering::Greater => Order::Greater,
    }
}

/// Parses the text with `semver::Version::parse` and writes the version back
/// with its `Display`.
///
/// Trusted: `semver` writes a version as it read it. It refuses a number
/// with a leading zero, so that the three numbers come back digit for
/// digit, and it keeps the pre-release and the build as they were read.
#[verifier::external_body]
pub(crate) fn written_version(text: &str) -> (out: String)
    requires
        is_semver(text@),
    ensures
        out@ == text@,
{
    semver::Version::parse(text).unwrap().to_string()
}

/// Position of the first text that is no version, if there is one.
pub fn first_invalid(versions: &Vec<String>) -> (r: Option<usize>)
    ensures
        match r {
            Some(k) => {
                &&& k < versions.len()
                &&& !is_semver(versions[k as int]@)
                &&& forall|j: int| 0 <= j < k ==> is_semver(#[trigger] versions[j]@)
            },
            None => all_semver(texts(versions@)),
        },
{
    let mut i: usize = 0;
    while i < versions.len()
        invariant
            i <= versions.len(),
            forall|j: int| 0 <= j < i ==> is_semver(#[trigger] versions[j]@),
        decreases versions.len() - i,
    {
        if !parses(versions[i].as_str()) {
            return Some(i);
        }
        i += 1;
    }
    proof {
        assert forall|j: int| 0 <= j < texts(versions@).len() implies is_semver(
            #[trigger] texts(versions@)[j],
        ) by {
            assert(texts(versions@)[j] == versions[j]@);
        }
    }
    None
}

/// Position of the greatest of the given versions: the local maximum that
/// stands in for the newest release when no other source is asked.
///
/// There is one exactly when the list is not empty and holds versions only.
/// No version of the list is then greater than the one returned.
pub fn local_maximum(versions: &Vec<String>) -> (r: Option<usize>)
    ensures
        r is Some <==> versions.len() > 0 && all_semver(texts(versions@)),
        r matches Some(m) ==> m == max_index(texts(versions@)) && is_maximum_at(
            texts(versions@),
            m as int,
        ),
{
    if versions.len() == 0 {
        return None;
    }
    match first_invalid(versions) {
        Some(k) => {
            proof {
                assert(texts(versions@)[k as int] == versions[k as int]@);
            }
            return None;
        },
        None => {},
    }
    let ghost vs = texts(versions@);
    let mut best: usize = 0;
    let mut i: usize = 1;
    proof {
        assert(vs.take(1).len() == 1);
    }
    while i < versions.len()
        invariant
            vs == texts(versions@),
            all_semver(vs),
            1 <= i <= versions.len(),
            best < i,
            best == max_index(vs.take(i as int)),
            forall|j: int|
                0 <= j < i && j != best ==> #[trigger] semver_order(vs[j], vs[best as int])
                    != Order::Greater,
            forall|j: int|
                best < j < i ==> #[trigger] semver_order(vs[j], vs[best as int]) == Order::Less,
        decreases versions.len() - i,
    {
        proof {
            assert(vs[i as int] == versions[i as int]@);
            assert(vs[best as int] == versions[best as int]@);
            assert(is_semver(vs[i as int]));
            assert(is_semver(vs[best as int]));
            assert(vs.take(i + 1).drop_last() =~= vs.take(i as int));
        }
        let o = compare_versions(versions[i].as_str(), versions[best].as_str());
        if o != Order::Less {
            proof {
                assert forall|j: int| 0 <= j < i + 1 && j != i implies #[trigger] semver_order(
                    vs[j],
                    vs[i as int],
                ) != Order::Greater by {
                    if j != best {
                        assert(is_semver(vs[j]));
                        assert(semver_order(vs[j], vs[best as int]) != Order::Greater);
                    }
                }
            }
            best = i;
        }
        i += 1;
    }
    proof {
        assert(vs.take(i as int) =~= vs);
    }
    Some(best)
}

} // verus!
