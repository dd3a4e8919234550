//! Duplicate detection: which versions of a package are pinned beside the
//! version that is taken as its newest.

use vstd::prelude::*;
use crate::graph::{dependents_of, has_name, lemma_versions_exist, versions_of};
use crate::index::DependencyIndex;
use crate::names::{lemma_name_lt_asymmetric, same_text, Order};
use crate::record::{option_text, records_view, Key, PackageRecord, RecordView};
use crate::version::{all_semver, is_maximum_at, is_semver, max_index, same_version, texts};
use crate::version::{compare_versions, first_invalid, local_maximum, parses, written_version};

verus! {

/// The answer of an outside source that was asked for the newest version of
/// a package.
#[derive(Debug, PartialEq, Eq)]
pub struct Lookup {
    pub package: String,
    pub newest: String,
}

/// Where the newest version of a package is taken from.
#[derive(Debug, PartialEq, Eq)]
pub enum Resolver {
    /// From the versions at hand alone.
    Offline,
    /// From the answers of an outside source, as far as it gave any.
    Online(Vec<Lookup>),
}

/// A version of a package that is pinned although it is not the newest.
#[derive(Debug, PartialEq, Eq)]
pub struct Duplicate {
    pub package: String,
    pub version: String,
    pub latest: String,
    pub users: Vec<PackageRecord>,
}

/// The duplicates of a graph, package by package in the order of the names.
#[derive(Debug, PartialEq, Eq)]
pub struct Response {
    pub duplicates: Vec<Duplicate>,
}

/// A package that was left out because one of its versions is no version.
#[derive(Debug, PartialEq, Eq)]
pub struct InvalidVersion {
    pub package: String,
    pub version: String,
}

/// What the detection found, and what it had to leave out.
#[derive(Debug, PartialEq, Eq)]
pub struct Detection {
    pub response: Response,
    pub failures: Vec<InvalidVersion>,
}

/// What a [`Duplicate`] says.
pub struct DuplicateView {
    pub package: Seq<char>,
    pub version: Seq<char>,
    pub latest: Seq<char>,
    pub users: Seq<RecordView>,
}

/// What an [`InvalidVersion`] says.
pub struct FailureView {
    pub package: Seq<char>,
    pub version: Seq<char>,
}

impl View for Duplicate {
    type V = DuplicateView;

    open spec fn view(&self) -> DuplicateView {
        DuplicateView {
            package: self.package@,
            version: self.version@,
            latest: self.latest@,
            users: records_view(self.users@),
        }
    }
}

impl View for InvalidVersion {
    type V = FailureView;

    open spec fn view(&self) -> FailureView {
        FailureView { package: self.package@, version: self.version@ }
    }
}

/// What a list of duplicates says.
pub open spec fn duplicates_view(found: Seq<Duplicate>) -> Seq<DuplicateView> {
    found.map_values(|d: Duplicate| d@)
}

/// What a list of failures says.
pub open spec fn failures_view(found: Seq<InvalidVersion>) -> Seq<FailureView> {
    found.map_values(|f: InvalidVersion| f@)
}

/// The first answer that the lookups hold for a package.
pub open spec fn first_answer(lookups: Seq<Lookup>, name: Seq<char>) -> Option<Seq<char>>
    decreases lookups.len(),
{
    if lookups.len() == 0 {
        None
    } else if lookups[0].package@ == name {
        Some(lookups[0].newest@)
    } else {
        first_answer(lookups.drop_first(), name)
    }
}

/// The version against which the versions of a package are held: the
/// answer of the outside source where it is a version, and the greatest of
/// the versions at hand where there is no answer or the answer is none.
pub open spec fn reference_version(versions: Seq<Seq<char>>, answer: Option<Seq<char>>) -> Seq<
    char,
> {
    match answer {
        Some(newest) => if is_semver(newest) {
            newest
        } else {
            versions[max_index(versions)]
        },
        None => versions[max_index(versions)],
    }
}

/// The records that depend on a key, in the order of the records.
pub open spec fn users_of(rs: Seq<RecordView>, key: Key) -> Seq<RecordView> {
    dependents_of(rs, key).map_values(|d: int| rs[d])
}

/// One duplicate for each of the versions that is not the reference, in the
/// order of the versions.
pub open spec fn stale_versions(
    rs: Seq<RecordView>,
    name: Seq<char>,
    versions: Seq<Seq<char>>,
    reference: Seq<char>,
) -> Seq<DuplicateView>
    decreases versions.len(),
{
    if versions.len() == 0 {
        Seq::empty()
    } else {
        let before = stale_versions(rs, name, versions.drop_last(), reference);
        let version = versions.last();
        if same_version(version, reference) {
            before
        } else {
            before.push(
                DuplicateView {
                    package: name,
                    version,
                    latest: reference,
                    users: users_of(rs, Key { name, version }),
                },
            )
        }
    }
}

/// Position of the first text that is no version; the length where all are.
pub open spec fn invalid_index(versions: Seq<Seq<char>>) -> int
    decreases versions.len(),
{
    if versions.len() == 0 {
        0
    } else {
        let before = invalid_index(versions.drop_last());
        if before < versions.len() - 1 || !is_semver(versions.last()) {
            before
        } else {
            versions.len() as int
        }
    }
}

/// The duplicates of one package: none where it has a single version or a
/// version that is none.
pub open spec fn package_duplicates(
    rs: Seq<RecordView>,
    name: Seq<char>,
    answer: Option<Seq<char>>,
) -> Seq<DuplicateView> {
    let versions = versions_of(rs, name);
    if versions.len() < 2 || !all_semver(versions) {
        Seq::empty()
    } else {
        stale_versions(rs, name, versions, reference_version(versions, answer))
    }
}

/// The failure of one package: it has several versions, and the first that
/// is none is reported.
pub open spec fn package_failure(rs: Seq<RecordView>, name: Seq<char>) -> Seq<FailureView> {
    let versions = versions_of(rs, name);
    if versions.len() < 2 || all_semver(versions) {
        Seq::empty()
    } else {
        seq![FailureView { package: name, version: versions[invalid_index(versions)] }]
    }
}

impl Resolver {
    /// The answer that the resolver has for a package, if any.
    pub open spec fn answer(&self, name: Seq<char>) -> Option<Seq<char>> {
        match self {
            Resolver::Offline => None,
            Resolver::Online(lookups) => first_answer(lookups@, name),
        }
    }
}

/// Where the package has several versions, all of them versions, none of
/// them is greater than the one that is its reference offline.
pub open spec fn offline_reference_is_greatest(rs: Seq<RecordView>, name: Seq<char>) -> bool {
    let versions = versions_of(rs, name);
    versions.len() >= 2 && all_semver(versions) ==> is_maximum_at(versions, max_index(versions))
}

/// The duplicates of the packages `names`, package by package.
pub open spec fn detected(rs: Seq<RecordView>, names: Seq<Seq<char>>, resolver: Resolver) -> Seq<
    DuplicateView,
>
    decreases names.len(),
{
    if names.len() == 0 {
        Seq::empty()
    } else {
        detected(rs, names.drop_last(), resolver) + package_duplicates(
            rs,
            names.last(),
            resolver.answer(names.last()),
        )
    }
}

/// The failures of the packages `names`, package by package.
pub open spec fn failed(rs: Seq<RecordView>, names: Seq<Seq<char>>) -> Seq<FailureView>
    decreases names.len(),
{
    if names.len() == 0 {
        Seq::empty()
    } else {
        failed(rs, names.drop_last()) + package_failure(rs, names.last())
    }
}

/// Of `names`, those with more than one version.
pub open spec fn repeated_names(rs: Seq<RecordView>, names: Seq<Seq<char>>) -> Seq<Seq<char>>
    decreases names.len(),
{
    if names.len() == 0 {
        Seq::empty()
    } else {
        let before = repeated_names(rs, names.drop_last());
        if versions_of(rs, names.last()).len() >= 2 {
            before.push(names.last())
        } else {
            before
        }
    }
}

/// Where the first text that is no version stands.
proof fn lemma_invalid_index(versions: Seq<Seq<char>>, k: int)
    requires
        0 <= k < versions.len(),
        !is_semver(versions[k]),
        forall|j: int| 0 <= j < k ==> is_semver(#[trigger] versions[j]),
    ensures
        invalid_index(versions) == k,
    decreases versions.len(),
{
    let init = versions.drop_last();
    if k < versions.len() - 1 {
        assert(init[k] == versions[k]);
        assert forall|j: int| 0 <= j < k implies is_semver(#[trigger] init[j]) by {
            assert(init[j] == versions[j]);
        }
        lemma_invalid_index(init, k);
    } else {
        assert forall|j: int| 0 <= j < init.len() implies is_semver(#[trigger] init[j]) by {
            assert(init[j] == versions[j]);
        }
        lemma_all_valid_index(init);
    }
}

proof fn lemma_all_valid_index(versions: Seq<Seq<char>>)
    requires
        forall|j: int| 0 <= j < versions.len() ==> is_semver(#[trigger] versions[j]),
    ensures
        invalid_index(versions) == versions.len(),
    decreases versions.len(),
{
    if versions.len() > 0 {
        let init = versions.drop_last();
        assert forall|j: int| 0 <= j < init.len() implies is_semver(#[trigger] init[j]) by {
            assert(init[j] == versions[j]);
        }
        lemma_all_valid_index(init);
    }
}

impl Resolver {
    /// Looks up the answer for a package.
    pub fn find_answer(&self, name: &str) -> (r: Option<String>)
        ensures
            option_text(r) == self.answer(name@),
    {
        match self {
            Resolver::Offline => None,
            Resolver::Online(lookups) => {
                let mut i: usize = 0;
                proof {
                    assert(lookups@.skip(0) =~= lookups@);
                }
                while i < lookups.len()
                    invariant
                        i <= lookups.len(),
                        self.answer(name@) == first_answer(lookups@, name@),
                        first_answer(lookups@, name@) == first_answer(
                            lookups@.skip(i as int),
                            name@,
                        ),
                    decreases lookups.len() - i,
                {
                    proof {
                        assert(lookups@.skip(i as int).drop_first() =~= lookups@.skip(i + 1));
                        assert(lookups@.skip(i as int)[0] == lookups[i as int]);
                    }
                    if same_text(lookups[i].package.as_str(), name) {
                        return Some(lookups[i].newest.clone());
                    }
                    i += 1;
                }
                None
            },
        }
    }

    /// The version that is taken as the newest of a package, given the
    /// versions of it that are at hand.
    ///
    /// There is one exactly when there are versions at hand and all are
    /// versions. Offline it is the greatest of them: none of them is
    /// greater. Online it is the answer for the package; where there is no
    /// answer, or the answer is no version, it is what it would be offline.
    pub fn latest(&self, name: &str, versions: &Vec<String>) -> (r: Option<String>)
        ensures
            r is Some <==> versions.len() > 0 && all_semver(texts(versions@)),
            r matches Some(newest) ==> {
                &&& newest@ == reference_version(texts(versions@), self.answer(name@))
                &&& is_semver(newest@)
                &&& is_maximum_at(texts(versions@), max_index(texts(versions@)))
            },
            r is Some && self is Offline ==> r->0@ == texts(versions@)[max_index(
                texts(versions@),
            )],
            r is Some && (self.answer(name@) matches Some(a) ==> !is_semver(a)) ==> r->0@ == texts(
                versions@,
            )[max_index(texts(versions@))],
    {
        match local_maximum(versions) {
            None => None,
            Some(m) => {
                proof {
                    assert(texts(versions@)[m as int] == versions[m as int]@);
                }
                match self.find_answer(name) {
                    Some(newest) => {
                        if parses(newest.as_str()) {
                            Some(newest)
                        } else {
                            Some(versions[m].clone())
                        }
                    },
                    None => Some(versions[m].clone()),
                }
            },
        }
    }
}

impl DependencyIndex {
    /// The versions of the `p`-th package.
    fn versions(&self, p: usize) -> (out: Vec<String>)
        requires
            p < self.packages.len(),
        ensures
            texts(out@) == self.packages[p as int].version_texts(),
    {
        let entry = &self.packages[p];
        let mut out: Vec<String> = Vec::new();
        let mut k: usize = 0;
        while k < entry.versions.len()
            invariant
                k <= entry.versions.len(),
                out.len() == k,
                forall|j: int| 0 <= j < k ==> out[j]@ == entry.versions[j].version@,
            decreases entry.versions.len() - k,
        {
            out.push(entry.versions[k].version.clone());
            k += 1;
        }
        proof {
            assert(texts(out@) =~= entry.version_texts());
        }
        out
    }

    /// The records that depend on the `k`-th version of the `p`-th package.
    fn users(&self, p: usize, k: usize) -> (users: Vec<PackageRecord>)
        requires
            self.wf(),
            p < self.packages.len(),
            k < self.packages[p as int].versions.len(),
        ensures
            records_view(users@) == users_of(self.graph(), self.packages[p as int].key(k as int)),
    {
        proof {
            self.lemma_entry(p as int, k as int);
        }
        let entry = &self.packages[p].versions[k];
        let mut users: Vec<PackageRecord> = Vec::new();
        let mut j: usize = 0;
        while j < entry.dependents.len()
            invariant
                j <= entry.dependents.len(),
                users.len() == j,
                forall|d: int|
                    0 <= d < entry.dependents.len() ==> (#[trigger] entry.dependents[d])
                        < self.records.len(),
                forall|d: int|
                    0 <= d < j ==> (#[trigger] users[d])@ == self.records[entry.dependents[d] as int]@,
            decreases entry.dependents.len() - j,
        {
            users.push(self.records[entry.dependents[j]].clone());
            j += 1;
        }
        proof {
            let rs = self.graph();
            let ids = entry.dependent_ids();
            assert forall|d: int| 0 <= d < ids.len() implies records_view(users@)[d] == rs[ids[d]] by {
                assert(users[d]@ == self.records[entry.dependents[d] as int]@);
            }
            assert(records_view(users@) =~= ids.map_values(|d: int| rs[d]));
        }
        users
    }

    /// Adds what the detection finds for the `p`-th package.
    fn detect_package(
        &self,
        p: usize,
        resolver: &Resolver,
        duplicates: &mut Vec<Duplicate>,
        failures: &mut Vec<InvalidVersion>,
    )
        requires
            self.wf(),
            p < self.packages.len(),
        ensures
            duplicates_view(final(duplicates)@) == duplicates_view(old(duplicates)@)
                + package_duplicates(
                self.graph(),
                self.names()[p as int],
                resolver.answer(self.names()[p as int]),
            ),
            failures_view(final(failures)@) == failures_view(old(failures)@) + package_failure(
                self.graph(),
                self.names()[p as int],
            ),
            offline_reference_is_greatest(self.graph(), self.names()[p as int]),
    {
        let ghost rs = self.graph();
        let ghost name = self.names()[p as int];
        let ghost found = duplicates_view(duplicates@);
        let ghost left_out = failures_view(failures@);
        let entry = &self.packages[p];
        proof {
            self.lemma_entry(p as int, 0);
        }
        if entry.versions.len() < 2 {
            proof {
                assert(found + Seq::<DuplicateView>::empty() =~= found);
                assert(left_out + Seq::<FailureView>::empty() =~= left_out);
            }
            return ;
        }
        let versions = self.versions(p);
        let ghost vs = texts(versions@);
        match first_invalid(&versions) {
            Some(k) => {
                failures.push(
                    InvalidVersion { package: entry.name.clone(), version: versions[k].clone() },
                );
                proof {
                    assert(vs[k as int] == versions[k as int]@);
                    assert forall|j: int| 0 <= j < k implies is_semver(#[trigger] vs[j]) by {
                        assert(vs[j] == versions[j]@);
                    }
                    lemma_invalid_index(vs, k as int);
                    assert(found + Seq::<DuplicateView>::empty() =~= found);
                    assert(failures_view(failures@) =~= left_out + seq![
                        FailureView { package: name, version: vs[k as int] },
                    ]);
                }
                return ;
            },
            None => {},
        }
        let newest = resolver.latest(entry.name.as_str(), &versions);
        let reference = newest.unwrap();
        let shown = written_version(reference.as_str());
        let mut k: usize = 0;
        proof {
            assert(found + stale_versions(rs, name, vs.take(0), reference@) =~= found);
        }
        while k < versions.len()
            invariant
                self.wf(),
                p < self.packages.len(),
                entry == self.packages[p as int],
                rs == self.graph(),
                name == entry.name@,
                versions.len() == entry.versions.len(),
                vs == texts(versions@),
                vs == entry.version_texts(),
                all_semver(vs),
                is_semver(reference@),
                is_maximum_at(vs, max_index(vs)),
                shown@ == reference@,
                k <= versions.len(),
                duplicates_view(duplicates@) == found + stale_versions(
                    rs,
                    name,
                    vs.take(k as int),
                    reference@,
                ),
            decreases versions.len() - k,
        {
            proof {
                assert(vs[k as int] == versions[k as int]@);
                assert(is_semver(vs[k as int]));
                assert(vs.take(k + 1).drop_last() =~= vs.take(k as int));
                self.lemma_entry(p as int, k as int);
            }
            let o = compare_versions(versions[k].as_str(), reference.as_str());
            if o != Order::Equal {
                let ghost so_far = duplicates_view(duplicates@);
                let users = self.users(p, k);
                duplicates.push(
                    Duplicate {
                        package: entry.name.clone(),
                        version: versions[k].clone(),
                        latest: shown.clone(),
                        users,
                    },
                );
                proof {
                    let added = DuplicateView {
                        package: name,
                        version: vs[k as int],
                        latest: reference@,
                        users: users_of(rs, Key { name, version: vs[k as int] }),
                    };
                    assert(duplicates_view(duplicates@) =~= so_far.push(added));
                    assert(so_far.push(added) =~= found + stale_versions(
                        rs,
                        name,
                        vs.take(k as int),
                        reference@,
                    ).push(added));
                }
            }
            k += 1;
        }
        proof {
            assert(vs.take(k as int) =~= vs);
            assert(left_out + Seq::<FailureView>::empty() =~= left_out);
        }
    }

    /// Finds the duplicates of the graph.
    ///
    /// The packages are gone through in the order of their names. One with a
    /// single version gives nothing. One with several versions, one of them
    /// none, is reported as a failure with the first such version, and gives
    /// nothing else. For any other, every version that `semver` does not
    /// hold equal to the reference version gives a duplicate, with the
    /// records that depend on it; the reference is what
    /// [`Resolver::latest`] returns for the package. Offline that is the
    /// greatest of the package's versions: none of them is greater.
    pub fn detect(&self, resolver: &Resolver) -> (out: Detection)
        requires
            self.wf(),
        ensures
            duplicates_view(out.response.duplicates@) == detected(
                self.graph(),
                self.names(),
                *resolver,
            ),
            failures_view(out.failures@) == failed(self.graph(), self.names()),
            forall|p: int|
                0 <= p < self.names().len() ==> offline_reference_is_greatest(
                    self.graph(),
                    #[trigger] self.names()[p],
                ),
    {
        let ghost rs = self.graph();
        let ghost names = self.names();
        let mut duplicates: Vec<Duplicate> = Vec::new();
        let mut failures: Vec<InvalidVersion> = Vec::new();
        let mut p: usize = 0;
        proof {
            assert(duplicates_view(duplicates@) =~= detected(rs, names.take(0), *resolver));
            assert(failures_view(failures@) =~= failed(rs, names.take(0)));
        }
        while p < self.packages.len()
            invariant
                self.wf(),
                rs == self.graph(),
                names == self.names(),
                p <= self.packages.len(),
                duplicates_view(duplicates@) == detected(rs, names.take(p as int), *resolver),
                failures_view(failures@) == failed(rs, names.take(p as int)),
                forall|q: int| 0 <= q < p ==> offline_reference_is_greatest(rs, #[trigger] names[q]),
            decreases self.packages.len() - p,
        {
            self.detect_package(p, resolver, &mut duplicates, &mut failures);
            proof {
                assert(names.take(p + 1).drop_last() =~= names.take(p as int));
            }
            p += 1;
        }
        proof {
            assert(names.take(p as int) =~= names);
        }
        Detection { response: Response { duplicates }, failures }
    }

    /// The names of the packages that have more than one version, in order:
    /// those for which a newest version is wanted.
    pub fn duplicated_names(&self) -> (out: Vec<String>)
        requires
            self.wf(),
        ensures
            texts(out@) == repeated_names(self.graph(), self.names()),
    {
        let ghost rs = self.graph();
        let ghost names = self.names();
        let mut out: Vec<String> = Vec::new();
        let mut p: usize = 0;
        proof {
            assert(texts(out@) =~= repeated_names(rs, names.take(0)));
        }
        while p < self.packages.len()
            invariant
                self.wf(),
                rs == self.graph(),
                names == self.names(),
                p <= self.packages.len(),
                texts(out@) == repeated_names(rs, names.take(p as int)),
            decreases self.packages.len() - p,
        {
            proof {
                self.lemma_entry(p as int, 0);
                assert(names.take(p + 1).drop_last() =~= names.take(p as int));
            }
            if self.packages[p].versions.len() >= 2 {
                let ghost so_far = texts(out@);
                out.push(self.packages[p].name.clone());
                proof {
                    assert(texts(out@) =~= so_far.push(names[p as int]));
                }
            }
            p += 1;
        }
        proof {
            assert(names.take(p as int) =~= names);
        }
        out
    }
}

/// Exactly one of the versions is held equal to the reference.
pub open spec fn matches_once(versions: Seq<Seq<char>>, reference: Seq<char>) -> bool {
    exists|k: int|
        0 <= k < versions.len() && same_version(#[trigger] versions[k], reference) && forall|j: int|
            0 <= j < versions.len() && j != k ==> !same_version(#[trigger] versions[j], reference)
}

/// How many of the duplicates are of the package `name`.
pub open spec fn reported_for(found: Seq<DuplicateView>, name: Seq<char>) -> nat
    decreases found.len(),
{
    if found.len() == 0 {
        0
    } else if found.last().package == name {
        reported_for(found.drop_last(), name) + 1
    } else {
        reported_for(found.drop_last(), name)
    }
}

/// How many of the versions are held equal to the reference.
pub open spec fn count_same(versions: Seq<Seq<char>>, reference: Seq<char>) -> nat
    decreases versions.len(),
{
    if versions.len() == 0 {
        0
    } else if same_version(versions.last(), reference) {
        count_same(versions.drop_last(), reference) + 1
    } else {
        count_same(versions.drop_last(), reference)
    }
}

/// What the duplicates of one package are: one for each version that is not
/// the reference, each of that package and with that reference as latest.
pub proof fn lemma_stale_versions(
    rs: Seq<RecordView>,
    name: Seq<char>,
    versions: Seq<Seq<char>>,
    reference: Seq<char>,
)
    ensures
        stale_versions(rs, name, versions, reference).len() + count_same(versions, reference)
            == versions.len(),
        forall|i: int|
            0 <= i < stale_versions(rs, name, versions, reference).len() ==> {
                let d = #[trigger] stale_versions(rs, name, versions, reference)[i];
                &&& d.package == name
                &&& versions.contains(d.version)
                &&& !same_version(d.version, reference)
                &&& d.latest == reference
                &&& d.users == users_of(rs, Key { name, version: d.version })
            },
    decreases versions.len(),
{
    if versions.len() > 0 {
        let init = versions.drop_last();
        lemma_stale_versions(rs, name, init, reference);
        let all = stale_versions(rs, name, versions, reference);
        let before = stale_versions(rs, name, init, reference);
        assert forall|i: int| 0 <= i < all.len() implies {
            let d = #[trigger] all[i];
            &&& d.package == name
            &&& versions.contains(d.version)
            &&& !same_version(d.version, reference)
            &&& d.latest == reference
            &&& d.users == users_of(rs, Key { name, version: d.version })
        } by {
            if i < before.len() {
                assert(all[i] == before[i]);
                let k = choose|k: int| 0 <= k < init.len() && init[k] == before[i].version;
                assert(versions[k] == before[i].version);
            } else {
                assert(versions[versions.len() - 1] == all[i].version);
            }
        }
    }
}

/// Where exactly one version is the reference, one is counted.
proof fn lemma_count_once(versions: Seq<Seq<char>>, reference: Seq<char>)
    ensures
        matches_once(versions, reference) ==> count_same(versions, reference) == 1,
        (forall|j: int| 0 <= j < versions.len() ==> !same_version(#[trigger] versions[j], reference))
            ==> count_same(versions, reference) == 0,
    decreases versions.len(),
{
    if versions.len() > 0 {
        let init = versions.drop_last();
        lemma_count_once(init, reference);
        if forall|j: int| 0 <= j < versions.len() ==> !same_version(#[trigger] versions[j], reference) {
            assert forall|j: int| 0 <= j < init.len() implies !same_version(
                #[trigger] init[j],
                reference,
            ) by {
                assert(init[j] == versions[j]);
            }
            assert(!same_version(versions[versions.len() - 1], reference));
        }
        if matches_once(versions, reference) {
            let k = choose|k: int|
                0 <= k < versions.len() && same_version(#[trigger] versions[k], reference)
                    && forall|j: int|
                    0 <= j < versions.len() && j != k ==> !same_version(
                        #[trigger] versions[j],
                        reference,
                    );
            if k == versions.len() - 1 {
                assert forall|j: int| 0 <= j < init.len() implies !same_version(
                    #[trigger] init[j],
                    reference,
                ) by {
                    assert(init[j] == versions[j]);
                }
            } else {
                assert(!same_version(versions[versions.len() - 1], reference));
                assert(same_version(init[k], reference));
                assert forall|j: int| 0 <= j < init.len() && j != k implies !same_version(
                    #[trigger] init[j],
                    reference,
                ) by {
                    assert(init[j] == versions[j]);
                }
                assert(matches_once(init, reference));
            }
        }
    }
}

/// The count over two lists, one behind the other, is the sum of the counts.
proof fn lemma_reported_for_concat(a: Seq<DuplicateView>, b: Seq<DuplicateView>, name: Seq<char>)
    ensures
        reported_for(a + b, name) == reported_for(a, name) + reported_for(b, name),
    decreases b.len(),
{
    if b.len() == 0 {
        assert(a + b =~= a);
    } else {
        assert((a + b).drop_last() =~= a + b.drop_last());
        lemma_reported_for_concat(a, b.drop_last(), name);
    }
}

/// The count for a package over a list that is of one package throughout.
proof fn lemma_reported_for_uniform(found: Seq<DuplicateView>, package: Seq<char>, name: Seq<char>)
    requires
        forall|i: int| 0 <= i < found.len() ==> (#[trigger] found[i]).package == package,
    ensures
        reported_for(found, name) == if package == name {
            found.len()
        } else {
            0
        },
    decreases found.len(),
{
    if found.len() > 0 {
        let init = found.drop_last();
        assert forall|i: int| 0 <= i < init.len() implies (#[trigger] init[i]).package == package by {
            assert(init[i] == found[i]);
        }
        lemma_reported_for_uniform(init, package, name);
        assert(found[found.len() - 1].package == package);
    }
}

/// What is reported, is reported for a reason: every duplicate is of one of
/// the packages, that package has several versions, all of them versions;
/// the duplicate's version is one of them and is not held equal to the
/// reference; its latest is the reference, and its users are the records
/// that depend on it.
pub proof fn lemma_reported_are_stale(rs: Seq<RecordView>, names: Seq<Seq<char>>, resolver: Resolver)
    ensures
        forall|i: int|
            0 <= i < detected(rs, names, resolver).len() ==> {
                let d = #[trigger] detected(rs, names, resolver)[i];
                let versions = versions_of(rs, d.package);
                let reference = reference_version(versions, resolver.answer(d.package));
                &&& names.contains(d.package)
                &&& versions.len() >= 2
                &&& all_semver(versions)
                &&& versions.contains(d.version)
                &&& !same_version(d.version, reference)
                &&& d.latest == reference
                &&& d.users == users_of(rs, Key { name: d.package, version: d.version })
            },
    decreases names.len(),
{
    if names.len() > 0 {
        let init = names.drop_last();
        let name = names.last();
        lemma_reported_are_stale(rs, init, resolver);
        let before = detected(rs, init, resolver);
        let here = package_duplicates(rs, name, resolver.answer(name));
        let all = detected(rs, names, resolver);
        let versions = versions_of(rs, name);
        lemma_stale_versions(rs, name, versions, reference_version(versions, resolver.answer(name)));
        assert forall|i: int| 0 <= i < all.len() implies {
            let d = #[trigger] all[i];
            let versions = versions_of(rs, d.package);
            let reference = reference_version(versions, resolver.answer(d.package));
            &&& names.contains(d.package)
            &&& versions.len() >= 2
            &&& all_semver(versions)
            &&& versions.contains(d.version)
            &&& !same_version(d.version, reference)
            &&& d.latest == reference
            &&& d.users == users_of(rs, Key { name: d.package, version: d.version })
        } by {
            if i < before.len() {
                assert(all[i] == before[i]);
                let k = choose|k: int| 0 <= k < init.len() && init[k] == before[i].package;
                assert(names[k] == before[i].package);
            } else {
                assert(all[i] == here[i - before.len()]);
                assert(names[names.len() - 1] == name);
            }
        }
    }
}

/// A package with exactly one version is never reported.
pub proof fn lemma_single_version_not_reported(
    rs: Seq<RecordView>,
    names: Seq<Seq<char>>,
    resolver: Resolver,
    name: Seq<char>,
)
    requires
        versions_of(rs, name).len() == 1,
    ensures
        forall|i: int|
            0 <= i < detected(rs, names, resolver).len() ==> (#[trigger] detected(
                rs,
                names,
                resolver,
            )[i]).package != name,
{
    lemma_reported_are_stale(rs, names, resolver);
}

/// A package that is not among the names is not reported.
proof fn lemma_absent_not_reported(
    rs: Seq<RecordView>,
    names: Seq<Seq<char>>,
    resolver: Resolver,
    name: Seq<char>,
)
    requires
        !names.contains(name),
    ensures
        reported_for(detected(rs, names, resolver), name) == 0,
    decreases names.len(),
{
    if names.len() > 0 {
        let init = names.drop_last();
        let last = names.last();
        assert(names[names.len() - 1] == last);
        assert forall|k: int| 0 <= k < init.len() implies init[k] != name by {
            assert(names[k] == init[k]);
        }
        lemma_absent_not_reported(rs, init, resolver, name);
        let here = package_duplicates(rs, last, resolver.answer(last));
        let versions = versions_of(rs, last);
        lemma_stale_versions(rs, last, versions, reference_version(versions, resolver.answer(last)));
        lemma_reported_for_uniform(here, last, name);
        lemma_reported_for_concat(detected(rs, init, resolver), here, name);
    }
}

/// What is reported for a package that is among the names once.
proof fn lemma_reported_for_package(
    rs: Seq<RecordView>,
    names: Seq<Seq<char>>,
    resolver: Resolver,
    name: Seq<char>,
)
    requires
        names.no_duplicates(),
        names.contains(name),
    ensures
        reported_for(detected(rs, names, resolver), name) == package_duplicates(
            rs,
            name,
            resolver.answer(name),
        ).len(),
    decreases names.len(),
{
    let init = names.drop_last();
    let last = names.last();
    let here = package_duplicates(rs, last, resolver.answer(last));
    let versions = versions_of(rs, last);
    lemma_stale_versions(rs, last, versions, reference_version(versions, resolver.answer(last)));
    lemma_reported_for_uniform(here, last, name);
    lemma_reported_for_concat(detected(rs, init, resolver), here, name);
    if last == name {
        assert forall|k: int| 0 <= k < init.len() implies init[k] != name by {
            assert(names[k] == init[k]);
            assert(names[names.len() - 1] == name);
        }
        lemma_absent_not_reported(rs, init, resolver, name);
    } else {
        let k = choose|k: int| 0 <= k < names.len() && names[k] == name;
        assert(init[k] == name);
        assert forall|a: int, b: int| 0 <= a < init.len() && 0 <= b < init.len() && a != b implies init[a]
            != init[b] by {
            assert(names[a] == init[a]);
            assert(names[b] == init[b]);
        }
        lemma_reported_for_package(rs, init, resolver, name);
    }
}

/// Of a package with several versions, all of them versions, every version
/// but one is reported, where exactly one of them is held equal to the
/// reference.
pub proof fn lemma_all_but_reference(index: DependencyIndex, resolver: Resolver, name: Seq<char>)
    requires
        index.wf(),
        versions_of(index.graph(), name).len() >= 2,
        all_semver(versions_of(index.graph(), name)),
        matches_once(
            versions_of(index.graph(), name),
            reference_version(versions_of(index.graph(), name), resolver.answer(name)),
        ),
    ensures
        reported_for(detected(index.graph(), index.names(), resolver), name) == versions_of(
            index.graph(),
            name,
        ).len() - 1,
{
    let rs = index.graph();
    let names = index.names();
    let versions = versions_of(rs, name);
    let reference = reference_version(versions, resolver.answer(name));
    lemma_versions_exist(rs, name);
    assert(has_name(rs, name));
    assert(names.contains(name));
    assert forall|a: int, b: int| 0 <= a < names.len() && 0 <= b < names.len() && a != b implies names[a]
        != names[b] by {
        if a < b {
            lemma_name_lt_asymmetric(names[a], names[b]);
        } else {
            lemma_name_lt_asymmetric(names[b], names[a]);
        }
    }
    lemma_reported_for_package(rs, names, resolver, name);
    lemma_stale_versions(rs, name, versions, reference);
    lemma_count_once(versions, reference);
}

/// Offline the reference is the greatest of the versions at hand, whatever
/// an outside source would have answered.
pub proof fn lemma_offline_reference(versions: Seq<Seq<char>>, name: Seq<char>)
    ensures
        reference_version(versions, Resolver::Offline.answer(name)) == versions[max_index(
            versions,
        )],
{
}

/// Without an answer that is a version, the reference is what it is
/// offline.
pub proof fn lemma_fallback_reference(
    versions: Seq<Seq<char>>,
    resolver: Resolver,
    name: Seq<char>,
)
    requires
        resolver.answer(name) matches Some(newest) ==> !is_semver(newest),
    ensures
        reference_version(versions, resolver.answer(name)) == reference_version(
            versions,
            Resolver::Offline.answer(name),
        ),
{
}

} // verus!
