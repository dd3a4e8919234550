//! The dependency index: for every package name the versions under which it
//! occurs, and for every such version the records that depend on it.

use vstd::prelude::*;
use crate::graph::{dependents_of, has_name, resolved, unresolved_among, unresolved_edges, versions_of, Edge};
use crate::graph::{lemma_dependents, lemma_versions_distinct, lemma_versions_exist, lemma_versions_member};
use crate::graph::{lemma_dependents_push, lemma_has_name_push, lemma_unresolved_push, lemma_versions_push};
use crate::names::{compare_names, name_lt, same_text, strictly_sorted, Order};
use crate::names::{lemma_name_lt_asymmetric, lemma_name_lt_transitive};
use crate::record::{records_view, Dependency, Key, PackageRecord, RecordView};

verus! {

/// One version of a package and the records that depend on it, each given
/// by its position in the list of records.
#[derive(Debug, PartialEq, Eq)]
pub struct VersionEntry {
    pub version: String,
    pub dependents: Vec<usize>,
}

/// A package name and its versions, in the order in which the records
/// brought them.
#[derive(Debug, PartialEq, Eq)]
pub struct PackageEntry {
    pub name: String,
    pub versions: Vec<VersionEntry>,
}

/// A dependency that a record declares and no record satisfies.
#[derive(Debug, PartialEq, Eq)]
pub struct UnresolvedDependency {
    /// Position of the record that declares it.
    pub dependent: usize,
    pub name: String,
    pub version: String,
}

/// The records of a dependency graph and the index over them.
#[derive(Debug, PartialEq, Eq)]
pub struct DependencyIndex {
    pub records: Vec<PackageRecord>,
    /// One entry for each package name, in the order of the names.
    pub packages: Vec<PackageEntry>,
}

impl VersionEntry {
    /// The positions of the dependents.
    pub open spec fn dependent_ids(&self) -> Seq<int> {
        self.dependents@.map_values(|d: usize| d as int)
    }
}

impl PackageEntry {
    /// The versions of the package.
    pub open spec fn version_texts(&self) -> Seq<Seq<char>> {
        self.versions@.map_values(|e: VersionEntry| e.version@)
    }

    /// The key of the `k`-th version of the package.
    pub open spec fn key(&self, k: int) -> Key {
        Key { name: self.name@, version: self.versions[k].version@ }
    }
}

impl View for UnresolvedDependency {
    type V = Edge;

    open spec fn view(&self) -> Edge {
        Edge {
            dependent: self.dependent as int,
            target: Key { name: self.name@, version: self.version@ },
        }
    }
}

/// What a list of diagnostics says.
pub open spec fn edges_view(found: Seq<UnresolvedDependency>) -> Seq<Edge> {
    found.map_values(|d: UnresolvedDependency| d@)
}

/// The names of a list of entries.
pub open spec fn names_of(packages: Seq<PackageEntry>) -> Seq<Seq<char>> {
    packages.map_values(|p: PackageEntry| p.name@)
}

/// The entries list the names of `rs` in order, and for each name its
/// versions as [`versions_of`] gives them.
pub open spec fn lists(packages: Seq<PackageEntry>, rs: Seq<RecordView>) -> bool {
    &&& strictly_sorted(names_of(packages))
    &&& forall|name: Seq<char>| #[trigger] has_name(rs, name) ==> names_of(packages).contains(name)
    &&& forall|p: int|
        0 <= p < packages.len() ==> (#[trigger] packages[p]).versions.len() > 0
            && packages[p].version_texts() == versions_of(rs, packages[p].name@)
}

/// What an entry's dependents are while the index is filled: the
/// dependents among the first `upto` records, and record `upto` itself if
/// one of its dependencies `seen` so far is the entry's key.
pub open spec fn dependents_so_far(rs: Seq<RecordView>, upto: int, seen: Seq<Key>, key: Key) -> Seq<
    int,
> {
    if seen.contains(key) {
        dependents_of(rs.take(upto), key).push(upto)
    } else {
        dependents_of(rs.take(upto), key)
    }
}

/// Every entry holds the dependents that [`dependents_so_far`] gives.
pub open spec fn records_dependents(
    packages: Seq<PackageEntry>,
    rs: Seq<RecordView>,
    upto: int,
    seen: Seq<Key>,
) -> bool {
    forall|p: int, k: int|
        0 <= p < packages.len() && 0 <= k < packages[p].versions.len() ==> (
        #[trigger] packages[p].versions[k]).dependent_ids() == dependents_so_far(
            rs,
            upto,
            seen,
            packages[p].key(k),
        )
}

impl DependencyIndex {
    /// The graph that the index was built over.
    pub open spec fn graph(&self) -> Seq<RecordView> {
        records_view(self.records@)
    }

    /// The package names, in order.
    pub open spec fn names(&self) -> Seq<Seq<char>> {
        names_of(self.packages@)
    }

    /// The index is that of its records: the names in order, for each name
    /// its versions, for each version its dependents.
    pub open spec fn wf(&self) -> bool {
        &&& lists(self.packages@, self.graph())
        &&& records_dependents(
            self.packages@,
            self.graph(),
            self.records.len() as int,
            Seq::empty(),
        )
    }
}

/// Searches the entries for a name. Returns whether it is there, and the
/// position at which it is or would have to be inserted.
pub(crate) fn locate_package(packages: &Vec<PackageEntry>, name: &str) -> (r: (bool, usize))
    requires
        strictly_sorted(names_of(packages@)),
    ensures
        r.1 <= packages.len(),
        r.0 ==> r.1 < packages.len() && packages[r.1 as int].name@ == name@,
        !r.0 ==> !names_of(packages@).contains(name@),
        forall|q: int| 0 <= q < r.1 ==> name_lt(#[trigger] names_of(packages@)[q], name@),
        !r.0 ==> forall|q: int|
            r.1 <= q < packages.len() ==> name_lt(name@, #[trigger] names_of(packages@)[q]),
{
    let ghost names = names_of(packages@);
    let mut lo: usize = 0;
    let mut hi: usize = packages.len();
    while lo < hi
        invariant
            names == names_of(packages@),
            strictly_sorted(names),
            lo <= hi <= packages.len(),
            forall|q: int| 0 <= q < lo ==> name_lt(#[trigger] names[q], name@),
            forall|q: int| hi <= q < packages.len() ==> name_lt(name@, #[trigger] names[q]),
        decreases hi - lo,
    {
        let mid = lo + (hi - lo) / 2;
        let o = compare_names(packages[mid].name.as_str(), name);
        proof {
            assert(names[mid as int] == packages[mid as int].name@);
        }
        match o {
            Order::Equal => {
                return (true, mid);
            },
            Order::Less => {
                proof {
                    assert forall|q: int| 0 <= q < mid + 1 implies name_lt(
                        #[trigger] names[q],
                        name@,
                    ) by {
                        if q < mid {
                            lemma_name_lt_transitive(names[q], names[mid as int], name@);
                        }
                    }
                }
                lo = mid + 1;
            },
            Order::Greater => {
                proof {
                    assert forall|q: int| mid <= q < packages.len() implies name_lt(
                        name@,
                        #[trigger] names[q],
                    ) by {
                        if mid < q {
                            lemma_name_lt_transitive(name@, names[mid as int], names[q]);
                        }
                    }
                }
                hi = mid;
            },
        }
    }
    proof {
        assert forall|q: int| 0 <= q < names.len() implies names[q] != name@ by {
            if q < lo {
                lemma_name_lt_asymmetric(names[q], name@);
            } else {
                lemma_name_lt_asymmetric(name@, names[q]);
            }
        }
    }
    (false, lo)
}

/// Searches the versions of a package for a version.
pub(crate) fn locate_version(versions: &Vec<VersionEntry>, version: &str) -> (r: Option<usize>)
    ensures
        match r {
            Some(k) => {
                &&& k < versions.len()
                &&& versions[k as int].version@ == version@
                &&& forall|j: int| 0 <= j < k ==> (#[trigger] versions[j]).version@ != version@
            },
            None => forall|j: int|
                0 <= j < versions.len() ==> (#[trigger] versions[j]).version@ != version@,
        },
{
    let mut k: usize = 0;
    while k < versions.len()
        invariant
            k <= versions.len(),
            forall|j: int| 0 <= j < k ==> (#[trigger] versions[j]).version@ != version@,
        decreases versions.len() - k,
    {
        if same_text(versions[k].version.as_str(), version) {
            return Some(k);
        }
        k += 1;
    }
    None
}

/// Searches the entries for a name and version. Returns the position of the
/// package and, within it, of the version.
pub(crate) fn find_entry(packages: &Vec<PackageEntry>, name: &str, version: &str) -> (r: Option<
    (usize, usize),
>)
    requires
        strictly_sorted(names_of(packages@)),
    ensures
        match r {
            Some((p, k)) => {
                &&& p < packages.len()
                &&& k < packages[p as int].versions.len()
                &&& packages[p as int].key(k as int) == (Key { name: name@, version: version@ })
            },
            None => forall|p: int, k: int|
                0 <= p < packages.len() && 0 <= k < packages[p].versions.len()
                    ==> #[trigger] packages[p].key(k) != (Key { name: name@, version: version@ }),
        },
{
    let (found, p) = locate_package(packages, name);
    if !found {
        proof {
            assert forall|q: int, k: int|
                0 <= q < packages.len() && 0 <= k < packages[q].versions.len()
                    implies #[trigger] packages[q].key(k) != (Key {
                name: name@,
                version: version@,
            }) by {
                assert(names_of(packages@)[q] == packages[q].name@);
            }
        }
        return None;
    }
    match locate_version(&packages[p].versions, version) {
        Some(k) => Some((p, k)),
        None => {
            proof {
                assert forall|q: int, k: int|
                    0 <= q < packages.len() && 0 <= k < packages[q].versions.len()
                        implies #[trigger] packages[q].key(k) != (Key {
                    name: name@,
                    version: version@,
                }) by {
                    if q != p {
                        assert(names_of(packages@)[q] == packages[q].name@);
                        assert(names_of(packages@)[p as int] == packages[p as int].name@);
                        if q < p {
                            lemma_name_lt_asymmetric(packages[q].name@, name@);
                        } else {
                            lemma_name_lt_asymmetric(name@, packages[q].name@);
                        }
                    }
                }
            }
            None
        },
    }
}

/// No entry has a dependent yet.
pub open spec fn no_dependents(packages: Seq<PackageEntry>) -> bool {
    forall|p: int, k: int|
        0 <= p < packages.len() && 0 <= k < packages[p].versions.len() ==> (
        #[trigger] packages[p].versions[k]).dependents@.len() == 0
}

/// A sequence with one more element holds what it held, and that element.
proof fn lemma_contains_push<A>(s: Seq<A>, x: A, y: A)
    ensures
        s.push(x).contains(y) <==> s.contains(y) || x == y,
{
    let more = s.push(x);
    if s.contains(y) {
        let i = choose|i: int| 0 <= i < s.len() && s[i] == y;
        assert(more[i] == y);
    }
    if x == y {
        assert(more[s.len() as int] == y);
    }
    if more.contains(y) {
        let i = choose|i: int| 0 <= i < more.len() && more[i] == y;
        if i < s.len() {
            assert(s[i] == y);
        }
    }
}

/// In a list of entries no two versions have the same key.
pub proof fn lemma_keys_distinct(packages: Seq<PackageEntry>, rs: Seq<RecordView>)
    requires
        lists(packages, rs),
    ensures
        forall|p: int, k: int, q: int, m: int|
            0 <= p < packages.len() && 0 <= k < packages[p].versions.len() && 0 <= q
                < packages.len() && 0 <= m < packages[q].versions.len() && #[trigger] packages[p].key(
                k,
            ) == #[trigger] packages[q].key(m) ==> p == q && k == m,
{
    assert forall|p: int, k: int, q: int, m: int|
        0 <= p < packages.len() && 0 <= k < packages[p].versions.len() && 0 <= q < packages.len()
            && 0 <= m < packages[q].versions.len() && #[trigger] packages[p].key(k)
            == #[trigger] packages[q].key(m) implies p == q && k == m by {
        let names = names_of(packages);
        assert(names[p] == packages[p].name@);
        assert(names[q] == packages[q].name@);
        if p < q {
            lemma_name_lt_asymmetric(names[p], names[q]);
        } else if q < p {
            lemma_name_lt_asymmetric(names[q], names[p]);
        } else {
            lemma_versions_distinct(rs, packages[p].name@);
            let texts = packages[p].version_texts();
            assert(texts[k] == packages[p].versions[k].version@);
            assert(texts[m] == packages[p].versions[m].version@);
        }
    }
}

/// A key has an entry exactly when it is a node of the graph.
pub proof fn lemma_entry_iff_resolved(packages: Seq<PackageEntry>, rs: Seq<RecordView>, key: Key)
    requires
        lists(packages, rs),
    ensures
        resolved(rs, key) <==> exists|p: int, k: int|
            0 <= p < packages.len() && 0 <= k < packages[p].versions.len()
                && #[trigger] packages[p].key(k) == key,
{
    lemma_versions_member(rs, key.name, key.version);
    lemma_versions_exist(rs, key.name);
    if resolved(rs, key) {
        let names = names_of(packages);
        assert(has_name(rs, key.name));
        let p = choose|p: int| 0 <= p < names.len() && names[p] == key.name;
        let texts = packages[p].version_texts();
        let k = choose|k: int| 0 <= k < texts.len() && texts[k] == key.version;
        assert(packages[p].key(k) == key);
    }
    if exists|p: int, k: int|
        0 <= p < packages.len() && 0 <= k < packages[p].versions.len()
            && #[trigger] packages[p].key(k) == key {
        let (p, k) = choose|p: int, k: int|
            0 <= p < packages.len() && 0 <= k < packages[p].versions.len()
                && #[trigger] packages[p].key(k) == key;
        assert(packages[p].version_texts()[k] == key.version);
    }
}

/// Enters the name and version of one more record.
fn enter_version(
    packages: &mut Vec<PackageEntry>,
    name: &str,
    version: &str,
    Ghost(rs): Ghost<Seq<RecordView>>,
    Ghost(r): Ghost<RecordView>,
)
    requires
        lists(old(packages)@, rs),
        no_dependents(old(packages)@),
        r.name == name@,
        r.version == version@,
    ensures
        lists(final(packages)@, rs.push(r)),
        no_dependents(final(packages)@),
{
    let ghost before = packages@;
    let ghost more = rs.push(r);
    let (found, p) = locate_package(packages, name);
    proof {
        assert forall|x: Seq<char>| #[trigger] has_name(more, x) implies has_name(rs, x) || x
            == name@ by {
            lemma_has_name_push(rs, r, x);
        }
    }
    if found {
        let at = locate_version(&packages[p].versions, version);
        proof {
            assert(names_of(before)[p as int] == name@);
            assert forall|j: int| 0 <= j < before[p as int].version_texts().len() implies (
            before[p as int].version_texts()[j] == version@) == (before[p as int].versions[j].version@
                == version@) by {}
        }
        if at.is_none() {
            packages[p].versions.push(
                VersionEntry { version: version.to_owned(), dependents: Vec::new() },
            );
        }
        proof {
            let after = packages@;
            assert(names_of(after) =~= names_of(before));
            assert forall|q: int| 0 <= q < after.len() implies (#[trigger] after[q]).versions.len()
                > 0 && after[q].version_texts() == versions_of(more, after[q].name@) by {
                lemma_versions_push(rs, r, after[q].name@);
                assert(names_of(before)[q] == before[q].name@);
                if q == p {
                    if at is None {
                        assert(after[q].version_texts() =~= before[q].version_texts().push(
                            version@,
                        ));
                    } else {
                        assert(before[q].version_texts()[at->0 as int] == version@);
                    }
                } else {
                    assert(after[q] == before[q]);
                    if q < p {
                        lemma_name_lt_asymmetric(names_of(before)[q], names_of(before)[p as int]);
                    } else {
                        lemma_name_lt_asymmetric(names_of(before)[p as int], names_of(before)[q]);
                    }
                }
            }
        }
    } else {
        let mut versions: Vec<VersionEntry> = Vec::new();
        versions.push(VersionEntry { version: version.to_owned(), dependents: Vec::new() });
        packages.insert(p, PackageEntry { name: name.to_owned(), versions });
        proof {
            let after = packages@;
            let names = names_of(before);
            assert(names_of(after) =~= names.insert(p as int, name@));
            assert forall|a: int, b: int| 0 <= a < b < after.len() implies name_lt(
                names_of(after)[a],
                names_of(after)[b],
            ) by {
                if b < p {
                    assert(name_lt(names[a], names[b]));
                } else if b == p {
                    assert(name_lt(names[a], name@));
                } else if a < p {
                    assert(name_lt(names[a], names[b - 1]));
                } else if a == p {
                    assert(name_lt(name@, names[b - 1]));
                } else {
                    assert(name_lt(names[a - 1], names[b - 1]));
                }
            }
            assert forall|x: Seq<char>| #[trigger] has_name(more, x) implies names_of(
                after,
            ).contains(x) by {
                if x == name@ {
                    assert(names_of(after)[p as int] == x);
                } else {
                    let q = choose|q: int| 0 <= q < names.len() && names[q] == x;
                    if q < p {
                        assert(names_of(after)[q] == x);
                    } else {
                        assert(names_of(after)[q + 1] == x);
                    }
                }
            }
            assert forall|q: int| 0 <= q < after.len() implies (#[trigger] after[q]).versions.len()
                > 0 && after[q].version_texts() == versions_of(more, after[q].name@) by {
                lemma_versions_push(rs, r, after[q].name@);
                if q == p {
                    lemma_versions_exist(rs, name@);
                    assert(versions_of(rs, name@) =~= Seq::<Seq<char>>::empty());
                    assert(after[q].version_texts() =~= Seq::<Seq<char>>::empty().push(version@));
                } else {
                    let o = if q < p { q } else { q - 1 };
                    assert(after[q] == before[o]);
                    assert(names[o] == before[o].name@);
                }
            }
        }
    }
}

/// Enters one dependency of record `who`: the record becomes a dependent of
/// the entry that the dependency names, or the dependency is reported where
/// there is no such entry.
fn enter_dependency(
    packages: &mut Vec<PackageEntry>,
    unresolved: &mut Vec<UnresolvedDependency>,
    dependency: &Dependency,
    who: usize,
    Ghost(rs): Ghost<Seq<RecordView>>,
    Ghost(seen): Ghost<Seq<Key>>,
)
    requires
        lists(old(packages)@, rs),
        who < rs.len(),
        records_dependents(old(packages)@, rs, who as int, seen),
    ensures
        lists(final(packages)@, rs),
        records_dependents(final(packages)@, rs, who as int, seen.push(dependency@.key())),
        edges_view(final(unresolved)@) == if resolved(rs, dependency@.key()) {
            edges_view(old(unresolved)@)
        } else {
            edges_view(old(unresolved)@).push(
                Edge { dependent: who as int, target: dependency@.key() },
            )
        },
{
    let ghost before = packages@;
    let ghost key = dependency@.key();
    proof {
        lemma_entry_iff_resolved(before, rs, key);
        lemma_keys_distinct(before, rs);
        lemma_dependents(rs.take(who as int), key);
    }
    match find_entry(packages, dependency.name.as_str(), dependency.version.as_str()) {
        Some((p, k)) => {
            proof {
                assert(before[p as int].key(k as int) == key);
                assert(before[p as int].versions[k as int].dependent_ids() == dependents_so_far(
                    rs,
                    who as int,
                    seen,
                    key,
                ));
            }
            let n = packages[p].versions[k].dependents.len();
            let listed = n > 0 && packages[p].versions[k].dependents[n - 1] == who;
            proof {
                let ids = before[p as int].versions[k as int].dependent_ids();
                if n > 0 {
                    assert(ids[n - 1] == before[p as int].versions[k as int].dependents[n - 1]);
                }
                assert(listed == seen.contains(key));
            }
            if !listed {
                packages[p].versions[k].dependents.push(who);
            }
            proof {
                let after = packages@;
                assert(after.len() == before.len());
                assert(names_of(after) =~= names_of(before));
                assert forall|q: int| 0 <= q < after.len() implies after[q].name == before[q].name
                    && after[q].version_texts() =~= before[q].version_texts() by {}
                assert forall|q: int, m: int|
                    0 <= q < after.len() && 0 <= m < after[q].versions.len() implies (
                #[trigger] after[q].versions[m]).dependent_ids() == dependents_so_far(
                    rs,
                    who as int,
                    seen.push(key),
                    after[q].key(m),
                ) by {
                    lemma_contains_push(seen, key, after[q].key(m));
                    assert(after[q].key(m) == before[q].key(m));
                    if q == p && m == k {
                        if !listed {
                            assert(after[q].versions[m].dependent_ids()
                                =~= before[q].versions[m].dependent_ids().push(who as int));
                        }
                    } else {
                        assert(after[q].versions[m] == before[q].versions[m]);
                        assert(before[q].versions[m].dependent_ids() == dependents_so_far(
                            rs,
                            who as int,
                            seen,
                            before[q].key(m),
                        ));
                    }
                }
            }
        },
        None => {
            unresolved.push(
                UnresolvedDependency {
                    dependent: who,
                    name: dependency.name.clone(),
                    version: dependency.version.clone(),
                },
            );
            proof {
                assert(edges_view(unresolved@) =~= edges_view(old(unresolved)@).push(
                    Edge { dependent: who as int, target: key },
                ));
                assert forall|q: int, m: int|
                    0 <= q < before.len() && 0 <= m < before[q].versions.len() implies (
                #[trigger] before[q].versions[m]).dependent_ids() == dependents_so_far(
                    rs,
                    who as int,
                    seen.push(key),
                    before[q].key(m),
                ) by {
                    lemma_contains_push(seen, key, before[q].key(m));
                }
            }
        },
    }
}

impl DependencyIndex {
    /// Builds the index over the given records.
    ///
    /// Every record's name and version get their entry, and every declared
    /// dependency makes its record a dependent of the entry it names. A
    /// dependency that names no entry is returned as unresolved, in the
    /// order of the records and of their declarations; the rest of the
    /// index is not affected by it.
    pub fn build(records: Vec<PackageRecord>) -> (out: (DependencyIndex, Vec<UnresolvedDependency>))
        ensures
            out.0.records@ == records@,
            out.0.wf(),
            edges_view(out.1@) == unresolved_edges(
                records_view(records@),
                records.len() as int,
            ),
    {
        let ghost rs = records_view(records@);
        let mut packages: Vec<PackageEntry> = Vec::new();
        let mut i: usize = 0;
        proof {
            assert(names_of(packages@) =~= Seq::<Seq<char>>::empty());
            assert forall|name: Seq<char>| #[trigger] has_name(rs.take(0), name) implies false by {}
        }
        while i < records.len()
            invariant
                rs == records_view(records@),
                i <= records.len(),
                lists(packages@, rs.take(i as int)),
                no_dependents(packages@),
            decreases records.len() - i,
        {
            enter_version(
                &mut packages,
                records[i].name.as_str(),
                records[i].version.as_str(),
                Ghost(rs.take(i as int)),
                Ghost(rs[i as int]),
            );
            proof {
                assert(rs.take(i as int).push(rs[i as int]) =~= rs.take(i + 1));
            }
            i += 1;
        }
        let mut unresolved: Vec<UnresolvedDependency> = Vec::new();
        proof {
            assert(rs.take(records.len() as int) =~= rs);
            assert(edges_view(unresolved@) =~= unresolved_edges(rs, 0));
            assert forall|p: int, k: int|
                0 <= p < packages.len() && 0 <= k < packages[p].versions.len() implies (
            #[trigger] packages[p].versions[k]).dependent_ids() == dependents_so_far(
                rs,
                0,
                Seq::empty(),
                packages[p].key(k),
            ) by {
                assert(packages[p].versions[k].dependent_ids() =~= Seq::<int>::empty());
            }
        }
        i = 0;
        while i < records.len()
            invariant
                rs == records_view(records@),
                i <= records.len(),
                lists(packages@, rs),
                records_dependents(packages@, rs, i as int, Seq::empty()),
                edges_view(unresolved@) == unresolved_edges(rs, i as int),
            decreases records.len() - i,
        {
            let record = &records[i];
            let ghost declared = rs[i as int].declared();
            let mut j: usize = 0;
            proof {
                assert(declared.take(0) =~= Seq::<Key>::empty());
                assert(declared.len() == record.dependencies.len());
            }
            while j < record.dependencies.len()
                invariant
                    rs == records_view(records@),
                    i < records.len(),
                    record == records[i as int],
                    declared == rs[i as int].declared(),
                    declared.len() == record.dependencies.len(),
                    j <= record.dependencies.len(),
                    lists(packages@, rs),
                    records_dependents(packages@, rs, i as int, declared.take(j as int)),
                    edges_view(unresolved@) == unresolved_edges(rs, i as int) + unresolved_among(
                        rs,
                        i as int,
                        declared.take(j as int),
                    ),
                decreases record.dependencies.len() - j,
            {
                enter_dependency(
                    &mut packages,
                    &mut unresolved,
                    &record.dependencies[j],
                    i,
                    Ghost(rs),
                    Ghost(declared.take(j as int)),
                );
                proof {
                    assert(declared[j as int] == record.dependencies[j as int]@.key());
                    assert(declared.take(j as int).push(declared[j as int]) =~= declared.take(
                        j + 1,
                    ));
                    lemma_unresolved_push(
                        rs,
                        i as int,
                        declared.take(j as int),
                        declared[j as int],
                    );
                }
                j += 1;
            }
            proof {
                assert(declared.take(j as int) =~= declared);
                assert(rs.take(i as int).push(rs[i as int]) =~= rs.take(i + 1));
                assert forall|p: int, k: int|
                    0 <= p < packages.len() && 0 <= k < packages[p].versions.len() implies (
                #[trigger] packages[p].versions[k]).dependent_ids() == dependents_so_far(
                    rs,
                    i + 1,
                    Seq::empty(),
                    packages[p].key(k),
                ) by {
                    lemma_dependents_push(rs.take(i as int), rs[i as int], packages[p].key(k));
                    assert(packages[p].versions[k].dependent_ids() == dependents_so_far(
                        rs,
                        i as int,
                        declared,
                        packages[p].key(k),
                    ));
                }
            }
            i += 1;
        }
        (DependencyIndex { records, packages }, unresolved)
    }
}

impl DependencyIndex {
    /// Looks up a name and version. Returns the position of the package
    /// and, within it, of the version; there is one exactly when a record
    /// carries the name and version.
    pub fn find(&self, name: &str, version: &str) -> (r: Option<(usize, usize)>)
        requires
            self.wf(),
        ensures
            r is Some <==> resolved(self.graph(), Key { name: name@, version: version@ }),
            r matches Some((p, k)) ==> {
                &&& p < self.packages.len()
                &&& k < self.packages[p as int].versions.len()
                &&& self.packages[p as int].key(k as int) == (Key { name: name@, version: version@ })
            },
    {
        proof {
            lemma_entry_iff_resolved(
                self.packages@,
                self.graph(),
                Key { name: name@, version: version@ },
            );
        }
        find_entry(&self.packages, name, version)
    }
}

impl DependencyIndex {
    /// What a well-formed index holds for the `k`-th version of its `p`-th
    /// package: the dependents of that key, each a position among the
    /// records.
    pub proof fn lemma_entry(&self, p: int, k: int)
        requires
            self.wf(),
            0 <= p < self.packages.len(),
            0 <= k < self.packages[p].versions.len(),
        ensures
            self.names()[p] == self.packages[p].name@,
            self.packages[p].version_texts() == versions_of(self.graph(), self.packages[p].name@),
            self.packages[p].version_texts()[k] == self.packages[p].versions[k].version@,
            self.packages[p].versions[k].dependent_ids() == dependents_of(
                self.graph(),
                self.packages[p].key(k),
            ),
            forall|j: int|
                0 <= j < self.packages[p].versions[k].dependents.len() ==> (
                #[trigger] self.packages[p].versions[k].dependents[j]) < self.records.len(),
    {
        let rs = self.graph();
        let key = self.packages[p].key(k);
        assert(rs.take(self.records.len() as int) =~= rs);
        assert(!Seq::<Key>::empty().contains(key));
        assert(self.packages[p].versions[k].dependent_ids() == dependents_so_far(
            rs,
            self.records.len() as int,
            Seq::empty(),
            key,
        ));
        lemma_dependents(rs, key);
        assert forall|j: int| 0 <= j < self.packages[p].versions[k].dependents.len() implies (
        #[trigger] self.packages[p].versions[k].dependents[j]) < self.records.len() by {
            assert(self.packages[p].versions[k].dependent_ids()[j]
                == self.packages[p].versions[k].dependents[j] as int);
        }
    }
}

} // verus!
