//! The input: one record for each resolved package.

use vstd::prelude::*;
use vstd::string::*;

verus! {

/// A package name together with one exact version: what a dependency names,
/// and what identifies a node of the graph.
pub struct Key {
    pub name: Seq<char>,
    pub version: Seq<char>,
}

/// What a [`Dependency`] says.
pub struct DependencyView {
    pub name: Seq<char>,
    pub version: Seq<char>,
    pub source: Option<Seq<char>>,
}

/// What a [`PackageRecord`] says.
pub struct RecordView {
    pub name: Seq<char>,
    pub version: Seq<char>,
    pub source: Option<Seq<char>>,
    pub checksum: Option<Seq<char>>,
    pub dependencies: Seq<DependencyView>,
    pub replace: Option<DependencyView>,
}

impl DependencyView {
    /// The name and version that the dependency names.
    pub open spec fn key(self) -> Key {
        Key { name: self.name, version: self.version }
    }
}

impl RecordView {
    /// The name and version under which the record is found.
    pub open spec fn key(self) -> Key {
        Key { name: self.name, version: self.version }
    }

    /// The keys that the record's dependencies name, in the order of
    /// declaration.
    pub open spec fn declared(self) -> Seq<Key> {
        self.dependencies.map_values(|d: DependencyView| d.key())
    }

    /// The record lists `key` among its dependencies.
    pub open spec fn declares(self, key: Key) -> bool {
        self.declared().contains(key)
    }
}

/// A declared dependency: the name and exact version of another package,
/// and where it comes from, if that is recorded.
#[derive(Debug, PartialEq, Eq)]
pub struct Dependency {
    pub name: String,
    pub version: String,
    pub source: Option<String>,
}

/// One resolved package: its name and version, its source and checksum
/// where they are recorded, what it depends on, in the order in which it
/// declares it, and what replaces it, if anything does.
#[derive(Debug, PartialEq, Eq)]
pub struct PackageRecord {
    pub name: String,
    pub version: String,
    pub source: Option<String>,
    pub checksum: Option<String>,
    pub dependencies: Vec<Dependency>,
    pub replace: Option<Dependency>,
}

/// The text of an optional string.
pub open spec fn option_text(s: Option<String>) -> Option<Seq<char>> {
    match s {
        Some(s) => Some(s@),
        None => None,
    }
}

/// What an optional dependency says.
pub open spec fn option_dependency(d: Option<Dependency>) -> Option<DependencyView> {
    match d {
        Some(d) => Some(d@),
        None => None,
    }
}

impl View for Dependency {
    type V = DependencyView;

    open spec fn view(&self) -> DependencyView {
        DependencyView {
            name: self.name@,
            version: self.version@,
            source: option_text(self.source),
        }
    }
}

impl View for PackageRecord {
    type V = RecordView;

    open spec fn view(&self) -> RecordView {
        RecordView {
            name: self.name@,
            version: self.version@,
            source: option_text(self.source),
            checksum: option_text(self.checksum),
            dependencies: self.dependencies@.map_values(|d: Dependency| d@),
            replace: option_dependency(self.replace),
        }
    }
}

/// What a list of records says.
pub open spec fn records_view(records: Seq<PackageRecord>) -> Seq<RecordView> {
    records.map_values(|r: PackageRecord| r@)
}

/// How a package is shown in a chain: its name, a space, the letter `v` and
/// its version.
pub open spec fn label_text(name: Seq<char>, version: Seq<char>) -> Seq<char> {
    name + seq![' ', 'v'] + version
}

/// A copy of an optional text.
pub fn copy_text(text: &Option<String>) -> (r: Option<String>)
    ensures
        option_text(r) == option_text(*text),
{
    match text {
        Some(s) => Some(s.clone()),
        None => None,
    }
}

impl Clone for Dependency {
    fn clone(&self) -> (r: Self)
        ensures
            r@ == self@,
    {
        Dependency {
            name: self.name.clone(),
            version: self.version.clone(),
            source: copy_text(&self.source),
        }
    }
}

impl Clone for PackageRecord {
    fn clone(&self) -> (r: Self)
        ensures
            r@ == self@,
    {
        let mut dependencies: Vec<Dependency> = Vec::new();
        let mut i: usize = 0;
        while i < self.dependencies.len()
            invariant
                i <= self.dependencies.len(),
                dependencies.len() == i,
                forall|j: int| 0 <= j < i ==> dependencies[j]@ == self.dependencies[j]@,
            decreases self.dependencies.len() - i,
        {
            dependencies.push(self.dependencies[i].clone());
            i += 1;
        }
        let replace = match &self.replace {
            Some(d) => Some(d.clone()),
            None => None,
        };
        let r = PackageRecord {
            name: self.name.clone(),
            version: self.version.clone(),
            source: copy_text(&self.source),
            checksum: copy_text(&self.checksum),
            dependencies,
            replace,
        };
        proof {
            assert(r@.dependencies =~= self@.dependencies);
        }
        r
    }
}

impl Dependency {
    /// A dependency on the package with this name and version, without a
    /// recorded source.
    pub fn new(name: &str, version: &str) -> (d: Self)
        ensures
            d@ == (DependencyView { name: name@, version: version@, source: None }),
    {
        Dependency { name: name.to_owned(), version: version.to_owned(), source: None }
    }
}

impl PackageRecord {
    /// A record without dependencies, source, checksum or replacement.
    pub fn new(name: &str, version: &str) -> (r: Self)
        ensures
            r@ == (RecordView {
                name: name@,
                version: version@,
                source: None,
                checksum: None,
                dependencies: Seq::<DependencyView>::empty(),
                replace: None,
            }),
    {
        let r = PackageRecord {
            name: name.to_owned(),
            version: version.to_owned(),
            source: None,
            checksum: None,
            dependencies: Vec::new(),
            replace: None,
        };
        proof {
            assert(r@.dependencies =~= Seq::<DependencyView>::empty());
        }
        r
    }

    /// Adds a dependency, without a recorded source, behind those already
    /// declared.
    pub fn depends_on(self, name: &str, version: &str) -> (r: Self)
        ensures
            r@ == (RecordView {
                dependencies: self@.dependencies.push(
                    DependencyView { name: name@, version: version@, source: None },
                ),
                ..self@
            }),
    {
        let mut r = self;
        r.dependencies.push(Dependency::new(name, version));
        proof {
            assert(r@.dependencies =~= self@.dependencies.push(
                DependencyView { name: name@, version: version@, source: None },
            ));
        }
        r
    }

    /// The label of the package: see [`label_text`].
    pub fn label(&self) -> (s: String)
        ensures
            s@ == label_text(self.name@, self.version@),
    {
        make_label(self.name.as_str(), self.version.as_str())
    }
}

/// The label of the package with this name and version.
pub fn make_label(name: &str, version: &str) -> (s: String)
    ensures
        s@ == label_text(name@, version@),
{
    let mut s = name.to_owned();
    s.append(" v");
    s.append(version);
    proof {
        reveal_strlit(" v");
        assert(" v"@ =~= seq![' ', 'v']);
    }
    s
}

} // verus!
