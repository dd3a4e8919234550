//! Usage chains: from a package through its dependents towards a root.

use vstd::prelude::*;
use vstd::string::*;
use crate::graph::{dependents_of, lemma_dependents, resolved};
use crate::index::DependencyIndex;
use crate::names::same_text;
use crate::detect::Duplicate;
use crate::record::{label_text, make_label, Dependency, Key, PackageRecord, RecordView};
use crate::version::texts;

verus! {

/// The way from a package towards a root, as the labels of the packages on
/// it, and whether it ended because it came back to a package already on it.
#[derive(Debug, PartialEq, Eq)]
pub struct UsageChain {
    pub labels: Vec<String>,
    pub cyclic: bool,
}

/// What a walk found: the keys on the way, and whether it ended in a cycle.
pub struct Walk {
    pub path: Seq<Key>,
    pub cyclic: bool,
}

/// The step from a node: to the first record that depends on it. There is
/// none from a key that no record carries, nor from one without dependents.
pub open spec fn next_node(rs: Seq<RecordView>, key: Key) -> Option<Key> {
    if resolved(rs, key) && dependents_of(rs, key).len() > 0 {
        Some(rs[dependents_of(rs, key)[0]].key())
    } else {
        None
    }
}

/// Goes on from the end of `path` for at most `fuel` steps. The walk ends
/// where there is no step, and ends as cyclic where the step leads to a key
/// that is on the path already, or the fuel is spent.
pub open spec fn walk(rs: Seq<RecordView>, path: Seq<Key>, fuel: nat) -> Walk
    decreases fuel,
{
    match next_node(rs, path.last()) {
        None => Walk { path, cyclic: false },
        Some(next) => if path.contains(next) || fuel == 0 {
            Walk { path, cyclic: true }
        } else {
            walk(rs, path.push(next), (fuel - 1) as nat)
        },
    }
}

/// The walk from `start`, with a step for every record to spend.
pub open spec fn chain_from(rs: Seq<RecordView>, start: Key) -> Walk {
    walk(rs, seq![start], rs.len())
}

/// The labels of the keys of a path.
pub open spec fn labels_of(path: Seq<Key>) -> Seq<Seq<char>> {
    path.map_values(|k: Key| label_text(k.name, k.version))
}

/// The keys of a list of name and version pairs.
pub open spec fn keys_of(nodes: Seq<Dependency>) -> Seq<Key> {
    nodes.map_values(|d: Dependency| d@.key())
}

/// What stands between two labels of a written chain.
pub open spec fn arrow() -> Seq<char> {
    seq![' ', '-', '>', ' ']
}

/// What is written behind a chain that ended in a cycle.
pub open spec fn cycle_mark() -> Seq<char> {
    seq![' ', '-', '>', ' ', '.', '.', '.']
}

/// The parts, with the separator between each two.
pub open spec fn joined(parts: Seq<Seq<char>>, separator: Seq<char>) -> Seq<char>
    decreases parts.len(),
{
    if parts.len() == 0 {
        Seq::empty()
    } else if parts.len() == 1 {
        parts[0]
    } else {
        joined(parts.drop_last(), separator) + separator + parts.last()
    }
}

/// A chain as one line: the labels with an arrow between each two, and the
/// cycle mark behind them where the chain is cyclic.
pub open spec fn chain_text(labels: Seq<Seq<char>>, cyclic: bool) -> Seq<char> {
    if cyclic {
        joined(labels, arrow()) + cycle_mark()
    } else {
        joined(labels, arrow())
    }
}

/// Whether one of the nodes has this name and version.
fn on_path(nodes: &Vec<Dependency>, name: &str, version: &str) -> (found: bool)
    ensures
        found == keys_of(nodes@).contains(Key { name: name@, version: version@ }),
{
    let ghost key = Key { name: name@, version: version@ };
    let mut i: usize = 0;
    while i < nodes.len()
        invariant
            i <= nodes.len(),
            key == (Key { name: name@, version: version@ }),
            forall|j: int| 0 <= j < i ==> keys_of(nodes@)[j] != key,
        decreases nodes.len() - i,
    {
        if same_text(nodes[i].name.as_str(), name) && same_text(nodes[i].version.as_str(), version) {
            proof {
                assert(keys_of(nodes@)[i as int] == key);
            }
            return true;
        }
        i += 1;
    }
    false
}

impl DependencyIndex {
    /// The first record that depends on the package with this name and
    /// version, by its position.
    pub fn first_dependent(&self, name: &str, version: &str) -> (r: Option<usize>)
        requires
            self.wf(),
        ensures
            match r {
                Some(d) => {
                    &&& d < self.records.len()
                    &&& resolved(self.graph(), Key { name: name@, version: version@ })
                    &&& dependents_of(self.graph(), Key { name: name@, version: version@ }).len() > 0
                    &&& d == dependents_of(self.graph(), Key { name: name@, version: version@ })[0]
                },
                None => next_node(self.graph(), Key { name: name@, version: version@ }) is None,
            },
    {
        match self.find(name, version) {
            None => None,
            Some((p, k)) => {
                proof {
                    self.lemma_entry(p as int, k as int);
                }
                let entry = &self.packages[p].versions[k];
                if entry.dependents.len() == 0 {
                    None
                } else {
                    proof {
                        assert(entry.dependent_ids()[0] == entry.dependents[0] as int);
                    }
                    Some(entry.dependents[0])
                }
            },
        }
    }

    /// Traces the usage chain of a package.
    ///
    /// The chain begins with the package itself. From each package it goes on
    /// to the first record that depends on it, until it reaches a package
    /// without dependents, or one whose first dependent is on the chain
    /// already: the chain then ends as cyclic.
    pub fn trace(&self, start: &PackageRecord) -> (chain: UsageChain)
        requires
            self.wf(),
        ensures
            texts(chain.labels@) == labels_of(chain_from(self.graph(), start@.key()).path),
            chain.cyclic == chain_from(self.graph(), start@.key()).cyclic,
    {
        let ghost rs = self.graph();
        let ghost goal = chain_from(rs, start@.key());
        let mut nodes: Vec<Dependency> = Vec::new();
        let mut labels: Vec<String> = Vec::new();
        nodes.push(
            Dependency { name: start.name.clone(), version: start.version.clone(), source: None },
        );
        labels.push(start.label());
        let mut fuel: usize = self.records.len();
        let mut cyclic = false;
        let mut done = false;
        proof {
            assert(keys_of(nodes@) =~= seq![start@.key()]);
            assert(texts(labels@) =~= labels_of(keys_of(nodes@)));
        }
        while !done
            invariant
                self.wf(),
                rs == self.graph(),
                nodes.len() >= 1,
                texts(labels@) == labels_of(keys_of(nodes@)),
                !done ==> !cyclic,
                !done ==> walk(rs, keys_of(nodes@), fuel as nat) == goal,
                done ==> (Walk { path: keys_of(nodes@), cyclic }) == goal,
            decreases
                    (if done {
                        0
                    } else {
                        fuel + 1
                    }),
        {
            let ghost path = keys_of(nodes@);
            let last = &nodes[nodes.len() - 1];
            proof {
                assert(path.last() == last@.key());
            }
            match self.first_dependent(last.name.as_str(), last.version.as_str()) {
                None => {
                    done = true;
                },
                Some(d) => {
                    let next = &self.records[d];
                    proof {
                        assert(rs[d as int] == next@);
                    }
                    if fuel == 0 || on_path(&nodes, next.name.as_str(), next.version.as_str()) {
                        cyclic = true;
                        done = true;
                    } else {
                        let ghost shown = texts(labels@);
                        nodes.push(
                            Dependency {
                                name: next.name.clone(),
                                version: next.version.clone(),
                                source: None,
                            },
                        );
                        labels.push(make_label(next.name.as_str(), next.version.as_str()));
                        fuel -= 1;
                        proof {
                            assert(keys_of(nodes@) =~= path.push(next@.key()));
                            assert(texts(labels@) =~= shown.push(
                                label_text(next@.name, next@.version),
                            ));
                            assert(texts(labels@) =~= labels_of(keys_of(nodes@)));
                        }
                    }
                },
            }
        }
        UsageChain { labels, cyclic }
    }
}

impl DependencyIndex {
    /// Explains a duplicate: the usage chain of each of its users, in their
    /// order.
    pub fn explain(&self, duplicate: &Duplicate) -> (chains: Vec<UsageChain>)
        requires
            self.wf(),
        ensures
            chains.len() == duplicate.users.len(),
            forall|i: int|
                0 <= i < chains.len() ==> {
                    let goal = chain_from(self.graph(), duplicate.users[i]@.key());
                    &&& texts((#[trigger] chains[i]).labels@) == labels_of(goal.path)
                    &&& chains[i].cyclic == goal.cyclic
                },
    {
        let mut chains: Vec<UsageChain> = Vec::new();
        let mut i: usize = 0;
        while i < duplicate.users.len()
            invariant
                self.wf(),
                i <= duplicate.users.len(),
                chains.len() == i,
                forall|j: int|
                    0 <= j < i ==> {
                        let goal = chain_from(self.graph(), duplicate.users[j]@.key());
                        &&& texts((#[trigger] chains[j]).labels@) == labels_of(goal.path)
                        &&& chains[j].cyclic == goal.cyclic
                    },
            decreases duplicate.users.len() - i,
        {
            chains.push(self.trace(&duplicate.users[i]));
            i += 1;
        }
        chains
    }
}

impl UsageChain {
    /// Writes the chain as one line: see [`chain_text`].
    pub fn render(&self) -> (line: String)
        ensures
            line@ == chain_text(texts(self.labels@), self.cyclic),
    {
        let ghost parts = texts(self.labels@);
        let mut line = String::new();
        let mut i: usize = 0;
        proof {
            reveal_strlit(" -> ");
            reveal_strlit(" -> ...");
            assert(" -> "@ =~= arrow());
            assert(" -> ..."@ =~= cycle_mark());
            assert(line@ =~= joined(parts.take(0), arrow()));
        }
        while i < self.labels.len()
            invariant
                i <= self.labels.len(),
                parts == texts(self.labels@),
                " -> "@ == arrow(),
                line@ == joined(parts.take(i as int), arrow()),
            decreases self.labels.len() - i,
        {
            proof {
                assert(parts.take(i + 1).drop_last() =~= parts.take(i as int));
                assert(parts.take(i + 1).last() == self.labels[i as int]@);
            }
            if i > 0 {
                line.append(" -> ");
            }
            line.append(self.labels[i].as_str());
            proof {
                if i == 0 {
                    assert(line@ =~= parts.take(1)[0]);
                }
            }
            i += 1;
        }
        proof {
            assert(parts.take(i as int) =~= parts);
        }
        if self.cyclic {
            line.append(" -> ...");
        }
        line
    }
}

/// The usage chain of a package, written as one line.
pub fn get_usage_chain(index: &DependencyIndex, package: &PackageRecord) -> (line: String)
    requires
        index.wf(),
    ensures
        line@ == chain_text(
            labels_of(chain_from(index.graph(), package@.key()).path),
            chain_from(index.graph(), package@.key()).cyclic,
        ),
{
    index.trace(package).render()
}

/// Some record carries the key `to` and declares the key `from`.
pub open spec fn step_declared(rs: Seq<RecordView>, from: Key, to: Key) -> bool {
    exists|d: int| 0 <= d < rs.len() && (#[trigger] rs[d]).key() == to && rs[d].declares(from)
}

/// Every key of the path but the first belongs to a record that declares
/// the key before it.
pub open spec fn linked(rs: Seq<RecordView>, path: Seq<Key>) -> bool {
    forall|i: int| 1 <= i < path.len() ==> step_declared(rs, path[i - 1], #[trigger] path[i])
}

/// Every key of the path but the first is a node of the graph, and so is
/// the first where the path goes on from it.
pub open spec fn on_nodes(rs: Seq<RecordView>, path: Seq<Key>) -> bool {
    &&& forall|i: int| 1 <= i < path.len() ==> resolved(rs, #[trigger] path[i])
    &&& path.len() > 1 ==> resolved(rs, path[0])
}

/// The step from a node leads to a node, through a declared dependency.
proof fn lemma_next_node(rs: Seq<RecordView>, key: Key)
    ensures
        next_node(rs, key) matches Some(next) ==> resolved(rs, key) && resolved(rs, next)
            && step_declared(rs, key, next),
{
    if next_node(rs, key) is Some {
        lemma_dependents(rs, key);
        let d = dependents_of(rs, key)[0];
        assert(rs[d].key() == next_node(rs, key)->0);
        assert(rs[d].declares(key));
    }
}

/// Keys that are nodes and differ from each other are no more than there
/// are records.
proof fn lemma_distinct_nodes_bounded(rs: Seq<RecordView>, keys: Seq<Key>)
    requires
        keys.no_duplicates(),
        forall|i: int| 0 <= i < keys.len() ==> resolved(rs, #[trigger] keys[i]),
    ensures
        keys.len() <= rs.len(),
    decreases rs.len(),
{
    if keys.len() > 0 {
        if rs.len() == 0 {
            assert(resolved(rs, keys[0]));
        } else {
            let init = rs.drop_last();
            let r = rs.last();
            if keys.contains(r.key()) {
                let j = choose|j: int| 0 <= j < keys.len() && keys[j] == r.key();
                let rest = keys.remove(j);
                assert forall|i: int| 0 <= i < rest.len() implies resolved(init, #[trigger] rest[i]) by {
                    let o = if i < j {
                        i
                    } else {
                        i + 1
                    };
                    assert(rest[i] == keys[o]);
                    assert(resolved(rs, keys[o]));
                    let w = choose|w: int| 0 <= w < rs.len() && (#[trigger] rs[w]).key() == keys[o];
                    assert(init[w].key() == keys[o]);
                }
                assert forall|a: int, b: int| 0 <= a < rest.len() && 0 <= b < rest.len() && a != b implies rest[a]
                    != rest[b] by {
                    let oa = if a < j {
                        a
                    } else {
                        a + 1
                    };
                    let ob = if b < j {
                        b
                    } else {
                        b + 1
                    };
                    assert(rest[a] == keys[oa]);
                    assert(rest[b] == keys[ob]);
                }
                lemma_distinct_nodes_bounded(init, rest);
            } else {
                assert forall|i: int| 0 <= i < keys.len() implies resolved(init, #[trigger] keys[i]) by {
                    assert(resolved(rs, keys[i]));
                    let w = choose|w: int| 0 <= w < rs.len() && (#[trigger] rs[w]).key() == keys[i];
                    assert(init[w].key() == keys[i]);
                }
                lemma_distinct_nodes_bounded(init, keys);
            }
        }
    }
}

/// What a walk keeps and what it ends on.
proof fn lemma_walk(rs: Seq<RecordView>, path: Seq<Key>, fuel: nat)
    requires
        path.len() >= 1,
        path.no_duplicates(),
        linked(rs, path),
        on_nodes(rs, path),
        fuel + path.len() == rs.len() + 1,
    ensures
        ({
            let w = walk(rs, path, fuel);
            &&& w.path.len() >= path.len()
            &&& w.path[0] == path[0]
            &&& w.path.no_duplicates()
            &&& linked(rs, w.path)
            &&& on_nodes(rs, w.path)
            &&& w.cyclic <==> (next_node(rs, w.path.last()) matches Some(next) && w.path.contains(next))
            &&& !w.cyclic ==> next_node(rs, w.path.last()) is None
        }),
    decreases fuel,
{
    lemma_next_node(rs, path.last());
    match next_node(rs, path.last()) {
        None => {},
        Some(next) => {
            if !path.contains(next) {
                let longer = path.push(next);
                assert forall|a: int, b: int| 0 <= a < longer.len() && 0 <= b < longer.len() && a != b implies longer[a]
                    != longer[b] by {
                    if a < path.len() {
                        assert(path.contains(longer[a]));
                    }
                    if b < path.len() {
                        assert(path.contains(longer[b]));
                    }
                }
                assert forall|i: int| 0 <= i < longer.len() implies resolved(rs, #[trigger] longer[i]) by {
                    if i == 0 {
                        if path.len() == 1 {
                            assert(path.last() == path[0]);
                        }
                    } else if i < path.len() {
                        assert(longer[i] == path[i]);
                    }
                }
                lemma_distinct_nodes_bounded(rs, longer);
                assert forall|i: int| 1 <= i < longer.len() implies step_declared(
                    rs,
                    longer[i - 1],
                    #[trigger] longer[i],
                ) by {
                    if i < path.len() {
                        assert(longer[i] == path[i]);
                        assert(longer[i - 1] == path[i - 1]);
                    }
                }
                lemma_walk(rs, longer, (fuel - 1) as nat);
                assert(walk(rs, longer, (fuel - 1) as nat).path[0] == longer[0]);
            }
        },
    }
}

/// A chain begins with the package it was asked for, and every further
/// package on it belongs to a record that declares the one before it as a
/// dependency.
pub proof fn lemma_chain_follows_declarations(rs: Seq<RecordView>, start: Key)
    ensures
        chain_from(rs, start).path.len() >= 1,
        chain_from(rs, start).path[0] == start,
        linked(rs, chain_from(rs, start).path),
{
    lemma_walk(rs, seq![start], rs.len());
}

/// A chain ends, and says how. No package is on it twice, so it has no more
/// packages than there are records, and one. It is cyclic exactly where the
/// step from its last package leads back onto it; otherwise there is no
/// step from its last package.
pub proof fn lemma_chain_ends(rs: Seq<RecordView>, start: Key)
    ensures
        ({
            let chain = chain_from(rs, start);
            &&& chain.path.no_duplicates()
            &&& chain.path.len() <= rs.len() + 1
            &&& chain.cyclic <==> (next_node(rs, chain.path.last()) matches Some(next)
                && chain.path.contains(next))
            &&& !chain.cyclic ==> next_node(rs, chain.path.last()) is None
        }),
{
    lemma_walk(rs, seq![start], rs.len());
    let chain = chain_from(rs, start);
    if chain.path.len() > 1 {
        assert forall|i: int| 0 <= i < chain.path.len() implies resolved(
            rs,
            #[trigger] chain.path[i],
        ) by {}
        lemma_distinct_nodes_bounded(rs, chain.path);
    }
}

} // verus!
