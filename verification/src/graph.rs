//! The dependency graph that a list of records describes, as mathematics.
//!
//! A node is a [`Key`] that some record carries. An edge runs from a record
//! to each key that it declares; the records at the tail of the edges into a
//! key are that key's dependents.

use vstd::prelude::*;
use crate::record::{Key, RecordView};

verus! {

/// Some record carries this name.
pub open spec fn has_name(rs: Seq<RecordView>, name: Seq<char>) -> bool {
    exists|i: int| 0 <= i < rs.len() && (#[trigger] rs[i]).name == name
}

/// Some record carries this name and version: the key is a node.
pub open spec fn resolved(rs: Seq<RecordView>, key: Key) -> bool {
    exists|i: int| 0 <= i < rs.len() && (#[trigger] rs[i]).key() == key
}

/// The distinct versions under which `name` occurs, each where it is first
/// met.
pub open spec fn versions_of(rs: Seq<RecordView>, name: Seq<char>) -> Seq<Seq<char>>
    decreases rs.len(),
{
    if rs.len() == 0 {
        Seq::empty()
    } else {
        let before = versions_of(rs.drop_last(), name);
        let r = rs.last();
        if r.name == name && !before.contains(r.version) {
            before.push(r.version)
        } else {
            before
        }
    }
}

/// The positions of the records that declare `key`, in increasing order.
pub open spec fn dependents_of(rs: Seq<RecordView>, key: Key) -> Seq<int>
    decreases rs.len(),
{
    if rs.len() == 0 {
        Seq::empty()
    } else {
        let before = dependents_of(rs.drop_last(), key);
        if rs.last().declares(key) {
            before.push(rs.len() - 1)
        } else {
            before
        }
    }
}

/// A declared dependency that no record satisfies.
pub struct Edge {
    pub dependent: int,
    pub target: Key,
}

/// Of the dependencies `deps` of record `who`, those that are no node of the
/// graph, in the order of declaration.
pub open spec fn unresolved_among(rs: Seq<RecordView>, who: int, deps: Seq<Key>) -> Seq<Edge>
    decreases deps.len(),
{
    if deps.len() == 0 {
        Seq::empty()
    } else {
        let before = unresolved_among(rs, who, deps.drop_last());
        if resolved(rs, deps.last()) {
            before
        } else {
            before.push(Edge { dependent: who, target: deps.last() })
        }
    }
}

/// The unresolved dependencies of the first `upto` records, record by
/// record.
pub open spec fn unresolved_edges(rs: Seq<RecordView>, upto: int) -> Seq<Edge>
    decreases upto,
{
    if upto <= 0 {
        Seq::empty()
    } else {
        unresolved_edges(rs, upto - 1) + unresolved_among(
            rs,
            upto - 1,
            rs[upto - 1].declared(),
        )
    }
}

/// What one more record does to the versions of a name.
pub proof fn lemma_versions_push(rs: Seq<RecordView>, r: RecordView, name: Seq<char>)
    ensures
        versions_of(rs.push(r), name) == if r.name == name && !versions_of(rs, name).contains(
            r.version,
        ) {
            versions_of(rs, name).push(r.version)
        } else {
            versions_of(rs, name)
        },
{
    assert(rs.push(r).drop_last() =~= rs);
}

/// What one more record does to the names.
pub proof fn lemma_has_name_push(rs: Seq<RecordView>, r: RecordView, name: Seq<char>)
    ensures
        has_name(rs.push(r), name) <==> has_name(rs, name) || r.name == name,
{
    let more = rs.push(r);
    if has_name(rs, name) {
        let i = choose|i: int| 0 <= i < rs.len() && (#[trigger] rs[i]).name == name;
        assert(more[i].name == name);
    }
    if r.name == name {
        assert(more[rs.len() as int].name == name);
    }
    if has_name(more, name) {
        let i = choose|i: int| 0 <= i < more.len() && (#[trigger] more[i]).name == name;
        if i < rs.len() {
            assert(rs[i].name == name);
        }
    }
}

/// What one more record does to the dependents of a key.
pub proof fn lemma_dependents_push(rs: Seq<RecordView>, r: RecordView, key: Key)
    ensures
        dependents_of(rs.push(r), key) == if r.declares(key) {
            dependents_of(rs, key).push(rs.len() as int)
        } else {
            dependents_of(rs, key)
        },
{
    assert(rs.push(r).drop_last() =~= rs);
}

/// What one more dependency does to the unresolved ones of a record.
pub proof fn lemma_unresolved_push(rs: Seq<RecordView>, who: int, deps: Seq<Key>, dep: Key)
    ensures
        unresolved_among(rs, who, deps.push(dep)) == if resolved(rs, dep) {
            unresolved_among(rs, who, deps)
        } else {
            unresolved_among(rs, who, deps).push(Edge { dependent: who, target: dep })
        },
{
    assert(deps.push(dep).drop_last() =~= deps);
}

/// A version is listed for a name exactly when a record carries both.
pub proof fn lemma_versions_member(rs: Seq<RecordView>, name: Seq<char>, version: Seq<char>)
    ensures
        versions_of(rs, name).contains(version) <==> resolved(
            rs,
            Key { name, version },
        ),
    decreases rs.len(),
{
    let key = Key { name, version };
    if rs.len() > 0 {
        let init = rs.drop_last();
        let before = versions_of(init, name);
        lemma_versions_member(init, name, version);
        if versions_of(rs, name).contains(version) {
            if before.contains(version) {
                let i = choose|i: int| 0 <= i < init.len() && (#[trigger] init[i]).key() == key;
                assert(rs[i].key() == key);
            } else {
                assert(before.push(rs.last().version).contains(version));
                let k = choose|k: int|
                    0 <= k < before.push(rs.last().version).len() && before.push(
                        rs.last().version,
                    )[k] == version;
                if k < before.len() {
                    assert(before[k] == version);
                }
                assert(rs[rs.len() - 1].key() == key);
            }
        }
        if resolved(rs, key) {
            let i = choose|i: int| 0 <= i < rs.len() && (#[trigger] rs[i]).key() == key;
            if i < rs.len() - 1 {
                assert(init[i].key() == key);
                assert(before.contains(version));
                let k = choose|k: int| 0 <= k < before.len() && before[k] == version;
                assert(versions_of(rs, name)[k] == version);
            } else {
                if before.contains(version) {
                } else {
                    assert(versions_of(rs, name)[before.len() as int] == version);
                }
            }
        }
    }
}

/// No version is listed twice for a name.
pub proof fn lemma_versions_distinct(rs: Seq<RecordView>, name: Seq<char>)
    ensures
        versions_of(rs, name).no_duplicates(),
    decreases rs.len(),
{
    if rs.len() > 0 {
        lemma_versions_distinct(rs.drop_last(), name);
    }
}

/// A name has versions exactly when a record carries it.
pub proof fn lemma_versions_exist(rs: Seq<RecordView>, name: Seq<char>)
    ensures
        versions_of(rs, name).len() > 0 <==> has_name(rs, name),
    decreases rs.len(),
{
    if rs.len() > 0 {
        let init = rs.drop_last();
        lemma_versions_exist(init, name);
        if has_name(init, name) {
            let i = choose|i: int| 0 <= i < init.len() && (#[trigger] init[i]).name == name;
            assert(rs[i].name == name);
        }
        if has_name(rs, name) {
            let i = choose|i: int| 0 <= i < rs.len() && (#[trigger] rs[i]).name == name;
            if i < rs.len() - 1 {
                assert(init[i].name == name);
            }
        }
        if versions_of(rs, name).len() > 0 && !has_name(init, name) {
            assert(rs[rs.len() - 1].name == name);
        }
    }
}

/// The dependents of a key are the records that declare it, each once and
/// in the order of the records.
pub proof fn lemma_dependents(rs: Seq<RecordView>, key: Key)
    ensures
        forall|k: int|
            0 <= k < dependents_of(rs, key).len() ==> 0 <= (#[trigger] dependents_of(rs, key)[k])
                < rs.len() && rs[dependents_of(rs, key)[k]].declares(key),
        forall|d: int|
            0 <= d < rs.len() && (#[trigger] rs[d]).declares(key) ==> dependents_of(
                rs,
                key,
            ).contains(d),
        forall|a: int, b: int|
            0 <= a < b < dependents_of(rs, key).len() ==> dependents_of(rs, key)[a]
                < dependents_of(rs, key)[b],
    decreases rs.len(),
{
    if rs.len() > 0 {
        let init = rs.drop_last();
        let before = dependents_of(init, key);
        let all = dependents_of(rs, key);
        lemma_dependents(init, key);
        assert forall|k: int| 0 <= k < all.len() implies 0 <= (#[trigger] all[k]) < rs.len()
            && rs[all[k]].declares(key) by {
            if k < before.len() {
                assert(all[k] == before[k]);
                assert(init[before[k]] == rs[before[k]]);
            }
        }
        assert forall|d: int| 0 <= d < rs.len() && (#[trigger] rs[d]).declares(key) implies all.contains(
            d,
        ) by {
            if d < rs.len() - 1 {
                assert(init[d].declares(key));
                let k = choose|k: int| 0 <= k < before.len() && before[k] == d;
                assert(all[k] == d);
            } else {
                assert(all[before.len() as int] == d);
            }
        }
        assert forall|a: int, b: int| 0 <= a < b < all.len() implies all[a] < all[b] by {
            assert(all[a] == before[a]);
            if b < before.len() {
                assert(all[b] == before[b]);
            }
        }
    }
}

} // verus!
