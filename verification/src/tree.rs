//! The mathematical model of a dynamic configuration value, and what merging
//! two such values means.

use vstd::prelude::*;

verus! {

/// The six kinds of dynamic value.
#[derive(Clone, Copy, Debug, PartialEq, Eq, Structural)]
pub enum Kind {
    Null,
    Bool,
    Number,
    String,
    Sequence,
    Mapping,
}

/// A number, held as the integer it is or, for a floating-point number, as its
/// IEEE 754 bit pattern.
#[derive(Clone, Copy, Debug, PartialEq, Eq, Structural)]
pub enum Number {
    PosInt(u64),
    NegInt(i64),
    Float(u64),
}

/// A dynamic configuration value as a mathematical tree. A mapping is the
/// sequence of its entries, in insertion order.
pub ghost enum Tree {
    Null,
    Bool(bool),
    Number(Number),
    String(Seq<char>),
    Sequence(Seq<Tree>),
    Mapping(Seq<(Tree, Tree)>),
}

/// The entries of a mapping, in insertion order.
pub type Entries = Seq<(Tree, Tree)>;

/// What a merge leaves behind: the base as it stands afterwards, and, where
/// the merge failed, the two values whose kinds differ.
pub ghost struct Merged<T> {
    pub base: T,
    pub clash: Option<(Tree, Tree)>,
}

impl Tree {
    pub open spec fn kind(self) -> Kind {
        match self {
            Tree::Null => Kind::Null,
            Tree::Bool(_) => Kind::Bool,
            Tree::Number(_) => Kind::Number,
            Tree::String(_) => Kind::String,
            Tree::Sequence(_) => Kind::Sequence,
            Tree::Mapping(_) => Kind::Mapping,
        }
    }
}

/// `i` is the first index in `es` whose key is `k`.
pub open spec fn first_at(es: Entries, k: Tree, i: int) -> bool {
    &&& 0 <= i < es.len()
    &&& es[i].0 == k
    &&& forall|j: int| 0 <= j < i ==> (#[trigger] es[j]).0 != k
}

/// The index of the first entry of `es` under the key `k`, if there is one.
pub open spec fn position(es: Entries, k: Tree) -> Option<int> {
    if exists|i: int| first_at(es, k, i) {
        Some(choose|i: int| first_at(es, k, i))
    } else {
        None
    }
}

/// No two entries have the same key.
pub open spec fn unique_keys(es: Entries) -> bool {
    forall|i: int, j: int| 0 <= i < j < es.len() ==> (#[trigger] es[i]).0 != (#[trigger] es[j]).0
}

/// Every mapping in the tree, at any depth, has each of its keys once.
pub open spec fn well_formed(t: Tree) -> bool
    decreases t,
{
    match t {
        Tree::Sequence(items) => forall|i: int|
            0 <= i < items.len() ==> well_formed(#[trigger] items[i]),
        Tree::Mapping(es) => well_formed_entries(es),
        _ => true,
    }
}

/// The entries have each key once, and their keys and values are well-formed.
pub open spec fn well_formed_entries(es: Entries) -> bool
    decreases es,
{
    &&& unique_keys(es)
    &&& forall|i: int|
        0 <= i < es.len() ==> well_formed((#[trigger] es[i]).0) && well_formed(es[i].1)
}

/// The result of merging the override `over` into the base `base`. A null
/// base takes any override. Any other base takes only an override of its own
/// kind: a mapping is merged entry by entry, every other value gives way to
/// the override.
pub open spec fn merge_tree(base: Tree, over: Tree) -> Merged<Tree>
    decreases over, 0int,
{
    if base is Null {
        Merged { base: over, clash: None }
    } else if base.kind() != over.kind() {
        Merged { base, clash: Some((base, over)) }
    } else {
        match over {
            Tree::Mapping(es) => {
                let m = merge_from(base->Mapping_0, es, 0);
                Merged { base: Tree::Mapping(m.base), clash: m.clash }
            },
            _ => Merged { base: over, clash: None },
        }
    }
}

/// The result of merging the entries of `over` from index `from` on, in order,
/// into the entries `base`: the value of an entry is merged into the value
/// that the base has under its key, or the entry becomes the base's last
/// where the base has no such key. The first failure ends the merge; what was
/// merged before it stays.
pub open spec fn merge_from(base: Entries, over: Entries, from: int) -> Merged<Entries>
    decreases over, over.len() - from,
{
    if from < 0 || from >= over.len() {
        Merged { base, clash: None }
    } else {
        let k = over[from].0;
        let v = over[from].1;
        match position(base, k) {
            Some(i) => {
                let m = merge_tree(base[i].1, v);
                let next = base.update(i, (base[i].0, m.base));
                if m.clash is Some {
                    Merged { base: next, clash: m.clash }
                } else {
                    merge_from(next, over, from + 1)
                }
            },
            None => merge_from(base.push((k, v)), over, from + 1),
        }
    }
}

/// The value under the key `k` in the entries `es`, if there is one.
pub open spec fn lookup(es: Entries, k: Tree) -> Option<Tree> {
    match position(es, k) {
        Some(i) => Some(es[i].1),
        None => None,
    }
}

/// What a merge without failure leaves under a key, from what the base and
/// the override have under it.
pub open spec fn union_at(base: Option<Tree>, over: Option<Tree>) -> Option<Tree> {
    match (base, over) {
        (Some(b), Some(o)) => Some(merge_tree(b, o).base),
        (None, Some(o)) => Some(o),
        (_, None) => base,
    }
}

/// The first index under a key is the key's position.
pub proof fn lemma_position_found(es: Entries, k: Tree, i: int)
    requires
        first_at(es, k, i),
    ensures
        position(es, k) == Some(i),
{
    let j = choose|j: int| first_at(es, k, j);
    if j < i {
        assert(es[j].0 != k);
    } else if i < j {
        assert(es[i].0 != k);
    }
}

/// A key that no entry has is at no position.
pub proof fn lemma_position_absent(es: Entries, k: Tree)
    requires
        forall|j: int| 0 <= j < es.len() ==> (#[trigger] es[j]).0 != k,
    ensures
        position(es, k) is None,
{
    if exists|i: int| first_at(es, k, i) {
        let i = choose|i: int| first_at(es, k, i);
        assert(es[i].0 != k);
    }
}

/// A position is an index of the entries, holds the key, and is the first to.
pub proof fn lemma_position_is_first(es: Entries, k: Tree)
    ensures
        position(es, k) matches Some(i) ==> first_at(es, k, i),
        position(es, k) is None ==> forall|j: int|
            0 <= j < es.len() ==> (#[trigger] es[j]).0 != k,
{
    if position(es, k) is None {
        assert forall|j: int| 0 <= j < es.len() implies (#[trigger] es[j]).0 != k by {
            if es[j].0 == k {
                lemma_exists_first(es, k, j);
            }
        }
    }
}

/// Where some entry has the key, a first one has it.
pub proof fn lemma_exists_first(es: Entries, k: Tree, j: int)
    requires
        0 <= j < es.len(),
        es[j].0 == k,
    ensures
        exists|i: int| first_at(es, k, i),
    decreases j,
{
    if exists|h: int| 0 <= h < j && (#[trigger] es[h]).0 == k {
        let h = choose|h: int| 0 <= h < j && (#[trigger] es[h]).0 == k;
        lemma_exists_first(es, k, h);
    } else {
        assert(first_at(es, k, j));
    }
}

/// Entries with the same keys at the same indices have each key at the same
/// position.
pub proof fn lemma_position_by_keys(a: Entries, b: Entries, k: Tree)
    requires
        a.len() == b.len(),
        forall|j: int| 0 <= j < a.len() ==> (#[trigger] a[j]).0 == b[j].0,
    ensures
        position(a, k) == position(b, k),
{
    lemma_position_is_first(a, k);
    match position(a, k) {
        Some(i) => {
            assert(b[i].0 == k);
            assert forall|j: int| 0 <= j < i implies (#[trigger] b[j]).0 != k by {
                assert(a[j].0 != k);
            }
            lemma_position_found(b, k, i);
        },
        None => {
            assert forall|j: int| 0 <= j < b.len() implies (#[trigger] b[j]).0 != k by {
                assert(a[j].0 != k);
            }
            lemma_position_absent(b, k);
        },
    }
}

/// A new value under the key at index `i` is found under that key; every
/// other key has what it had.
pub proof fn lemma_lookup_update(es: Entries, i: int, value: Tree, k: Tree)
    requires
        0 <= i < es.len(),
    ensures
        position(es.update(i, (es[i].0, value)), k) == position(es, k),
        lookup(es.update(i, (es[i].0, value)), k) == if position(es, k) == Some(i) {
            Some(value)
        } else {
            lookup(es, k)
        },
{
    lemma_position_by_keys(es.update(i, (es[i].0, value)), es, k);
    lemma_position_is_first(es, k);
}

/// A new last entry under a key that the entries did not have is found under
/// that key; every other key has what it had.
pub proof fn lemma_lookup_push(es: Entries, key: Tree, value: Tree, k: Tree)
    requires
        position(es, key) is None,
    ensures
        lookup(es.push((key, value)), k) == if k == key {
            Some(value)
        } else {
            lookup(es, k)
        },
{
    let next = es.push((key, value));
    lemma_position_is_first(es, k);
    lemma_position_is_first(es, key);
    match position(es, k) {
        Some(i) => {
            assert(next[i] == es[i]);
            assert forall|j: int| 0 <= j < i implies (#[trigger] next[j]).0 != k by {
                assert(next[j] == es[j]);
            }
            lemma_position_found(next, k, i);
        },
        None => {
            if k == key {
                assert(next[es.len() as int] == (key, value));
                assert forall|j: int| 0 <= j < es.len() implies (#[trigger] next[j]).0 != k by {
                    assert(next[j] == es[j]);
                }
                lemma_position_found(next, k, es.len() as int);
            } else {
                assert forall|j: int| 0 <= j < next.len() implies (#[trigger] next[j]).0 != k by {
                    if j < es.len() {
                        assert(next[j] == es[j]);
                    }
                }
                lemma_position_absent(next, k);
            }
        },
    }
}

/// A key is found at the first entry, or else where it is found behind it.
pub proof fn lemma_lookup_head(es: Entries, k: Tree)
    requires
        es.len() > 0,
    ensures
        lookup(es, k) == if es[0].0 == k {
            Some(es[0].1)
        } else {
            lookup(es.skip(1), k)
        },
{
    let tail = es.skip(1);
    if es[0].0 == k {
        lemma_position_found(es, k, 0);
    } else {
        lemma_position_is_first(tail, k);
        match position(tail, k) {
            Some(i) => {
                assert(es[i + 1] == tail[i]);
                assert forall|j: int| 0 <= j < i + 1 implies (#[trigger] es[j]).0 != k by {
                    if j > 0 {
                        assert(es[j] == tail[j - 1]);
                    }
                }
                lemma_position_found(es, k, i + 1);
            },
            None => {
                assert forall|j: int| 0 <= j < es.len() implies (#[trigger] es[j]).0 != k by {
                    if j > 0 {
                        assert(es[j] == tail[j - 1]);
                    }
                }
                lemma_position_absent(es, k);
            },
        }
    }
}

} // verus!
