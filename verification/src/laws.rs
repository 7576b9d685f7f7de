//! Laws of merging dynamic values, proved of the model that the contracts of
//! `Value` and `Mapping` are stated over.

use vstd::prelude::*;
use crate::tree::{
    first_at, lemma_lookup_head, lemma_lookup_push, lemma_lookup_update, lemma_position_absent,
    lemma_position_found, lemma_position_is_first, lookup, merge_from, merge_tree, position,
    union_at, unique_keys, well_formed, well_formed_entries, Entries, Tree,
};

verus! {

/// Null absorbs: merging any override into a null base gives the override
/// itself, and does not fail.
pub proof fn law_null_absorbs(over: Tree)
    ensures
        merge_tree(Tree::Null, over).base == over,
        merge_tree(Tree::Null, over).clash is None,
{
}

/// A base that is not null rejects an override of another kind: the merge
/// fails with the two values, and the base is as it was.
pub proof fn law_other_kind_rejected(base: Tree, over: Tree)
    requires
        !(base is Null),
        base.kind() != over.kind(),
    ensures
        merge_tree(base, over).base == base,
        merge_tree(base, over).clash == Some((base, over)),
{
}

/// Between two values of one kind that are not mappings, the override wins:
/// truth values, numbers and strings are replaced, and so is a sequence,
/// whole.
pub proof fn law_override_wins(base: Tree, over: Tree)
    requires
        base.kind() == over.kind(),
        !(over is Mapping),
    ensures
        merge_tree(base, over).base == over,
        merge_tree(base, over).clash is None,
{
}

/// A value that has a kind keeps it through every merge, failed or not.
pub proof fn law_kind_is_kept(base: Tree, over: Tree)
    requires
        !(base is Null),
    ensures
        merge_tree(base, over).base.kind() == base.kind(),
{
}

/// The two values that a failed merge reports are a base that is not null and
/// an override of another kind: the pair at which the merge stopped, at
/// whatever depth.
pub proof fn law_clash_is_of_two_kinds(base: Tree, over: Tree)
    ensures
        merge_tree(base, over).clash matches Some(pair) ==> !(pair.0 is Null) && pair.0.kind()
            != pair.1.kind(),
    decreases over, 0int,
{
    if !(base is Null) && base.kind() == over.kind() {
        match over {
            Tree::Mapping(es) => {
                lemma_entries_clash_is_of_two_kinds(base->Mapping_0, es, 0);
            },
            _ => {},
        }
    }
}

proof fn lemma_entries_clash_is_of_two_kinds(base: Entries, over: Entries, from: int)
    ensures
        merge_from(base, over, from).clash matches Some(pair) ==> !(pair.0 is Null)
            && pair.0.kind() != pair.1.kind(),
    decreases over, over.len() - from,
{
    if 0 <= from < over.len() {
        let k = over[from].0;
        let v = over[from].1;
        match position(base, k) {
            Some(i) => {
                let m = merge_tree(base[i].1, v);
                law_clash_is_of_two_kinds(base[i].1, v);
                if m.clash is None {
                    lemma_entries_clash_is_of_two_kinds(
                        base.update(i, (base[i].0, m.base)),
                        over,
                        from + 1,
                    );
                }
            },
            None => {
                lemma_entries_clash_is_of_two_kinds(base.push((k, v)), over, from + 1);
            },
        }
    }
}

/// Merging a well-formed value with itself changes nothing and does not fail.
pub proof fn law_idempotent(t: Tree)
    requires
        well_formed(t),
    ensures
        merge_tree(t, t).base == t,
        merge_tree(t, t).clash is None,
    decreases t, 0int,
{
    match t {
        Tree::Mapping(es) => {
            lemma_entries_idempotent(es, 0);
        },
        _ => {},
    }
}

proof fn lemma_entries_idempotent(es: Entries, from: int)
    requires
        well_formed_entries(es),
        0 <= from <= es.len(),
    ensures
        merge_from(es, es, from).base == es,
        merge_from(es, es, from).clash is None,
    decreases es, es.len() - from,
{
    if from < es.len() {
        assert(first_at(es, es[from].0, from));
        lemma_position_found(es, es[from].0, from);
        law_idempotent(es[from].1);
        assert(es.update(from, (es[from].0, es[from].1)) =~= es);
        lemma_entries_idempotent(es, from + 1);
    }
}

/// Merging well-formed values leaves a well-formed base, failed or not.
pub proof fn law_well_formed_is_kept(base: Tree, over: Tree)
    requires
        well_formed(base),
        well_formed(over),
    ensures
        well_formed(merge_tree(base, over).base),
    decreases over, 0int,
{
    if !(base is Null) && base.kind() == over.kind() {
        match over {
            Tree::Mapping(es) => {
                lemma_entries_well_formed_is_kept(base->Mapping_0, es, 0);
            },
            _ => {},
        }
    }
}

pub proof fn lemma_entries_well_formed_is_kept(base: Entries, over: Entries, from: int)
    requires
        well_formed_entries(base),
        well_formed_entries(over),
    ensures
        well_formed_entries(merge_from(base, over, from).base),
    decreases over, over.len() - from,
{
    if 0 <= from < over.len() {
        let k = over[from].0;
        let v = over[from].1;
        lemma_position_is_first(base, k);
        match position(base, k) {
            Some(i) => {
                let m = merge_tree(base[i].1, v);
                law_well_formed_is_kept(base[i].1, v);
                let next = base.update(i, (base[i].0, m.base));
                assert(well_formed_entries(next)) by {
                    assert forall|a: int, b: int| 0 <= a < b < next.len() implies (
                    #[trigger] next[a]).0 != (#[trigger] next[b]).0 by {
                        assert(next[a].0 == base[a].0);
                        assert(next[b].0 == base[b].0);
                    }
                    assert forall|a: int| 0 <= a < next.len() implies well_formed(
                        (#[trigger] next[a]).0,
                    ) && well_formed(next[a].1) by {
                        assert(well_formed(base[a].0) && well_formed(base[a].1));
                    }
                }
                if m.clash is None {
                    lemma_entries_well_formed_is_kept(next, over, from + 1);
                }
            },
            None => {
                let next = base.push((k, v));
                assert(well_formed_entries(next)) by {
                    assert forall|a: int, b: int| 0 <= a < b < next.len() implies (
                    #[trigger] next[a]).0 != (#[trigger] next[b]).0 by {
                        if b < base.len() {
                            assert(next[a].0 == base[a].0);
                            assert(next[b].0 == base[b].0);
                        } else {
                            assert(next[a].0 == base[a].0);
                        }
                    }
                    assert forall|a: int| 0 <= a < next.len() implies well_formed(
                        (#[trigger] next[a]).0,
                    ) && well_formed(next[a].1) by {
                        if a < base.len() {
                            assert(well_formed(base[a].0) && well_formed(base[a].1));
                        } else {
                            assert(well_formed(over[from].0) && well_formed(over[from].1));
                        }
                    }
                }
                lemma_entries_well_formed_is_kept(next, over, from + 1);
            },
        }
    }
}

/// The entries of `over` from `from` on and before `j` merge into `base`, and
/// the value of entry `j` then conflicts with the value at index `i`, which is
/// under its key.
pub open spec fn fails_at(base: Entries, over: Entries, from: int, j: int, i: int) -> bool {
    &&& from <= j < over.len()
    &&& merge_from(base, over.take(j), from).clash is None
    &&& position(merge_from(base, over.take(j), from).base, over[j].0) == Some(i)
    &&& merge_tree(merge_from(base, over.take(j), from).base[i].1, over[j].1).clash is Some
}

/// Merging the entries before `n` alone, and then the rest, is merging them
/// all: the entries are taken one by one, in order.
pub proof fn lemma_merge_in_two_steps(base: Entries, over: Entries, from: int, n: int)
    requires
        0 <= from <= n <= over.len(),
        merge_from(base, over.take(n), from).clash is None,
    ensures
        merge_from(base, over, from) == merge_from(
            merge_from(base, over.take(n), from).base,
            over,
            n,
        ),
    decreases n - from,
{
    let head = over.take(n);
    if from < n {
        assert(head[from] == over[from]);
        let k = over[from].0;
        let v = over[from].1;
        match position(base, k) {
            Some(i) => {
                let m = merge_tree(base[i].1, v);
                lemma_merge_in_two_steps(base.update(i, (base[i].0, m.base)), over, from + 1, n);
            },
            None => {
                lemma_merge_in_two_steps(base.push((k, v)), over, from + 1, n);
            },
        }
    }
}

/// A failure does not undo what was merged before it. Where the entries of
/// the override before entry `j` merge into the base, and the value of entry
/// `j` conflicts with the value then under its key, the merge of the whole
/// override leaves the base as those entries made it, but for the value under
/// that key, which is as the failed merge left it; and it fails as that
/// merge did.
pub proof fn law_failure_keeps_what_was_merged(base: Entries, over: Entries, j: int, i: int)
    requires
        fails_at(base, over, 0, j, i),
    ensures
        ({
            let before = merge_from(base, over.take(j), 0).base;
            let failed = merge_tree(before[i].1, over[j].1);
            &&& merge_from(base, over, 0).base == before.update(i, (before[i].0, failed.base))
            &&& merge_from(base, over, 0).clash == failed.clash
        }),
{
    lemma_merge_in_two_steps(base, over, 0, j);
}

/// A merge of entries that fails, fails at one of them: at an entry `j` whose
/// key the base has, at an index `i`, once the entries before `j` are merged,
/// and whose value conflicts with the value under that key.
pub proof fn law_failure_is_at_an_entry(base: Entries, over: Entries)
    requires
        merge_from(base, over, 0).clash is Some,
    ensures
        exists|j: int, i: int| #[trigger] fails_at(base, over, 0, j, i),
{
    lemma_failure_is_at_an_entry(base, over, 0);
}

proof fn lemma_failure_is_at_an_entry(base: Entries, over: Entries, from: int)
    requires
        0 <= from <= over.len(),
        merge_from(base, over, from).clash is Some,
    ensures
        exists|j: int, i: int| #[trigger] fails_at(base, over, from, j, i),
    decreases over.len() - from,
{
    let key = over[from].0;
    let value = over[from].1;
    match position(base, key) {
        Some(i) => {
            let m = merge_tree(base[i].1, value);
            if m.clash is Some {
                assert(over.take(from).len() == from);
                assert(fails_at(base, over, from, from, i));
            } else {
                let next = base.update(i, (base[i].0, m.base));
                lemma_failure_is_at_an_entry(next, over, from + 1);
                let (j, h) = choose|j: int, h: int| #[trigger] fails_at(next, over, from + 1, j, h);
                assert(over.take(j)[from] == over[from]);
                assert(fails_at(base, over, from, j, h));
            }
        },
        None => {
            let next = base.push((key, value));
            lemma_failure_is_at_an_entry(next, over, from + 1);
            let (j, h) = choose|j: int, h: int| #[trigger] fails_at(next, over, from + 1, j, h);
            assert(over.take(j)[from] == over[from]);
            assert(fails_at(base, over, from, j, h));
        },
    }
}

/// A merge that does not fail leaves the union of the two mappings: under
/// each key of either, the merge of the two values where both have the key,
/// and the one value where only one has it.
pub proof fn law_mapping_union(base: Entries, over: Entries, k: Tree)
    requires
        unique_keys(over),
        merge_from(base, over, 0).clash is None,
    ensures
        lookup(merge_from(base, over, 0).base, k) == union_at(lookup(base, k), lookup(over, k)),
{
    assert(over.skip(0) =~= over);
    lemma_union_from(base, over, 0, k);
}

proof fn lemma_union_from(base: Entries, over: Entries, from: int, k: Tree)
    requires
        unique_keys(over),
        0 <= from <= over.len(),
        merge_from(base, over, from).clash is None,
    ensures
        lookup(merge_from(base, over, from).base, k) == union_at(
            lookup(base, k),
            lookup(over.skip(from), k),
        ),
    decreases over.len() - from,
{
    let rest = over.skip(from);
    if from == over.len() {
        lemma_position_absent(rest, k);
    } else {
        let key = over[from].0;
        let value = over[from].1;
        let tail = over.skip(from + 1);
        assert(rest[0] == over[from]);
        assert(rest.skip(1) =~= tail);
        lemma_lookup_head(rest, k);
        if k == key {
            assert forall|j: int| 0 <= j < tail.len() implies (#[trigger] tail[j]).0 != k by {
                assert(tail[j] == over[from + 1 + j]);
            }
            lemma_position_absent(tail, k);
        }
        lemma_position_is_first(base, key);
        match position(base, key) {
            Some(i) => {
                let m = merge_tree(base[i].1, value);
                let next = base.update(i, (base[i].0, m.base));
                lemma_union_from(next, over, from + 1, k);
                lemma_lookup_update(base, i, m.base, k);
                lemma_position_is_first(base, k);
            },
            None => {
                let next = base.push((key, value));
                lemma_union_from(next, over, from + 1, k);
                lemma_lookup_push(base, key, value, k);
            },
        }
    }
}

} // verus!
