//! Merging ordered maps of mergeable values.

use vstd::prelude::*;
use vstd::laws_cmp::obeys_cmp;
use vstd::std_specs::btree::increasing_seq;
use std::collections::BTreeMap;
use crate::error::{error_of, MergeError, MergeResult};
use crate::keyed::{
    entry_taken, law_map_union, lemma_conflicts_decide, lemma_none_left,
    lemma_one_by_one_is_in_order, lemma_taken, lists, map_conflicts, map_merged, merged_in_order,
    merged_one_by_one,
};
use crate::merge::Merge;

verus! {

/// The keys of the entries, in their order.
pub open spec fn keys_of<K, V>(es: Seq<(K, V)>) -> Seq<K> {
    Seq::new(es.len(), |i: int| es[i].0)
}

/// What merging the ordered map `over` into the ordered map `base` leaves
/// behind and ends with: the entries of `over` are taken by ascending key.
pub open spec fn ordered_merged<K, V: Merge>(
    base: Map<K, V>,
    over: Map<K, V>,
    after: Map<K, V>,
    err: Option<MergeError>,
) -> bool {
    exists|es: Seq<(K, V)>|
        lists(es, over) && increasing_seq(keys_of(es)) && #[trigger] merged_in_order(
            base,
            es,
            after,
            err,
        )
}

/// What an ordered map may be left as, a map may be left as: the ascending
/// order is one of the orders.
pub proof fn lemma_ordered_is_some_order<K, V: Merge>(
    base: Map<K, V>,
    over: Map<K, V>,
    after: Map<K, V>,
    err: Option<MergeError>,
)
    requires
        ordered_merged(base, over, after, err),
    ensures
        map_merged(base, over, after, err),
{
    let es = choose|es: Seq<(K, V)>|
        lists(es, over) && increasing_seq(keys_of(es)) && #[trigger] merged_in_order(
            base,
            es,
            after,
            err,
        );
    assert(lists(es, over) && merged_in_order(base, es, after, err));
}

/// A merge of ordered maps that does not fail leaves the union of the two:
/// under each key of either, the merge of the two values where both have the
/// key, and the one value where only one has it.
pub proof fn law_ordered_map_union<K, V: Merge>(
    base: Map<K, V>,
    over: Map<K, V>,
    after: Map<K, V>,
    k: K,
)
    requires
        ordered_merged(base, over, after, None),
    ensures
        after.contains_key(k) <==> base.contains_key(k) || over.contains_key(k),
        base.contains_key(k) && over.contains_key(k) ==> base[k].merged(&over[k], &after[k], None),
        !base.contains_key(k) && over.contains_key(k) ==> after[k] == over[k],
        base.contains_key(k) && !over.contains_key(k) ==> after[k] == base[k],
{
    lemma_ordered_is_some_order(base, over, after, None);
    law_map_union(base, over, after, k);
}

/// Takes an ordered map apart with `Vec::from_iter`, which walks the map by
/// value. Not proved, but taken from the documentation of `BTreeMap`: the
/// result holds each entry of the map once, by ascending key.
#[verifier::external_body]
fn ordered_map_entries<K: Ord, V>(m: BTreeMap<K, V>) -> (es: Vec<(K, V)>)
    ensures
        obeys_cmp::<K>() ==> lists(es@, m@) && increasing_seq(keys_of(es@)),
{
    Vec::from_iter(m)
}

/// Merges the entries, one by one in their order, into the ordered map `base`.
/// The first failure ends the merge: what was merged before it stays.
pub fn merge_entries_ordered<K: Ord, V: Merge>(
    base: &mut BTreeMap<K, V>,
    entries: Vec<(K, V)>,
) -> (res: MergeResult<()>)
    ensures
        obeys_cmp::<K>() && V::obeys_merge_spec() ==> merged_one_by_one(
            old(base)@,
            entries@,
            0,
            final(base)@,
            error_of(res),
        ),
{
    let ghost start = base@;
    let ghost es = entries@;
    let ghost model = obeys_cmp::<K>() && V::obeys_merge_spec();
    for kv in it: entries
        invariant
            it.seq() == es,
            es == entries@,
            model == (obeys_cmp::<K>() && V::obeys_merge_spec()),
            start == old(base)@,
            model ==> forall|after: Map<K, V>, err: Option<MergeError>| #[trigger]
                merged_one_by_one(base@, es, it.index(), after, err) ==> merged_one_by_one(
                    start,
                    es,
                    0,
                    after,
                    err,
                ),
    {
        let ghost i = it.index();
        let ghost cur = base@;
        let (k, v) = kv;
        match base.remove(&k) {
            Some(mut held) => {
                let r = held.merge(v);
                base.insert(k, held);
                proof {
                    if model {
                        assert(base@ =~= cur.insert(k, base@[k]));
                    }
                }
                match r {
                    Ok(_) => {
                        proof {
                            if model {
                                lemma_taken(start, es, i, cur, base@);
                            }
                        }
                    },
                    Err(e) => {
                        proof {
                            if model {
                                assert(entry_taken(cur, es[i].0, es[i].1, base@, Some(e)));
                                assert(merged_one_by_one(cur, es, i, base@, Some(e)));
                            }
                        }
                        return Err(e);
                    },
                }
            },
            None => {
                base.insert(k, v);
                proof {
                    if model {
                        assert(base@ =~= cur.insert(k, base@[k]));
                        lemma_taken(start, es, i, cur, base@);
                    }
                }
            },
        }
    }
    proof {
        if model {
            lemma_none_left(base@, es);
        }
    }
    Ok(())
}

impl<K: Ord, V: Merge> Merge for BTreeMap<K, V> {
    open spec fn obeys_merge_spec() -> bool {
        obeys_cmp::<K>() && V::obeys_merge_spec()
    }

    open spec fn conflicts(&self, over: &BTreeMap<K, V>) -> bool {
        map_conflicts(self@, over@)
    }

    open spec fn merged(
        &self,
        over: &BTreeMap<K, V>,
        after: &BTreeMap<K, V>,
        err: Option<MergeError>,
    ) -> bool {
        ordered_merged(self@, over@, after@, err)
    }

    fn merge(&mut self, other: BTreeMap<K, V>) -> (res: MergeResult<()>) {
        let ghost over = other@;
        let entries = ordered_map_entries(other);
        let ghost es = entries@;
        let res = merge_entries_ordered(self, entries);
        proof {
            if obeys_cmp::<K>() && V::obeys_merge_spec() {
                lemma_one_by_one_is_in_order(old(self)@, es, self@, error_of(res));
                lemma_conflicts_decide(old(self)@, over, es, self@, error_of(res));
            }
        }
        res
    }
}

} // verus!
