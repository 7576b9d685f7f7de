//! Merging hash maps of mergeable values.

use vstd::prelude::*;
use vstd::std_specs::hash::{builds_valid_hashers, obeys_key_model};
use std::collections::hash_map::{Entry, RandomState};
use std::collections::HashMap;
use std::hash::Hash;
use crate::error::{error_of, MergeError, MergeResult};
use crate::keyed::{
    entry_taken, lemma_conflicts_decide, lemma_none_left, lemma_one_by_one_is_in_order,
    lemma_taken, lists, map_conflicts, map_merged, merged_one_by_one,
};
use crate::merge::Merge;

verus! {

/// Takes a hash map apart with `Vec::from_iter`, which walks the map by value.
/// Not proved, but taken from the documentation of `HashMap`: the result holds
/// each entry of the map once. Nothing is said of their order, which differs
/// from one process to the next.
#[verifier::external_body]
fn hash_map_entries<K, V>(m: HashMap<K, V>) -> (es: Vec<(K, V)>)
    ensures
        obeys_key_model::<K>() && builds_valid_hashers::<RandomState>() ==> lists(es@, m@),
{
    Vec::from_iter(m)
}

/// Merges the entries, one by one in their order, into the hash map `base`.
/// The first failure ends the merge: what was merged before it stays.
pub fn merge_entries_hashed<K: Hash + Eq, V: Merge>(
    base: &mut HashMap<K, V>,
    entries: Vec<(K, V)>,
) -> (res: MergeResult<()>)
    ensures
        obeys_key_model::<K>() && V::obeys_merge_spec() ==> merged_one_by_one(
            old(base)@,
            entries@,
            0,
            final(base)@,
            error_of(res),
        ),
{
    let ghost start = base@;
    let ghost es = entries@;
    let ghost model = obeys_key_model::<K>() && V::obeys_merge_spec();
    for kv in it: entries
        invariant
            it.seq() == es,
            es == entries@,
            model == (obeys_key_model::<K>() && V::obeys_merge_spec()),
            start == old(base)@,
            model ==> forall|after: Map<K, V>, err: Option<MergeError>| #[trigger]
                merged_one_by_one(base@, es, it.index(), after, err) ==> merged_one_by_one(
                    start,
                    es,
                    0,
                    after,
                    err,
                ),
    {
        let ghost i = it.index();
        let ghost cur = base@;
        let (k, v) = kv;
        match base.entry(k) {
            Entry::Occupied(mut slot) => {
                let r = slot.get_mut().merge(v);
                match r {
                    Ok(_) => {
                        proof {
                            if model {
                                lemma_taken(start, es, i, cur, base@);
                            }
                        }
                    },
                    Err(e) => {
                        proof {
                            if model {
                                assert(entry_taken(cur, es[i].0, es[i].1, base@, Some(e)));
                                assert(merged_one_by_one(cur, es, i, base@, Some(e)));
                            }
                        }
                        return Err(e);
                    },
                }
            },
            Entry::Vacant(slot) => {
                slot.insert(v);
                proof {
                    if model {
                        lemma_taken(start, es, i, cur, base@);
                    }
                }
            },
        }
    }
    proof {
        if model {
            lemma_none_left(base@, es);
        }
    }
    Ok(())
}

impl<K: Ord + Hash, V: Merge> Merge for HashMap<K, V> {
    open spec fn obeys_merge_spec() -> bool {
        obeys_key_model::<K>() && V::obeys_merge_spec()
    }

    open spec fn conflicts(&self, over: &HashMap<K, V>) -> bool {
        map_conflicts(self@, over@)
    }

    open spec fn merged(
        &self,
        over: &HashMap<K, V>,
        after: &HashMap<K, V>,
        err: Option<MergeError>,
    ) -> bool {
        map_merged(self@, over@, after@, err)
    }

    fn merge(&mut self, other: HashMap<K, V>) -> (res: MergeResult<()>) {
        let ghost over = other@;
        let entries = hash_map_entries(other);
        let ghost es = entries@;
        let res = merge_entries_hashed(self, entries);
        proof {
            if obeys_key_model::<K>() && V::obeys_merge_spec() {
                lemma_one_by_one_is_in_order(old(self)@, es, self@, error_of(res));
                lemma_conflicts_decide(old(self)@, over, es, self@, error_of(res));
            }
        }
        res
    }
}

} // verus!
