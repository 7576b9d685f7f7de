//! What merging means for a map from keys to mergeable values: the union of
//! the keys, with the values under shared keys merged.

use vstd::prelude::*;
use crate::error::MergeError;
use crate::merge::Merge;

verus! {

/// Taking the entry of key `k` and value `v` into `base` may leave `next` and
/// end with `err`: the value is merged into the value that the base has
/// under the key, and fails as that merge does; or it is put under the key,
/// where the base has no such key.
pub open spec fn entry_taken<K, V: Merge>(
    base: Map<K, V>,
    k: K,
    v: V,
    next: Map<K, V>,
    err: Option<MergeError>,
) -> bool {
    if base.contains_key(k) {
        &&& next == base.insert(k, next[k])
        &&& base[k].merged(&v, &next[k], err)
        &&& err is Some <==> base[k].conflicts(&v)
    } else {
        &&& next == base.insert(k, v)
        &&& err is None
    }
}

/// Taking the entries `es` from index `from` on into `base`, one by one in
/// their order, may leave `after` and end with `err`. The first failure
/// ends the merge: what was taken before it stays.
pub open spec fn merged_one_by_one<K, V: Merge>(
    base: Map<K, V>,
    es: Seq<(K, V)>,
    from: int,
    after: Map<K, V>,
    err: Option<MergeError>,
) -> bool
    decreases es.len() - from,
{
    if from < 0 || from >= es.len() {
        after == base && err is None
    } else {
        exists|next: Map<K, V>, f: Option<MergeError>| #[trigger]
            entry_taken(base, es[from].0, es[from].1, next, f) && if f is Some {
                after == next && err == f
            } else {
                merged_one_by_one(next, es, from + 1, after, err)
            }
    }
}

/// No two of the entries have the same key.
pub open spec fn distinct_keys<K, V>(es: Seq<(K, V)>) -> bool {
    forall|i: int, j: int| 0 <= i < j < es.len() ==> (#[trigger] es[i]).0 != (#[trigger] es[j]).0
}

/// The entries `es` are those of the map `m`, each once, in some order.
pub open spec fn lists<K, V>(es: Seq<(K, V)>, m: Map<K, V>) -> bool {
    &&& distinct_keys(es)
    &&& forall|i: int|
        0 <= i < es.len() ==> m.contains_key((#[trigger] es[i]).0) && m[es[i].0] == es[i].1
    &&& forall|k: K| #[trigger] m.contains_key(k) ==> key_before(es, es.len() as int, k)
}

/// One of the first `n` entries has the key `k`.
pub open spec fn key_before<K, V>(es: Seq<(K, V)>, n: int, k: K) -> bool {
    exists|i: int| 0 <= i < n && i < es.len() && (#[trigger] es[i]).0 == k
}

/// The override value `v` for the key `k` has gone into `after` without a
/// failure: merged into the base's value where the base had the key, and put
/// under the key where it had not.
pub open spec fn entry_merged<K, V: Merge>(base: Map<K, V>, k: K, v: V, after: Map<K, V>) -> bool {
    &&& after.contains_key(k)
    &&& if base.contains_key(k) {
        &&& !base[k].conflicts(&v)
        &&& base[k].merged(&v, &after[k], None)
    } else {
        after[k] == v
    }
}

/// `after` is `base` with the first `n` of the entries `es` merged into it
/// and nothing else changed.
pub open spec fn merged_upto<K, V: Merge>(
    base: Map<K, V>,
    es: Seq<(K, V)>,
    n: int,
    after: Map<K, V>,
) -> bool {
    &&& forall|k: K| #[trigger]
        after.contains_key(k) <==> base.contains_key(k) || key_before(es, n, k)
    &&& forall|k: K| #[trigger]
        base.contains_key(k) && !key_before(es, n, k) ==> after[k] == base[k]
    &&& forall|i: int| 0 <= i < n ==> entry_merged(base, (#[trigger] es[i]).0, es[i].1, after)
}

/// The merge of the entries `es` into `base` failed at the entry `j` and gave
/// the error `err`: the entries before it are merged, the base's value
/// under its key is as the failed merge left it, and the entries behind it
/// have not been looked at.
pub open spec fn failed_at<K, V: Merge>(
    base: Map<K, V>,
    es: Seq<(K, V)>,
    j: int,
    after: Map<K, V>,
    err: Option<MergeError>,
) -> bool {
    &&& 0 <= j < es.len()
    &&& err is Some
    &&& base.contains_key(es[j].0)
    &&& base[es[j].0].conflicts(&es[j].1)
    &&& base[es[j].0].merged(&es[j].1, &after[es[j].0], err)
    &&& forall|k: K| #[trigger]
        after.contains_key(k) <==> base.contains_key(k) || key_before(es, j, k)
    &&& forall|k: K| #[trigger]
        base.contains_key(k) && !key_before(es, j + 1, k) ==> after[k] == base[k]
    &&& forall|i: int| 0 <= i < j ==> entry_merged(base, (#[trigger] es[i]).0, es[i].1, after)
}

/// What merging entries `es` of distinct keys, in their order, into `base`
/// leaves behind and ends with, key by key: all of them merged, or a failure
/// at the first entry whose value conflicts with the base's.
pub open spec fn merged_in_order<K, V: Merge>(
    base: Map<K, V>,
    es: Seq<(K, V)>,
    after: Map<K, V>,
    err: Option<MergeError>,
) -> bool {
    match err {
        None => merged_upto(base, es, es.len() as int, after),
        Some(_) => exists|j: int| failed_at(base, es, j, after, err),
    }
}

/// Some value of `over` conflicts with the value that `base` has under the
/// same key.
pub open spec fn map_conflicts<K, V: Merge>(base: Map<K, V>, over: Map<K, V>) -> bool {
    exists|k: K| #[trigger]
        over.contains_key(k) && base.contains_key(k) && base[k].conflicts(&over[k])
}

/// What merging the map `over` into the map `base` may leave behind and end
/// with, whatever the order in which the entries of `over` are taken.
pub open spec fn map_merged<K, V: Merge>(
    base: Map<K, V>,
    over: Map<K, V>,
    after: Map<K, V>,
    err: Option<MergeError>,
) -> bool {
    exists|es: Seq<(K, V)>| lists(es, over) && #[trigger] merged_in_order(base, es, after, err)
}

/// Merging one more entry without a failure extends what is merged by it.
pub proof fn lemma_entry_merged<K, V: Merge>(
    base: Map<K, V>,
    es: Seq<(K, V)>,
    i: int,
    cur: Map<K, V>,
    next: Map<K, V>,
)
    requires
        distinct_keys(es),
        0 <= i < es.len(),
        merged_upto(base, es, i, cur),
        next == cur.insert(es[i].0, next[es[i].0]),
        cur.contains_key(es[i].0) ==> !cur[es[i].0].conflicts(&es[i].1) && cur[es[i].0].merged(
            &es[i].1,
            &next[es[i].0],
            None,
        ),
        !cur.contains_key(es[i].0) ==> next[es[i].0] == es[i].1,
    ensures
        merged_upto(base, es, i + 1, next),
{
    let key = es[i].0;
    lemma_key_fresh(es, i);
    assert(cur.contains_key(key) <==> base.contains_key(key));
    assert forall|k: K| #[trigger]
        next.contains_key(k) <==> base.contains_key(k) || key_before(es, i + 1, k) by {
        lemma_key_before_next(es, i, k);
        assert(cur.contains_key(k) <==> base.contains_key(k) || key_before(es, i, k));
    }
    assert forall|k: K| #[trigger] base.contains_key(k) && !key_before(es, i + 1, k) implies next[k]
        == base[k] by {
        lemma_key_before_next(es, i, k);
    }
    assert forall|h: int| 0 <= h < i + 1 implies entry_merged(
        base,
        (#[trigger] es[h]).0,
        es[h].1,
        next,
    ) by {
        if h < i {
            assert(entry_merged(base, es[h].0, es[h].1, cur));
            assert(es[h].0 != key);
        }
    }
}

/// A failure at one more entry ends the merge there.
pub proof fn lemma_entry_failed<K, V: Merge>(
    base: Map<K, V>,
    es: Seq<(K, V)>,
    i: int,
    cur: Map<K, V>,
    next: Map<K, V>,
    err: Option<MergeError>,
)
    requires
        distinct_keys(es),
        0 <= i < es.len(),
        merged_upto(base, es, i, cur),
        next == cur.insert(es[i].0, next[es[i].0]),
        cur.contains_key(es[i].0),
        cur[es[i].0].conflicts(&es[i].1),
        cur[es[i].0].merged(&es[i].1, &next[es[i].0], err),
        err is Some,
    ensures
        failed_at(base, es, i, next, err),
{
    let key = es[i].0;
    lemma_key_fresh(es, i);
    assert(cur.contains_key(key) <==> base.contains_key(key));
    assert forall|k: K| #[trigger]
        next.contains_key(k) <==> base.contains_key(k) || key_before(es, i, k) by {
        assert(cur.contains_key(k) <==> base.contains_key(k) || key_before(es, i, k));
    }
    assert forall|k: K| #[trigger] base.contains_key(k) && !key_before(es, i + 1, k) implies next[k]
        == base[k] by {
        lemma_key_before_next(es, i, k);
    }
    assert forall|h: int| 0 <= h < i implies entry_merged(
        base,
        (#[trigger] es[h]).0,
        es[h].1,
        next,
    ) by {
        assert(entry_merged(base, es[h].0, es[h].1, cur));
        assert(es[h].0 != key);
    }
}

/// With no entry left to take, the base stays as it is.
pub proof fn lemma_none_left<K, V: Merge>(base: Map<K, V>, es: Seq<(K, V)>)
    ensures
        merged_one_by_one(base, es, es.len() as int, base, None),
{
}

/// Taking one more entry without a failure leaves what taking the rest can
/// lead to among what taking them all can lead to.
pub proof fn lemma_taken<K, V: Merge>(
    base: Map<K, V>,
    es: Seq<(K, V)>,
    i: int,
    cur: Map<K, V>,
    next: Map<K, V>,
)
    requires
        0 <= i < es.len(),
        entry_taken(cur, es[i].0, es[i].1, next, None),
        forall|after: Map<K, V>, err: Option<MergeError>| #[trigger]
            merged_one_by_one(cur, es, i, after, err) ==> merged_one_by_one(
                base,
                es,
                0,
                after,
                err,
            ),
    ensures
        forall|after: Map<K, V>, err: Option<MergeError>| #[trigger]
            merged_one_by_one(next, es, i + 1, after, err) ==> merged_one_by_one(
                base,
                es,
                0,
                after,
                err,
            ),
{
    assert forall|after: Map<K, V>, err: Option<MergeError>| #[trigger]
        merged_one_by_one(next, es, i + 1, after, err) implies merged_one_by_one(
        base,
        es,
        0,
        after,
        err,
    ) by {
        assert(merged_one_by_one(cur, es, i, after, err));
    }
}

/// Entries of distinct keys, taken one by one, are merged key by key.
pub proof fn lemma_one_by_one_is_in_order<K, V: Merge>(
    base: Map<K, V>,
    es: Seq<(K, V)>,
    after: Map<K, V>,
    err: Option<MergeError>,
)
    requires
        distinct_keys(es),
        merged_one_by_one(base, es, 0, after, err),
    ensures
        merged_in_order(base, es, after, err),
{
    lemma_one_by_one_from(base, es, 0, base, after, err);
}

proof fn lemma_one_by_one_from<K, V: Merge>(
    base: Map<K, V>,
    es: Seq<(K, V)>,
    from: int,
    cur: Map<K, V>,
    after: Map<K, V>,
    err: Option<MergeError>,
)
    requires
        distinct_keys(es),
        0 <= from <= es.len(),
        merged_upto(base, es, from, cur),
        merged_one_by_one(cur, es, from, after, err),
    ensures
        merged_in_order(base, es, after, err),
    decreases es.len() - from,
{
    if from < es.len() {
        let (next, f) = choose|next: Map<K, V>, f: Option<MergeError>| #[trigger]
            entry_taken(cur, es[from].0, es[from].1, next, f) && if f is Some {
                after == next && err == f
            } else {
                merged_one_by_one(next, es, from + 1, after, err)
            };
        if cur.contains_key(es[from].0) {
            assert(next[es[from].0] == next[es[from].0]);
        } else {
            assert(next[es[from].0] == es[from].1);
        }
        if f is Some {
            lemma_entry_failed(base, es, from, cur, next, f);
        } else {
            lemma_entry_merged(base, es, from, cur, next);
            lemma_one_by_one_from(base, es, from + 1, next, after, err);
        }
    }
}

/// Among distinct keys, the key of an entry is not among those before it.
pub proof fn lemma_key_fresh<K, V>(es: Seq<(K, V)>, i: int)
    requires
        distinct_keys(es),
        0 <= i < es.len(),
    ensures
        !key_before(es, i, es[i].0),
{
    if key_before(es, i, es[i].0) {
        let h = choose|h: int| 0 <= h < i && h < es.len() && (#[trigger] es[h]).0 == es[i].0;
        assert(es[h].0 != es[i].0);
    }
}

/// A key is among the first `i + 1` when it is among the first `i` or is the
/// key of entry `i`.
pub proof fn lemma_key_before_next<K, V>(es: Seq<(K, V)>, i: int, k: K)
    requires
        0 <= i < es.len(),
    ensures
        key_before(es, i + 1, k) <==> key_before(es, i, k) || es[i].0 == k,
{
    if key_before(es, i + 1, k) {
        let h = choose|h: int| 0 <= h < i + 1 && h < es.len() && (#[trigger] es[h]).0 == k;
        if h < i {
            assert(key_before(es, i, k));
        }
    }
    if key_before(es, i, k) {
        let h = choose|h: int| 0 <= h < i && h < es.len() && (#[trigger] es[h]).0 == k;
        assert(0 <= h < i + 1 && es[h].0 == k);
    }
    if es[i].0 == k {
        assert(0 <= i < i + 1 && es[i].0 == k);
    }
}

/// A merge of all the entries of a map without a failure shows that no value
/// of the map conflicts with the base's, and a failure shows that one does.
pub proof fn lemma_conflicts_decide<K, V: Merge>(
    base: Map<K, V>,
    over: Map<K, V>,
    es: Seq<(K, V)>,
    after: Map<K, V>,
    err: Option<MergeError>,
)
    requires
        lists(es, over),
        merged_in_order(base, es, after, err),
    ensures
        err is Some <==> map_conflicts(base, over),
{
    match err {
        None => {
            if map_conflicts(base, over) {
                let k = choose|k: K| #[trigger]
                    over.contains_key(k) && base.contains_key(k) && base[k].conflicts(&over[k]);
                assert(key_before(es, es.len() as int, k));
                let h = choose|h: int|
                    0 <= h < es.len() && h < es.len() && (#[trigger] es[h]).0 == k;
                assert(entry_merged(base, es[h].0, es[h].1, after));
                assert(over[es[h].0] == es[h].1);
            }
        },
        Some(_) => {
            let j = choose|j: int| failed_at(base, es, j, after, err);
            let k = es[j].0;
            assert(over.contains_key(k) && over[k] == es[j].1);
            assert(over.contains_key(k) && base.contains_key(k) && base[k].conflicts(&over[k]));
        },
    }
}

/// A merge that does not fail leaves the union of the two maps: under each
/// key of either, the merge of the two values where both have the key, and
/// the one value where only one has it.
pub proof fn law_map_union<K, V: Merge>(base: Map<K, V>, over: Map<K, V>, after: Map<K, V>, k: K)
    requires
        map_merged(base, over, after, None),
    ensures
        after.contains_key(k) <==> base.contains_key(k) || over.contains_key(k),
        base.contains_key(k) && over.contains_key(k) ==> base[k].merged(&over[k], &after[k], None),
        !base.contains_key(k) && over.contains_key(k) ==> after[k] == over[k],
        base.contains_key(k) && !over.contains_key(k) ==> after[k] == base[k],
{
    let es = choose|es: Seq<(K, V)>|
        lists(es, over) && #[trigger] merged_in_order(base, es, after, None);
    let n = es.len() as int;
    assert(merged_upto(base, es, n, after));
    if over.contains_key(k) {
        assert(key_before(es, n, k));
        let h = choose|h: int| 0 <= h < n && h < es.len() && (#[trigger] es[h]).0 == k;
        assert(entry_merged(base, es[h].0, es[h].1, after));
        assert(over[es[h].0] == es[h].1);
    } else {
        if key_before(es, n, k) {
            let h = choose|h: int| 0 <= h < n && h < es.len() && (#[trigger] es[h]).0 == k;
            assert(over.contains_key(es[h].0));
        }
    }
}

/// The order in which the entries of the override are taken does not matter
/// to a merge that does not fail: what one order may leave, every order may.
pub proof fn law_order_is_immaterial<K, V: Merge>(
    base: Map<K, V>,
    over: Map<K, V>,
    one: Seq<(K, V)>,
    other: Seq<(K, V)>,
    after: Map<K, V>,
)
    requires
        lists(one, over),
        lists(other, over),
        merged_in_order(base, one, after, None),
    ensures
        merged_in_order(base, other, after, None),
{
    let n = one.len() as int;
    let m = other.len() as int;
    assert forall|k: K| key_before(one, n, k) <==> key_before(other, m, k) by {
        if key_before(one, n, k) {
            let h = choose|h: int| 0 <= h < n && h < one.len() && (#[trigger] one[h]).0 == k;
            assert(over.contains_key(one[h].0));
        }
        if key_before(other, m, k) {
            let h = choose|h: int| 0 <= h < m && h < other.len() && (#[trigger] other[h]).0 == k;
            assert(over.contains_key(other[h].0));
        }
    }
    assert forall|k: K| #[trigger]
        after.contains_key(k) <==> base.contains_key(k) || key_before(other, m, k) by {
        assert(key_before(one, n, k) <==> key_before(other, m, k));
    }
    assert forall|k: K| #[trigger] base.contains_key(k) && !key_before(other, m, k) implies after[k]
        == base[k] by {
        assert(key_before(one, n, k) <==> key_before(other, m, k));
    }
    assert forall|i: int| 0 <= i < m implies entry_merged(
        base,
        (#[trigger] other[i]).0,
        other[i].1,
        after,
    ) by {
        let k = other[i].0;
        assert(over.contains_key(k) && over[k] == other[i].1);
        assert(key_before(one, n, k));
        let h = choose|h: int| 0 <= h < n && h < one.len() && (#[trigger] one[h]).0 == k;
        assert(entry_merged(base, one[h].0, one[h].1, after));
        assert(over[one[h].0] == one[h].1);
    }
}

/// Merging a map with itself adds no key and merges each value with itself;
/// it fails only where a value conflicts with itself.
pub proof fn law_map_with_itself<K, V: Merge>(
    m: Map<K, V>,
    after: Map<K, V>,
    err: Option<MergeError>,
    k: K,
)
    requires
        map_merged(m, m, after, err),
        forall|h: K| #[trigger] m.contains_key(h) ==> !m[h].conflicts(&m[h]),
    ensures
        err is None,
        after.contains_key(k) <==> m.contains_key(k),
        m.contains_key(k) ==> m[k].merged(&m[k], &after[k], None),
{
    let es = choose|es: Seq<(K, V)>|
        lists(es, m) && #[trigger] merged_in_order(m, es, after, err);
    if err is Some {
        let j = choose|j: int| failed_at(m, es, j, after, err);
        assert(m.contains_key(es[j].0) && m[es[j].0] == es[j].1);
    } else {
        law_map_union(m, m, after, k);
    }
}

} // verus!
