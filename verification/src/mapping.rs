//! The mapping of a dynamic value.

use vstd::prelude::*;
use vstd::std_specs::cmp::PartialEqSpecImpl;
use crate::error::{reports, MergeError, MergeResult};
use crate::merge::Merge;
use crate::laws::lemma_entries_well_formed_is_kept;
use crate::tree::{
    lemma_position_absent, lemma_position_found, lemma_position_is_first, lookup, merge_from,
    merge_tree, position, well_formed, well_formed_entries, Entries, Tree,
};
use crate::value::{same_value, Value};

verus! {

/// The mapping of a dynamic value: its entries in insertion order.
#[derive(Debug)]
pub struct Mapping {
    pub(crate) entries: Vec<(Value, Value)>,
}

impl View for Mapping {
    type V = Entries;

    closed spec fn view(&self) -> Entries
        decreases self,
    {
        Seq::new(
            self.entries@.len(),
            |i: int|
                if 0 <= i < self.entries.len() {
                    (self.entries[i].0@, self.entries[i].1@)
                } else {
                    (Tree::Null, Tree::Null)
                },
        )
    }
}

impl Mapping {
    /// A mapping without entries.
    pub fn new() -> (m: Mapping)
        ensures
            m@ == Seq::<(Tree, Tree)>::empty(),
            well_formed_entries(m@),
    {
        let m = Mapping { entries: Vec::new() };
        assert(m@ =~= Seq::<(Tree, Tree)>::empty());
        m
    }

    /// The number of entries.
    pub fn len(&self) -> (n: usize)
        ensures
            n == self@.len(),
    {
        self.entries.len()
    }

    /// The entries, in insertion order.
    pub fn entries(&self) -> (es: &Vec<(Value, Value)>)
        ensures
            es@.len() == self@.len(),
            forall|i: int|
                0 <= i < es@.len() ==> (#[trigger] es@[i]).0@ == self@[i].0 && es@[i].1@
                    == self@[i].1,
    {
        &self.entries
    }

    /// The index of the entry under `key`, if there is one.
    pub(crate) fn index_of(&self, key: &Value) -> (r: Option<usize>)
        ensures
            match r {
                Some(i) => position(self@, key@) == Some(i as int) && i < self.entries.len(),
                None => position(self@, key@) is None,
            },
    {
        let mut i: usize = 0;
        while i < self.entries.len()
            invariant
                i <= self.entries.len(),
                forall|j: int| 0 <= j < i ==> (#[trigger] self@[j]).0 != key@,
            decreases self.entries.len() - i,
        {
            if same_value(&self.entries[i].0, key) {
                proof {
                    lemma_position_found(self@, key@, i as int);
                }
                return Some(i);
            }
            i += 1;
        }
        proof {
            lemma_position_absent(self@, key@);
        }
        None
    }

    /// The value under `key`, if there is one.
    pub fn get(&self, key: &Value) -> (r: Option<&Value>)
        ensures
            match lookup(self@, key@) {
                Some(found) => r matches Some(v) && v@ == found,
                None => r is None,
            },
    {
        match self.index_of(key) {
            Some(i) => Some(&self.entries[i].1),
            None => None,
        }
    }

    /// Puts `value` under `key`: in place of the value that was there, which
    /// is returned, or else as a new last entry.
    pub fn insert(&mut self, key: Value, value: Value) -> (was: Option<Value>)
        ensures
            match position(old(self)@, key@) {
                Some(i) => {
                    &&& final(self)@ == old(self)@.update(i, (key@, value@))
                    &&& was matches Some(w) && w@ == old(self)@[i].1
                },
                None => final(self)@ == old(self)@.push((key@, value@)) && was is None,
            },
            well_formed_entries(old(self)@) && well_formed(key@) && well_formed(value@)
                ==> well_formed_entries(final(self)@),
    {
        let ghost before = self@;
        match self.index_of(&key) {
            Some(i) => {
                let mut v = value;
                core::mem::swap(&mut self.entries[i].1, &mut v);
                proof {
                    lemma_position_is_first(before, key@);
                    assert(self@ =~= before.update(i as int, (key@, value@)));
                    assert forall|a: int| 0 <= a < self@.len() implies (#[trigger] self@[a]).0
                        == before[a].0 by {}
                    if well_formed_entries(before) && well_formed(key@) && well_formed(value@) {
                        assert forall|a: int| 0 <= a < self@.len() implies well_formed(
                            (#[trigger] self@[a]).0,
                        ) && well_formed(self@[a].1) by {
                            assert(well_formed(before[a].0) && well_formed(before[a].1));
                        }
                    }
                }
                Some(v)
            },
            None => {
                self.entries.push((key, value));
                proof {
                    lemma_position_is_first(before, key@);
                    assert(self@ =~= before.push((key@, value@)));
                    if well_formed_entries(before) && well_formed(key@) && well_formed(value@) {
                        assert forall|a: int| 0 <= a < self@.len() implies well_formed(
                            (#[trigger] self@[a]).0,
                        ) && well_formed(self@[a].1) by {
                            if a < before.len() {
                                assert(well_formed(before[a].0) && well_formed(before[a].1));
                            }
                        }
                    }
                }
                None
            },
        }
    }
}

impl Clone for Mapping {
    #[verifier::loop_isolation(false)]
    fn clone(&self) -> (r: Mapping)
        ensures
            r@ == self@,
        decreases self,
    {
        let mut out: Vec<(Value, Value)> = Vec::new();
        let mut i: usize = 0;
        while i < self.entries.len()
            invariant
                i <= self.entries.len(),
                out.len() == i,
                forall|j: int|
                    0 <= j < i ==> out[j].0@ == self.entries[j].0@ && out[j].1@
                        == self.entries[j].1@,
            decreases self.entries.len() - i,
        {
            let k = self.entries[i].0.clone();
            let v = self.entries[i].1.clone();
            out.push((k, v));
            i += 1;
        }
        let r = Mapping { entries: out };
        assert(r@ =~= self@);
        r
    }
}

/// Whether two mappings hold the same entries in the same order.
#[verifier::loop_isolation(false)]
pub(crate) fn same_mapping(a: &Mapping, b: &Mapping) -> (r: bool)
    ensures
        r == (a@ == b@),
    decreases a,
{
    if a.entries.len() != b.entries.len() {
        assert(a@.len() != b@.len());
        return false;
    }
    let mut i: usize = 0;
    while i < a.entries.len()
        invariant
            i <= a.entries.len(),
            a.entries.len() == b.entries.len(),
            forall|j: int| 0 <= j < i ==> a@[j] == b@[j],
        decreases a.entries.len() - i,
    {
        if !same_value(&a.entries[i].0, &b.entries[i].0) || !same_value(
            &a.entries[i].1,
            &b.entries[i].1,
        ) {
            assert(a@[i as int] != b@[i as int]);
            return false;
        }
        i += 1;
    }
    assert(a@ =~= b@);
    true
}

impl PartialEq for Mapping {
    fn eq(&self, other: &Mapping) -> (r: bool) {
        same_mapping(self, other)
    }
}

impl Eq for Mapping {

}

impl PartialEqSpecImpl for Mapping {
    open spec fn obeys_eq_spec() -> bool {
        true
    }

    open spec fn eq_spec(&self, other: &Mapping) -> bool {
        self@ == other@
    }
}

impl Merge for Mapping {
    open spec fn obeys_merge_spec() -> bool {
        true
    }

    open spec fn conflicts(&self, over: &Mapping) -> bool {
        merge_from(self@, over@, 0).clash is Some
    }

    open spec fn merged(&self, over: &Mapping, after: &Mapping, err: Option<MergeError>) -> bool {
        &&& after@ == merge_from(self@, over@, 0).base
        &&& reports(err, merge_from(self@, over@, 0).clash)
    }

    #[verifier::loop_isolation(false)]
    fn merge(&mut self, other: Mapping) -> (res: MergeResult<()>)
        ensures
            well_formed_entries(old(self)@) && well_formed_entries(other@) ==> well_formed_entries(
                final(self)@,
            ),
        decreases other,
    {
        proof {
            if well_formed_entries(self@) && well_formed_entries(other@) {
                lemma_entries_well_formed_is_kept(self@, other@, 0);
            }
        }
        let ghost start = self@;
        let ghost over = other@;
        let ghost whole = other;
        for kv in it: other.entries
            invariant
                it.seq() == whole.entries@,
                over == whole@,
                merge_from(start, over, 0) == merge_from(self@, over, it.index()),
        {
            let ghost idx = it.index();
            let ghost prev = self@;
            assert(kv == whole.entries@[idx]);
            assert(over[idx] == (kv.0@, kv.1@));
            let (k, v) = kv;
            match self.index_of(&k) {
                Some(i) => {
                    let r = self.entries[i].1.merge(v);
                    proof {
                        let m = merge_tree(prev[i as int].1, v@);
                        assert(self@ =~= prev.update(i as int, (prev[i as int].0, m.base)));
                    }
                    match r {
                        Ok(_) => {},
                        Err(e) => {
                            return Err(e);
                        },
                    }
                },
                None => {
                    self.entries.push((k, v));
                    proof {
                        assert(self@ =~= prev.push((k@, v@)));
                    }
                },
            }
        }
        Ok(())
    }
}

} // verus!
