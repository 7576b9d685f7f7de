//! The dynamic configuration value and its mapping, as executable types.

use vstd::prelude::*;
use vstd::std_specs::cmp::PartialEqSpecImpl;
use crate::error::{reports, MergeError, MergeResult};
use crate::mapping::Mapping;
use crate::merge::Merge;
use crate::laws::law_well_formed_is_kept;
use crate::tree::{merge_tree, well_formed, Kind, Number, Tree};

verus! {

/// A dynamic configuration value.
#[derive(Debug)]
pub enum Value {
    Null,
    Bool(bool),
    Number(Number),
    String(String),
    Sequence(Vec<Value>),
    Mapping(Mapping),
}

impl View for Value {
    type V = Tree;

    open spec fn view(&self) -> Tree
        decreases self,
    {
        match self {
            Value::Null => Tree::Null,
            Value::Bool(b) => Tree::Bool(*b),
            Value::Number(n) => Tree::Number(*n),
            Value::String(s) => Tree::String(s@),
            Value::Sequence(v) => Tree::Sequence(sequence_view(*v)),
            Value::Mapping(m) => Tree::Mapping(m@),
        }
    }
}

/// The trees of the values of a sequence, in order.
pub open spec fn sequence_view(v: Vec<Value>) -> Seq<Tree>
    decreases v,
{
    Seq::new(
        v@.len(),
        |i: int|
            if 0 <= i < v.len() {
                v[i]@
            } else {
                Tree::Null
            },
    )
}

impl Value {
    /// The kind of this value.
    pub fn kind(&self) -> (k: Kind)
        ensures
            k == self@.kind(),
    {
        match self {
            Value::Null => Kind::Null,
            Value::Bool(_) => Kind::Bool,
            Value::Number(_) => Kind::Number,
            Value::String(_) => Kind::String,
            Value::Sequence(_) => Kind::Sequence,
            Value::Mapping(_) => Kind::Mapping,
        }
    }

    /// Whether this value is null.
    pub fn is_null(&self) -> (b: bool)
        ensures
            b == (self@ is Null),
    {
        match self {
            Value::Null => true,
            _ => false,
        }
    }
}

impl Clone for Value {
    #[verifier::loop_isolation(false)]
    fn clone(&self) -> (r: Value)
        ensures
            r@ == self@,
        decreases self,
    {
        match self {
            Value::Null => Value::Null,
            Value::Bool(b) => Value::Bool(*b),
            Value::Number(n) => Value::Number(*n),
            Value::String(s) => Value::String(s.clone()),
            Value::Sequence(v) => {
                let mut out: Vec<Value> = Vec::new();
                let mut i: usize = 0;
                while i < v.len()
                    invariant
                        i <= v.len(),
                        out.len() == i,
                        forall|j: int| 0 <= j < i ==> out[j]@ == v[j]@,
                    decreases v.len() - i,
                {
                    let item = v[i].clone();
                    out.push(item);
                    i += 1;
                }
                let r = Value::Sequence(out);
                assert(sequence_view(out) =~= sequence_view(*v));
                r
            },
            Value::Mapping(m) => Value::Mapping(m.clone()),
        }
    }
}

/// Whether two values are the same tree.
#[verifier::loop_isolation(false)]
pub(crate) fn same_value(a: &Value, b: &Value) -> (r: bool)
    ensures
        r == (a@ == b@),
    decreases a,
{
    match a {
        Value::Null => b.is_null(),
        Value::Bool(x) => match b {
            Value::Bool(y) => *x == *y,
            _ => false,
        },
        Value::Number(x) => match b {
            Value::Number(y) => *x == *y,
            _ => false,
        },
        Value::String(x) => match b {
            Value::String(y) => *x == *y,
            _ => false,
        },
        Value::Sequence(x) => match b {
            Value::Sequence(y) => {
                assert(a@ == Tree::Sequence(sequence_view(*x)));
                assert(b@ == Tree::Sequence(sequence_view(*y)));
                if x.len() != y.len() {
                    assert(sequence_view(*x).len() != sequence_view(*y).len());
                    return false;
                }
                let mut i: usize = 0;
                while i < x.len()
                    invariant
                        i <= x.len(),
                        x.len() == y.len(),
                        forall|j: int| 0 <= j < i ==> x[j]@ == y[j]@,
                    decreases x.len() - i,
                {
                    if !same_value(&x[i], &y[i]) {
                        assert(sequence_view(*x)[i as int] != sequence_view(*y)[i as int]);
                        return false;
                    }
                    i += 1;
                }
                assert(sequence_view(*x) =~= sequence_view(*y));
                true
            },
            _ => false,
        },
        Value::Mapping(x) => match b {
            Value::Mapping(y) => crate::mapping::same_mapping(x, y),
            _ => false,
        },
    }
}

impl PartialEq for Value {
    fn eq(&self, other: &Value) -> (r: bool) {
        same_value(self, other)
    }
}

impl Eq for Value {

}

impl PartialEqSpecImpl for Value {
    open spec fn obeys_eq_spec() -> bool {
        true
    }

    open spec fn eq_spec(&self, other: &Value) -> bool {
        self@ == other@
    }
}

impl Merge for Value {
    open spec fn obeys_merge_spec() -> bool {
        true
    }

    open spec fn conflicts(&self, over: &Value) -> bool {
        merge_tree(self@, over@).clash is Some
    }

    open spec fn merged(&self, over: &Value, after: &Value, err: Option<MergeError>) -> bool {
        &&& after@ == merge_tree(self@, over@).base
        &&& reports(err, merge_tree(self@, over@).clash)
    }

    fn merge(&mut self, other: Value) -> (res: MergeResult<()>)
        ensures
            old(self)@ is Null ==> *final(self) == other,
            !(old(self)@ is Null) && old(self)@.kind() != other@.kind() ==> {
                &&& *final(self) == *old(self)
                &&& res matches Err(MergeError::MergeWrongType(_, over)) && over == other
            },
            old(self)@.kind() == other@.kind() && !(other@ is Mapping) && !(other@ is Null)
                ==> *final(self) == other,
            well_formed(old(self)@) && well_formed(other@) ==> well_formed(final(self)@),
        decreases other,
    {
        proof {
            if well_formed(self@) && well_formed(other@) {
                law_well_formed_is_kept(self@, other@);
            }
        }
        if self.is_null() {
            *self = other;
            return Ok(());
        }
        if self.kind() != other.kind() {
            let kept = self.clone();
            return Err(MergeError::MergeWrongType(kept, other));
        }
        match other {
            Value::Null => Ok(()),
            Value::Mapping(y) => match self {
                Value::Mapping(x) => x.merge(y),
                _ => Ok(()),
            },
            o => {
                *self = o;
                Ok(())
            },
        }
    }
}

} // verus!
