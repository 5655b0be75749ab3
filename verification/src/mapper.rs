//! Mappers: pure projections from a parent value to one child.

use vstd::prelude::*;

use crate::value::{dict_find, find_key, lemma_find_key, lemma_find_key_hit, ImitateOption,
    VData, Value};

verus! {

/// A path segment: how one child value is found inside its parent. The
/// identity mapper stands at the root; the others project into a sequence,
/// a mapping, or an optional value, and report absence when the projection
/// no longer applies.
#[derive(Debug, Clone, Copy, PartialEq, Eq, Structural)]
pub enum Mapper {
    Identity,
    Index(usize),
    Key(u64),
    Variant,
}

/// The view of an optional reference into the tree.
pub open spec fn opt_ref_view(r: Option<&Value>) -> Option<VData> {
    match r {
        Option::Some(v) => Option::Some(v@),
        Option::None => Option::None,
    }
}

impl Mapper {
    /// What projecting with this mapper yields, on the mathematical shape of
    /// the parent.
    pub open spec fn apply(self, v: VData) -> Option<VData> {
        match self {
            Mapper::Identity => Option::Some(v),
            Mapper::Index(i) => match v {
                VData::List(s) => if (i as int) < s.len() {
                    Option::Some(s[i as int])
                } else {
                    Option::None
                },
                _ => Option::None,
            },
            Mapper::Key(k) => match v {
                VData::Dict(d) => dict_find(d, k),
                _ => Option::None,
            },
            Mapper::Variant => match v {
                VData::Opt(s) => if s.len() > 0 {
                    Option::Some(s[0])
                } else {
                    Option::None
                },
                _ => Option::None,
            },
        }
    }

    /// Fallible read access: the child this mapper projects to, or absence
    /// when the entry no longer exists or the parent has another shape.
    pub fn map<'a>(&self, input: &'a Value) -> (r: Option<&'a Value>)
        ensures
            opt_ref_view(r) == self.apply(input@),
    {
        match self {
            Mapper::Identity => Some(input),
            Mapper::Index(i) => match input {
                Value::List(elems) => if *i < elems.len() {
                    Some(&elems[*i])
                } else {
                    None
                },
                _ => None,
            },
            Mapper::Key(k) => match input {
                Value::Dict(pairs) => dict_get(pairs, *k),
                _ => None,
            },
            Mapper::Variant => match input {
                Value::Opt(ImitateOption::Present(b)) => Some(&**b),
                _ => None,
            },
        }
    }
}

/// The first entry with key `k` in an association list, as the dictionary
/// lookup of its view.
fn dict_get<'a>(pairs: &'a Vec<(u64, Value)>, k: u64) -> (r: Option<&'a Value>)
    ensures
        opt_ref_view(r) == dict_find(Value::Dict(*pairs)@->Dict_0, k),
{
    let ghost d = Value::Dict(*pairs)@->Dict_0;
    proof {
        lemma_find_key(d, k);
    }
    let mut j: usize = 0;
    while j < pairs.len()
        invariant
            0 <= j <= pairs.len(),
            d == Value::Dict(*pairs)@->Dict_0,
            d.len() == pairs.len(),
            forall|t: int| 0 <= t < d.len() ==> (#[trigger] d[t]).0 == pairs@[t].0
                && d[t].1 == pairs@[t].1@,
            forall|t: int| 0 <= t < j ==> (#[trigger] d[t]).0 != k,
        decreases pairs.len() - j,
    {
        if pairs[j].0 == k {
            proof {
                assert(d[j as int].0 == k);
                lemma_find_key_hit(d, k, j as int);
                lemma_find_key(d, k);
                if find_key(d, k) < j {
                    assert(d[find_key(d, k)].0 == k);
                    assert(false);
                }
                assert(find_key(d, k) == j as int);
                assert(dict_find(d, k) == Option::Some(d[j as int].1));
                assert(d[j as int].1 == pairs@[j as int].1@);
            }
            let out: &Value = &pairs[j].1;
            proof {
                assert(out@ == pairs@[j as int].1@);
            }
            return Some(out);
        }
        j += 1;
    }
    proof {
        lemma_find_key(d, k);
        if find_key(d, k) < d.len() {
            assert(d[find_key(d, k)].0 == k);
        }
    }
    None
}

/// An index mapper for a tracked sequence: projects to the element at a
/// fixed position.
#[derive(Debug, Clone, Copy, PartialEq, Eq, Structural)]
pub struct MapperVec {
    pub index: usize,
}

impl MapperVec {
    /// The path segment this mapper stands for.
    pub open spec fn mapper(self) -> Mapper {
        Mapper::Index(self.index)
    }

    pub fn new(index: usize) -> (r: MapperVec)
        ensures
            r.mapper() == Mapper::Index(index),
    {
        MapperVec { index }
    }

    /// The path segment this mapper stands for, as a value.
    pub fn as_mapper(&self) -> (m: Mapper)
        ensures
            m == self.mapper(),
    {
        Mapper::Index(self.index)
    }

    /// The element at the fixed position, or absence when it is out of
    /// bounds.
    pub fn map<'a>(&self, input: &'a Value) -> (r: Option<&'a Value>)
        ensures
            opt_ref_view(r) == self.mapper().apply(input@),
    {
        Mapper::Index(self.index).map(input)
    }
}

/// A key mapper for a tracked mapping: projects to the value bound to a
/// fixed key.
#[derive(Debug, Clone, Copy, PartialEq, Eq, Structural)]
pub struct MapperHashMap {
    pub key: u64,
}

impl MapperHashMap {
    /// The path segment this mapper stands for.
    pub open spec fn mapper(self) -> Mapper {
        Mapper::Key(self.key)
    }

    pub fn new(key: u64) -> (r: MapperHashMap)
        ensures
            r.mapper() == Mapper::Key(key),
    {
        MapperHashMap { key }
    }

    /// The path segment this mapper stands for, as a value.
    pub fn as_mapper(&self) -> (m: Mapper)
        ensures
            m == self.mapper(),
    {
        Mapper::Key(self.key)
    }

    /// The value bound to the fixed key, or absence when the key is gone.
    pub fn map<'a>(&self, input: &'a Value) -> (r: Option<&'a Value>)
        ensures
            opt_ref_view(r) == self.mapper().apply(input@),
    {
        Mapper::Key(self.key).map(input)
    }
}

} // verus!
