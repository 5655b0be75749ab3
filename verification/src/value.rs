//! The value tree and its mathematical view.

use vstd::prelude::*;

verus! {

broadcast use vstd::std_specs::vec::axiom_vec_index_decreases;

/// An optional value, written out as the tracking layer sees it: a sum type
/// whose `Present` variant carries the payload that the variant mapper
/// projects to.
#[derive(Debug, PartialEq, Eq)]
pub enum ImitateOption<T> {
    Present(T),
    Absent,
}

/// One value of the tracked tree: a scalar, an ordered sequence, a
/// key-to-value mapping, or an optional value.
#[derive(Debug, PartialEq, Eq)]
pub enum Value {
    Unit,
    Num(u64),
    Text(String),
    List(Vec<Value>),
    Dict(Vec<(u64, Value)>),
    Opt(ImitateOption<Box<Value>>),
}

/// The mathematical shape of a [`Value`]. An optional payload is modelled as
/// a sequence of length at most one: empty means absent.
pub enum VData {
    Unit,
    Num(u64),
    Text(Seq<char>),
    List(Seq<VData>),
    Dict(Seq<(u64, VData)>),
    Opt(Seq<VData>),
}

impl Value {
    /// The shape of this value, with every nested value abstracted the same
    /// way.
    pub open spec fn vdata(self) -> VData
        decreases self,
    {
        match self {
            Value::Unit => VData::Unit,
            Value::Num(n) => VData::Num(n),
            Value::Text(s) => VData::Text(s@),
            Value::List(elems) => VData::List(
                Seq::new(
                    elems@.len(),
                    |i: int|
                        if 0 <= i < elems@.len() {
                            elems@[i].vdata()
                        } else {
                            VData::Unit
                        },
                ),
            ),
            Value::Dict(pairs) => VData::Dict(
                Seq::new(
                    pairs@.len(),
                    |i: int|
                        if 0 <= i < pairs@.len() {
                            (pairs@[i].0, pairs@[i].1.vdata())
                        } else {
                            (0u64, VData::Unit)
                        },
                ),
            ),
            Value::Opt(o) => match o {
                ImitateOption::Present(b) => VData::Opt(seq![(*b).vdata()]),
                ImitateOption::Absent => VData::Opt(Seq::empty()),
            },
        }
    }
}

impl View for Value {
    type V = VData;

    open spec fn view(&self) -> VData {
        (*self).vdata()
    }
}

/// The position of the first entry with key `k`, or `d.len()` when no entry
/// has it.
pub open spec fn find_key(d: Seq<(u64, VData)>, k: u64) -> int
    decreases d.len(),
{
    if d.len() == 0 {
        0
    } else if d[0].0 == k {
        0
    } else {
        1 + find_key(d.drop_first(), k)
    }
}

/// What looking key `k` up in the mapping yields.
pub open spec fn dict_find(d: Seq<(u64, VData)>, k: u64) -> Option<VData> {
    if find_key(d, k) < d.len() {
        Some(d[find_key(d, k)].1)
    } else {
        None
    }
}

/// The mapping after binding `k` to `v`: an existing entry is overwritten in
/// place, a fresh one is appended.
pub open spec fn dict_put(d: Seq<(u64, VData)>, k: u64, v: VData) -> Seq<(u64, VData)> {
    if find_key(d, k) < d.len() {
        d.update(find_key(d, k), (k, v))
    } else {
        d.push((k, v))
    }
}

/// The mapping after removing the entry for `k`; unchanged when `k` is
/// absent.
pub open spec fn dict_remove(d: Seq<(u64, VData)>, k: u64) -> Seq<(u64, VData)> {
    if find_key(d, k) < d.len() {
        d.remove(find_key(d, k))
    } else {
        d
    }
}

/// `find_key` points at the first entry with key `k`: everything before it
/// has another key, and it has key `k` whenever it is in range.
pub proof fn lemma_find_key(d: Seq<(u64, VData)>, k: u64)
    ensures
        0 <= find_key(d, k) <= d.len(),
        find_key(d, k) < d.len() ==> d[find_key(d, k)].0 == k,
        forall|j: int| 0 <= j < find_key(d, k) ==> (#[trigger] d[j]).0 != k,
    decreases d.len(),
{
    if d.len() > 0 && d[0].0 != k {
        lemma_find_key(d.drop_first(), k);
        assert forall|j: int| 0 <= j < find_key(d, k) implies (#[trigger] d[j]).0 != k by {
            if j > 0 {
                assert(d.drop_first()[j - 1] == d[j]);
            }
        }
    }
}

/// A key that some entry holds is found within range.
pub proof fn lemma_find_key_hit(d: Seq<(u64, VData)>, k: u64, j: int)
    requires
        0 <= j < d.len(),
        d[j].0 == k,
    ensures
        find_key(d, k) <= j,
    decreases d.len(),
{
    if d.len() > 0 && d[0].0 != k {
        assert(d.drop_first()[j - 1] == d[j]);
        lemma_find_key_hit(d.drop_first(), k, j - 1);
    }
}

/// Looking up the key just put yields the value just put.
pub proof fn lemma_dict_put_find(d: Seq<(u64, VData)>, k: u64, v: VData)
    ensures
        dict_find(dict_put(d, k, v), k) == Some(v),
{
    lemma_find_key(d, k);
    let d2 = dict_put(d, k, v);
    let i = find_key(d, k);
    if i < d.len() {
        lemma_find_key(d2, k);
        lemma_find_key_hit(d2, k, i);
        assert(dict_find(d2, k) == Some(v));
    } else {
        lemma_find_key(d2, k);
        lemma_find_key_hit(d2, k, d.len() as int);
        assert(find_key(d2, k) == d.len());
    }
}

/// Binding or removing one key leaves every other key's lookup unchanged.
pub proof fn lemma_dict_other_keys(d: Seq<(u64, VData)>, k: u64, v: VData, k2: u64)
    requires
        k2 != k,
    ensures
        dict_find(dict_put(d, k, v), k2) == dict_find(d, k2),
        dict_find(dict_remove(d, k), k2) == dict_find(d, k2),
    decreases d.len(),
{
    lemma_find_key(d, k);
    lemma_find_key(d, k2);
    let fi = find_key(d, k);
    let f2 = find_key(d, k2);
    let p = dict_put(d, k, v);
    lemma_find_key(p, k2);
    let fp = find_key(p, k2);
    // the put leaves every entry with a key other than `k` in place
    assert(forall|j: int| 0 <= j < d.len() && j != fi ==> p[j] == d[j]);
    if f2 < d.len() {
        lemma_find_key_hit(p, k2, f2);
        assert(fp == f2) by {
            if fp < f2 {
                assert(p[fp] == d[fp]);
            }
        }
    } else {
        assert(fp == p.len()) by {
            if fp < p.len() {
                assert(p[fp].0 == k2);
                if fp < d.len() {
                    assert(p[fp] == d[fp]);
                }
            }
        }
    }
    let r = dict_remove(d, k);
    if fi < d.len() {
        lemma_find_key(r, k2);
        let fr = find_key(r, k2);
        // entries below the removed one keep their place; the ones above
        // shift down by one
        assert(forall|j: int| 0 <= j < fi ==> r[j] == d[j]);
        assert(forall|j: int| fi <= j < d.len() - 1 ==> r[j] == d[j + 1]);
        if f2 < d.len() {
            if f2 < fi {
                lemma_find_key_hit(r, k2, f2);
                assert(fr == f2) by {
                    if fr < f2 {
                        assert(r[fr] == d[fr]);
                    }
                }
            } else {
                lemma_find_key_hit(r, k2, f2 - 1);
                assert(r[fr].1 == d[f2].1) by {
                    if fr < fi {
                        assert(r[fr] == d[fr]);
                        assert(false);
                    } else {
                        assert(r[fr] == d[fr + 1]);
                        if fr + 1 < f2 {
                            assert(false);
                        }
                    }
                }
            }
        } else {
            assert(fr == r.len()) by {
                if fr < r.len() {
                    assert(r[fr].0 == k2);
                    if fr < fi {
                        assert(r[fr] == d[fr]);
                    } else {
                        assert(r[fr] == d[fr + 1]);
                    }
                }
            }
        }
    }
}

} // verus!
