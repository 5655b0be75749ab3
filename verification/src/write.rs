//! Mutation through a handle: walking the chain with exclusive access,
//! applying one write at the target, and invalidating upward.

use vstd::prelude::*;

use crate::mapper::Mapper;
use crate::node::{BorrowConflict, NodeSlot};
use crate::store::{lemma_remove_insert, lemma_structure_same_paths, lemma_on_chain_bounds,
    lemma_wf_same, resolve_from, structure_same, Handle, Store};
use crate::value::{dict_find, dict_put, dict_remove, find_key, lemma_find_key,
    lemma_find_key_hit, ImitateOption, VData, Value};

verus! {

/// One write against the value a handle points at.
#[derive(Debug)]
pub enum WriteOp {
    /// Replace the whole value, yielding the one before.
    Replace(Value),
    /// Bind a key in a mapping, yielding the value previously bound.
    DictInsert(u64, Value),
    /// Drop a key from a mapping, yielding the removed value.
    DictRemove(u64),
    /// Splice one element into a sequence at a position.
    ListInsert(usize, Value),
    /// Remove the element of a sequence at a position, yielding it.
    ListRemove(usize),
}

/// The mathematical shape of a write.
pub enum WriteOpV {
    Replace(VData),
    DictInsert(u64, VData),
    DictRemove(u64),
    ListInsert(usize, VData),
    ListRemove(usize),
}

pub open spec fn op_view(op: WriteOp) -> WriteOpV {
    match op {
        WriteOp::Replace(x) => WriteOpV::Replace(x@),
        WriteOp::DictInsert(k, x) => WriteOpV::DictInsert(k, x@),
        WriteOp::DictRemove(k) => WriteOpV::DictRemove(k),
        WriteOp::ListInsert(i, x) => WriteOpV::ListInsert(i, x@),
        WriteOp::ListRemove(i) => WriteOpV::ListRemove(i),
    }
}

/// What a write leaves behind: the tree after it, whether anything changed,
/// and the value it yields.
pub struct WriteRes {
    pub tree: VData,
    pub mutated: bool,
    pub out: Option<VData>,
}

pub open spec fn opt_val_view(o: Option<Value>) -> Option<VData> {
    match o {
        Option::Some(v) => Option::Some(v@),
        Option::None => Option::None,
    }
}

/// A write applied right at its target. A write that does not fit the shape
/// there (a key write on something that is no mapping, a splice out of
/// bounds) changes nothing and yields nothing.
pub open spec fn apply_op(v: VData, op: WriteOpV) -> WriteRes {
    let unchanged = WriteRes { tree: v, mutated: false, out: Option::None };
    match op {
        WriteOpV::Replace(x) => WriteRes { tree: x, mutated: true, out: Option::Some(v) },
        WriteOpV::DictInsert(k, x) => match v {
            VData::Dict(d) => WriteRes {
                tree: VData::Dict(dict_put(d, k, x)),
                mutated: true,
                out: dict_find(d, k),
            },
            _ => unchanged,
        },
        WriteOpV::DictRemove(k) => match v {
            VData::Dict(d) => if find_key(d, k) < d.len() {
                WriteRes {
                    tree: VData::Dict(dict_remove(d, k)),
                    mutated: true,
                    out: Option::Some(d[find_key(d, k)].1),
                }
            } else {
                unchanged
            },
            _ => unchanged,
        },
        WriteOpV::ListInsert(i, x) => match v {
            VData::List(s) => if i <= s.len() {
                WriteRes { tree: VData::List(s.insert(i as int, x)), mutated: true, out: Option::None }
            } else {
                unchanged
            },
            _ => unchanged,
        },
        WriteOpV::ListRemove(i) => match v {
            VData::List(s) => if i < s.len() {
                WriteRes {
                    tree: VData::List(s.remove(i as int)),
                    mutated: true,
                    out: Option::Some(s[i as int]),
                }
            } else {
                unchanged
            },
            _ => unchanged,
        },
    }
}

/// A write carried down the rest of a path: the ancestors are rebuilt around
/// the written child. A path that no longer resolves leaves the tree as it
/// was.
pub open spec fn write_from(v: VData, path: Seq<Mapper>, i: int, op: WriteOpV) -> WriteRes
    decreases path.len() - i,
{
    let unchanged = WriteRes { tree: v, mutated: false, out: Option::None };
    if i < 0 || i > path.len() {
        unchanged
    } else if i == path.len() {
        apply_op(v, op)
    } else {
        match path[i] {
            Mapper::Identity => write_from(v, path, i + 1, op),
            Mapper::Index(ix) => match v {
                VData::List(s) => if (ix as int) < s.len() {
                    let r = write_from(s[ix as int], path, i + 1, op);
                    WriteRes {
                        tree: VData::List(s.update(ix as int, r.tree)),
                        mutated: r.mutated,
                        out: r.out,
                    }
                } else {
                    unchanged
                },
                _ => unchanged,
            },
            Mapper::Key(k) => match v {
                VData::Dict(d) => if find_key(d, k) < d.len() {
                    let r = write_from(d[find_key(d, k)].1, path, i + 1, op);
                    WriteRes {
                        tree: VData::Dict(d.update(find_key(d, k), (k, r.tree))),
                        mutated: r.mutated,
                        out: r.out,
                    }
                } else {
                    unchanged
                },
                _ => unchanged,
            },
            Mapper::Variant => match v {
                VData::Opt(s) => if s.len() > 0 {
                    let r = write_from(s[0], path, i + 1, op);
                    WriteRes {
                        tree: VData::Opt(s.update(0, r.tree)),
                        mutated: r.mutated,
                        out: r.out,
                    }
                } else {
                    unchanged
                },
                _ => unchanged,
            },
        }
    }
}

/// A write that did not change anything also left the tree exactly as it
/// was and yielded nothing.
pub proof fn lemma_write_unmutated(v: VData, path: Seq<Mapper>, i: int, op: WriteOpV)
    ensures
        !write_from(v, path, i, op).mutated ==> write_from(v, path, i, op).tree == v
            && write_from(v, path, i, op).out is None,
    decreases path.len() - i,
{
    let w = write_from(v, path, i, op);
    if i < 0 || i > path.len() || w.mutated {
    } else if i == path.len() {
    } else {
        match path[i] {
            Mapper::Identity => {
                lemma_write_unmutated(v, path, i + 1, op);
            },
            Mapper::Index(ix) => {
                match v {
                    VData::List(s) => {
                        if (ix as int) < s.len() {
                            lemma_write_unmutated(s[ix as int], path, i + 1, op);
                            let s2 = s.update(
                                ix as int,
                                write_from(s[ix as int], path, i + 1, op).tree,
                            );
                            assert(s2 =~= s);
                        }
                    },
                    _ => {},
                }
            },
            Mapper::Key(k) => {
                match v {
                    VData::Dict(d) => {
                        if find_key(d, k) < d.len() {
                            let f = find_key(d, k);
                            lemma_write_unmutated(d[f].1, path, i + 1, op);
                            lemma_find_key(d, k);
                            let d2 = d.update(f, (k, write_from(d[f].1, path, i + 1, op).tree));
                            assert(d2 =~= d);
                        }
                    },
                    _ => {},
                }
            },
            Mapper::Variant => {
                match v {
                    VData::Opt(s) => {
                        if s.len() > 0 {
                            lemma_write_unmutated(s[0], path, i + 1, op);
                            let s2 = s.update(0, write_from(s[0], path, i + 1, op).tree);
                            assert(s2 =~= s);
                        }
                    },
                    _ => {},
                }
            },
        }
    }
}

/// Reading back along the path just written: when the path resolved before
/// the write, it resolves after it to the value the write put there, and the
/// write behaves right at the target as [`apply_op`] says; when it did not
/// resolve, nothing happened.
pub proof fn lemma_write_resolve(v: VData, path: Seq<Mapper>, i: int, op: WriteOpV)
    requires
        0 <= i <= path.len(),
    ensures
        match resolve_from(v, path, i) {
            Option::Some(t) => {
                let w = write_from(v, path, i, op);
                let a = apply_op(t, op);
                &&& w.mutated == a.mutated
                &&& w.out == a.out
                &&& resolve_from(w.tree, path, i) == Option::Some(a.tree)
            },
            Option::None => {
                let w = write_from(v, path, i, op);
                &&& w.mutated == false
                &&& w.out is None
                &&& w.tree == v
            },
        },
    decreases path.len() - i,
{
    let w = write_from(v, path, i, op);
    if i == path.len() {
    } else {
        match path[i] {
            Mapper::Identity => {
                lemma_write_resolve(v, path, i + 1, op);
            },
            Mapper::Index(ix) => {
                match v {
                    VData::List(s) => {
                        if (ix as int) < s.len() {
                            let c = s[ix as int];
                            lemma_write_resolve(c, path, i + 1, op);
                            let wc = write_from(c, path, i + 1, op);
                            let s2 = s.update(ix as int, wc.tree);
                            if resolve_from(v, path, i) is Some {
                                assert(path[i].apply(VData::List(s2)) == Option::Some(wc.tree));
                            } else {
                                assert(s2 =~= s) by {
                                    lemma_write_unmutated(c, path, i + 1, op);
                                }
                            }
                        }
                    },
                    _ => {},
                }
            },
            Mapper::Key(k) => {
                match v {
                    VData::Dict(d) => {
                        lemma_find_key(d, k);
                        let f = find_key(d, k);
                        if f < d.len() {
                            let c = d[f].1;
                            lemma_write_resolve(c, path, i + 1, op);
                            let wc = write_from(c, path, i + 1, op);
                            let d2 = d.update(f, (k, wc.tree));
                            if resolve_from(v, path, i) is Some {
                                assert(path[i].apply(VData::Dict(d2)) == Option::Some(wc.tree)) by {
                                    lemma_find_key(d2, k);
                                    lemma_find_key_hit(d2, k, f);
                                    if find_key(d2, k) < f {
                                        assert(d2[find_key(d2, k)] == d[find_key(d2, k)]);
                                    }
                                    assert(find_key(d2, k) == f);
                                }
                            } else {
                                assert(d2 =~= d) by {
                                    lemma_write_unmutated(c, path, i + 1, op);
                                }
                            }
                        }
                    },
                    _ => {},
                }
            },
            Mapper::Variant => {
                match v {
                    VData::Opt(s) => {
                        if s.len() > 0 {
                            let c = s[0];
                            lemma_write_resolve(c, path, i + 1, op);
                            let wc = write_from(c, path, i + 1, op);
                            let s2 = s.update(0, wc.tree);
                            if resolve_from(v, path, i) is Some {
                                assert(path[i].apply(VData::Opt(s2)) == Option::Some(wc.tree));
                            } else {
                                assert(s2 =~= s) by {
                                    lemma_write_unmutated(c, path, i + 1, op);
                                }
                            }
                        }
                    },
                    _ => {},
                }
            },
        }
    }
}

/// A version counter one step on, wrapping at the top so that a new version
/// never equals the old one.
pub open spec fn vnext(v: u64) -> u64 {
    if v == u64::MAX {
        0
    } else {
        (v + 1) as u64
    }
}

impl Store {
    /// All stays as it was but the version counters: on the chain of `id`
    /// they move one step, so every observer along the path sees the change.
    pub open spec fn chain_versions_bumped(pre: Store, post: Store, id: int) -> bool {
        &&& post.nodes.len() == pre.nodes.len()
        &&& forall|i: int|
            0 <= i < pre.nodes.len() ==> {
                let n = #[trigger] post.nodes[i];
                &&& n.parent == pre.nodes[i].parent
                &&& n.mapper == pre.nodes[i].mapper
                &&& n.strong == pre.nodes[i].strong
                &&& n.access == pre.nodes[i].access
                &&& n.cache@ == pre.nodes[i].cache@
                &&& n.version == if pre.on_chain(i, id) {
                    vnext(pre.nodes[i].version)
                } else {
                    pre.nodes[i].version
                }
            }
    }

    fn set_version(&mut self, i: usize, v: u64)
        requires
            old(self).wf(),
            i < old(self).nodes.len(),
        ensures
            final(self).wf(),
            final(self).data == old(self).data,
            final(self).nodes@ == old(self).nodes@.update(
                i as int,
                NodeSlot { version: v, ..old(self).nodes@[i as int] },
            ),
    {
        let mut slot = self.nodes.remove(i);
        slot.version = v;
        self.nodes.insert(i, slot);
        proof {
            lemma_remove_insert(
                old(self).nodes@,
                i as int,
                NodeSlot { version: v, ..old(self).nodes@[i as int] },
            );
            assert(structure_same(*old(self), *self));
            lemma_wf_same(*old(self), *self);
        }
    }

    /// Upward invalidation: after a successful mutation below, every node on
    /// the chain gets a new version, fully visible before the mutating call
    /// returns. The change signal reaches the root, so an observer
    /// registered anywhere above the mutated path detects it.
    pub fn invalidate_inside_up(&mut self, h: &Handle)
        requires
            old(self).wf(),
            old(self).valid(h.id as int),
        ensures
            final(self).wf(),
            final(self).data == old(self).data,
            Store::chain_versions_bumped(*old(self), *final(self), h.id as int),
    {
        self.bump_version_chain(h.id);
    }

    fn bump_version_chain(&mut self, cur: usize)
        requires
            old(self).wf(),
            cur < old(self).nodes.len(),
        ensures
            final(self).wf(),
            final(self).data == old(self).data,
            Store::chain_versions_bumped(*old(self), *final(self), cur as int),
        decreases cur,
    {
        let ghost pre = *self;
        let here = self.nodes[cur].version;
        let next = if here == u64::MAX {
            0
        } else {
            here + 1
        };
        let parent = self.nodes[cur].parent;
        self.set_version(cur, next);
        let ghost mid = *self;
        match parent {
            None => {
                proof {
                    assert(forall|a: int| pre.on_chain(a, cur as int) ==> a == cur as int);
                }
            },
            Some(p) => {
                self.bump_version_chain(p);
                proof {
                    lemma_structure_same_paths(pre, mid, p as int);
                    assert forall|i: int| 0 <= i < pre.nodes.len() implies final(self).nodes[i].version
                        == if pre.on_chain(i, cur as int) {
                            vnext(pre.nodes[i].version)
                        } else {
                            pre.nodes[i].version
                        } by {
                        if pre.on_chain(i, p as int) {
                            lemma_on_chain_bounds(pre, i, p as int);
                        }
                    }
                }
            },
        }
    }

    /// Writes through a handle. The whole chain is acquired exclusively for
    /// the duration of the call, so a write on a path that is borrowed in
    /// any way is refused as a borrow conflict and changes nothing. On a
    /// granted write, the tree changes exactly as [`write_from`] says over
    /// the handle's path, the write's yield comes back, and, when something
    /// changed, every version on the chain moves before the call returns.
    pub fn mutate(&mut self, h: &Handle, op: WriteOp) -> (r: Result<
        (bool, Option<Value>),
        BorrowConflict,
    >)
        requires
            old(self).wf(),
            old(self).valid(h.id as int),
        ensures
            final(self).wf(),
            match r {
                Result::Err(_) => !old(self).chain_free(h.id as int) && *final(self) == *old(self),
                Result::Ok(p) => {
                    let w = write_from(
                        old(self).data@,
                        old(self).path_of(h.id as int),
                        0,
                        op_view(op),
                    );
                    &&& old(self).chain_free(h.id as int)
                    &&& p.0 == w.mutated
                    &&& opt_val_view(p.1) == w.out
                    &&& final(self).data@ == w.tree
                    &&& if w.mutated {
                        Store::chain_versions_bumped(*old(self), *final(self), h.id as int)
                    } else {
                        final(self).nodes@ == old(self).nodes@
                    }
                },
            },
    {
        let (_, all_free, _, _) = self.scan_chain(h.id);
        if !all_free {
            return Err(BorrowConflict);
        }
        let path = self.collect_path(h.id);
        let mut taken = Value::Unit;
        core::mem::swap(&mut self.data, &mut taken);
        let (tree, mutated, out) = write_value(taken, &path, 0, op);
        self.data = tree;
        proof {
            assert(structure_same(*old(self), *self));
            lemma_wf_same(*old(self), *self);
            lemma_structure_same_paths(*old(self), *self, h.id as int);
        }
        if mutated {
            self.bump_version_chain(h.id);
        } else {
            proof {
                assert(self.nodes@ =~= old(self).nodes@);
            }
        }
        Ok((mutated, out))
    }
}

/// Carries a write down the rest of the path on the real tree, rebuilding
/// each ancestor around the written child, exactly as [`write_from`] says.
fn write_value(v: Value, path: &Vec<Mapper>, i: usize, op: WriteOp) -> (r: (
    Value,
    bool,
    Option<Value>,
))
    requires
        i <= path.len(),
    ensures
        ({
            let w = write_from(v@, path@, i as int, op_view(op));
            &&& r.0@ == w.tree
            &&& r.1 == w.mutated
            &&& opt_val_view(r.2) == w.out
        }),
    decreases path.len() - i,
{
    if i == path.len() {
        return apply_op_value(v, op);
    }
    let m = path[i];
    match m {
        Mapper::Identity => write_value(v, path, i + 1, op),
        Mapper::Index(ix) => match v {
            Value::List(mut elems) => {
                let ghost s = Value::List(elems)@->List_0;
                if ix < elems.len() {
                    let child = elems.remove(ix);
                    let ghost wc = write_from(child@, path@, i as int + 1, op_view(op));
                    let (nc, mutated, out) = write_value(child, path, i + 1, op);
                    elems.insert(ix, nc);
                    let out_value = Value::List(elems);
                    proof {
                        assert(out_value@->List_0 =~= s.update(ix as int, wc.tree));
                    }
                    (out_value, mutated, out)
                } else {
                    (Value::List(elems), false, None)
                }
            },
            other => (other, false, None),
        },
        Mapper::Key(k) => match v {
            Value::Dict(mut pairs) => {
                let ghost d = Value::Dict(pairs)@->Dict_0;
                match dict_pos(&pairs, k) {
                    Some(pos) => {
                        proof {
                            lemma_find_key(d, k);
                        }
                        let (pk, child) = pairs.remove(pos);
                        let ghost wc = write_from(child@, path@, i as int + 1, op_view(op));
                        let (nc, mutated, out) = write_value(child, path, i + 1, op);
                        pairs.insert(pos, (pk, nc));
                        let out_value = Value::Dict(pairs);
                        proof {
                            assert(out_value@->Dict_0 =~= d.update(pos as int, (k, wc.tree)));
                        }
                        (out_value, mutated, out)
                    },
                    None => (Value::Dict(pairs), false, None),
                }
            },
            other => (other, false, None),
        },
        Mapper::Variant => match v {
            Value::Opt(o) => match o {
                ImitateOption::Present(b) => {
                    let ghost s = Value::Opt(ImitateOption::Present(b))@->Opt_0;
                    let inner = *b;
                    let ghost wc = write_from(inner@, path@, i as int + 1, op_view(op));
                    let (nc, mutated, out) = write_value(inner, path, i + 1, op);
                    let out_value = Value::Opt(ImitateOption::Present(Box::new(nc)));
                    proof {
                        assert(out_value@->Opt_0 =~= s.update(0, wc.tree));
                    }
                    (out_value, mutated, out)
                },
                ImitateOption::Absent => (Value::Opt(ImitateOption::Absent), false, None),
            },
            other => (other, false, None),
        },
    }
}

/// The position of the first entry with key `k` in an association list, as
/// the dictionary lookup of its view finds it.
fn dict_pos(pairs: &Vec<(u64, Value)>, k: u64) -> (r: Option<usize>)
    ensures
        ({
            let d = Value::Dict(*pairs)@->Dict_0;
            match r {
                Option::Some(pos) => (pos as int) < d.len() && pos as int == find_key(d, k),
                Option::None => find_key(d, k) == d.len(),
            }
        }),
{
    let ghost d = Value::Dict(*pairs)@->Dict_0;
    proof {
        lemma_find_key(d, k);
    }
    let mut j: usize = 0;
    while j < pairs.len()
        invariant
            0 <= j <= pairs.len(),
            d == Value::Dict(*pairs)@->Dict_0,
            d.len() == pairs.len(),
            forall|t: int| 0 <= t < d.len() ==> (#[trigger] d[t]).0 == pairs@[t].0,
            forall|t: int| 0 <= t < j ==> (#[trigger] d[t]).0 != k,
        decreases pairs.len() - j,
    {
        if pairs[j].0 == k {
            proof {
                lemma_find_key_hit(d, k, j as int);
                lemma_find_key(d, k);
                if find_key(d, k) < j {
                    assert(d[find_key(d, k)].0 == k);
                    assert(false);
                }
            }
            return Some(j);
        }
        j += 1;
    }
    proof {
        lemma_find_key(d, k);
        if find_key(d, k) < d.len() {
            assert(d[find_key(d, k)].0 == k);
            assert(false);
        }
    }
    None
}

/// One write applied right at its target value, exactly as [`apply_op`]
/// says.
fn apply_op_value(v: Value, op: WriteOp) -> (r: (Value, bool, Option<Value>))
    ensures
        ({
            let a = apply_op(v@, op_view(op));
            &&& r.0@ == a.tree
            &&& r.1 == a.mutated
            &&& opt_val_view(r.2) == a.out
        }),
{
    match op {
        WriteOp::Replace(x) => (x, true, Some(v)),
        WriteOp::DictInsert(k, x) => match v {
            Value::Dict(mut pairs) => {
                let ghost d = Value::Dict(pairs)@->Dict_0;
                proof {
                    lemma_find_key(d, k);
                }
                match dict_pos(&pairs, k) {
                    Some(pos) => {
                        let (_pk, oldv) = pairs.remove(pos);
                        pairs.insert(pos, (k, x));
                        let out_value = Value::Dict(pairs);
                        proof {
                            assert(out_value@->Dict_0 =~= dict_put(d, k, x@));
                        }
                        (out_value, true, Some(oldv))
                    },
                    None => {
                        pairs.push((k, x));
                        let out_value = Value::Dict(pairs);
                        proof {
                            assert(out_value@->Dict_0 =~= dict_put(d, k, x@));
                        }
                        (out_value, true, None)
                    },
                }
            },
            other => (other, false, None),
        },
        WriteOp::DictRemove(k) => match v {
            Value::Dict(mut pairs) => {
                let ghost d = Value::Dict(pairs)@->Dict_0;
                proof {
                    lemma_find_key(d, k);
                }
                match dict_pos(&pairs, k) {
                    Some(pos) => {
                        let (_pk, oldv) = pairs.remove(pos);
                        let out_value = Value::Dict(pairs);
                        proof {
                            assert(out_value@->Dict_0 =~= dict_remove(d, k));
                        }
                        (out_value, true, Some(oldv))
                    },
                    None => (Value::Dict(pairs), false, None),
                }
            },
            other => (other, false, None),
        },
        WriteOp::ListInsert(ix, x) => match v {
            Value::List(mut elems) => {
                let ghost s = Value::List(elems)@->List_0;
                if ix <= elems.len() {
                    elems.insert(ix, x);
                    let out_value = Value::List(elems);
                    proof {
                        assert(out_value@->List_0 =~= s.insert(ix as int, x@));
                    }
                    (out_value, true, None)
                } else {
                    (Value::List(elems), false, None)
                }
            },
            other => (other, false, None),
        },
        WriteOp::ListRemove(ix) => match v {
            Value::List(mut elems) => {
                let ghost s = Value::List(elems)@->List_0;
                if ix < elems.len() {
                    let oldv = elems.remove(ix);
                    let out_value = Value::List(elems);
                    proof {
                        assert(out_value@->List_0 =~= s.remove(ix as int));
                    }
                    (out_value, true, Some(oldv))
                } else {
                    (Value::List(elems), false, None)
                }
            },
            other => (other, false, None),
        },
    }
}

} // verus!
