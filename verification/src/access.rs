//! Runtime-checked access along the ancestor chain: scoped acquisition of
//! shared or exclusive access, and fallible reads.

use vstd::prelude::*;

use crate::mapper::{opt_ref_view, Mapper};
use crate::node::{bump, AccessState, BorrowConflict};
use crate::store::{lemma_structure_same_paths, lemma_on_chain_bounds, resolve_from,
    structure_same, Handle, Store};
use crate::value::Value;

verus! {

/// A shared borrow taken on one cell: one more reader.
pub open spec fn shared_inc(a: AccessState) -> AccessState {
    match a {
        AccessState::Free => AccessState::Shared(1),
        AccessState::Shared(n) => AccessState::Shared(bump(n)),
        AccessState::Excl => AccessState::Excl,
    }
}

/// A shared borrow given back on one cell: one reader fewer, free again when
/// it was the last.
pub open spec fn shared_dec(a: AccessState) -> AccessState {
    match a {
        AccessState::Shared(n) => if n <= 1 {
            AccessState::Free
        } else {
            AccessState::Shared((n - 1) as u64)
        },
        _ => a,
    }
}

/// How one chain-wide update changes a cell's access state.
pub enum ChainSet {
    SharedInc,
    SharedDec,
    SetExcl,
    SetFree,
}

pub open spec fn access_after(op: ChainSet, a: AccessState) -> AccessState {
    match op {
        ChainSet::SharedInc => shared_inc(a),
        ChainSet::SharedDec => shared_dec(a),
        ChainSet::SetExcl => AccessState::Excl,
        ChainSet::SetFree => AccessState::Free,
    }
}

impl Store {
    /// Every node on the chain of `id` is exclusively borrowed, as after a
    /// granted exclusive acquisition.
    pub open spec fn chain_excl(self, id: int) -> bool {
        forall|a: int| self.on_chain(a, id) ==> (#[trigger] self.nodes[a].access) is Excl
    }

    /// All stays as it was but the access states: on the chain of `id` they
    /// are rewritten by `op`.
    pub open spec fn chain_access_updated(pre: Store, post: Store, id: int, op: ChainSet) -> bool {
        &&& post.nodes.len() == pre.nodes.len()
        &&& post.data == pre.data
        &&& forall|i: int|
            0 <= i < pre.nodes.len() ==> {
                let n = #[trigger] post.nodes[i];
                &&& n.parent == pre.nodes[i].parent
                &&& n.mapper == pre.nodes[i].mapper
                &&& n.strong == pre.nodes[i].strong
                &&& n.version == pre.nodes[i].version
                &&& n.cache@ == pre.nodes[i].cache@
                &&& n.access == if pre.on_chain(i, id) {
                    access_after(op, pre.nodes[i].access)
                } else {
                    pre.nodes[i].access
                }
            }
    }

    fn set_access(&mut self, i: usize, a: AccessState)
        requires
            old(self).wf(),
            i < old(self).nodes.len(),
        ensures
            final(self).wf(),
            final(self).data == old(self).data,
            final(self).nodes@ == old(self).nodes@.update(
                i as int,
                crate::node::NodeSlot { access: a, ..old(self).nodes@[i as int] },
            ),
    {
        let mut slot = self.nodes.remove(i);
        slot.access = a;
        self.nodes.insert(i, slot);
        proof {
            crate::store::lemma_remove_insert(
                old(self).nodes@,
                i as int,
                crate::node::NodeSlot { access: a, ..old(self).nodes@[i as int] },
            );
            assert(structure_same(*old(self), *self));
            crate::store::lemma_wf_same(*old(self), *self);
        }
    }

    /// Walks the chain of `cur` and reports, in order: no cell exclusively
    /// borrowed; every cell free; every cell shared.
    pub(crate) fn scan_chain(&self, cur: usize) -> (r: (bool, bool, bool, bool))
        requires
            self.wf(),
            cur < self.nodes.len(),
        ensures
            r.0 == self.read_ok(cur as int),
            r.1 == self.chain_free(cur as int),
            r.2 == self.chain_shared(cur as int),
            r.3 == self.chain_excl(cur as int),
        decreases cur,
    {
        let here = self.nodes[cur].access;
        let here_excl = matches!(here, AccessState::Excl);
        let here_free = matches!(here, AccessState::Free);
        let here_shared = matches!(here, AccessState::Shared(_));
        let rest = match self.nodes[cur].parent {
            None => (true, true, true, true),
            Some(p) => self.scan_chain(p),
        };
        let r = (rest.0 && !here_excl, rest.1 && here_free, rest.2 && here_shared,
            rest.3 && here_excl);
        proof {
            let id = cur as int;
            match self.nodes[id].parent {
                Option::Some(p) => {
                    assert forall|a: int| self.on_chain(a, id) implies a == id || self.on_chain(
                        a,
                        p as int,
                    ) by {}
                    assert(self.on_chain(id, id));
                    assert(forall|a: int|
                        self.on_chain(a, p as int) ==> self.on_chain(a, id));
                },
                Option::None => {
                    assert(forall|a: int| self.on_chain(a, id) ==> a == id);
                    assert(self.on_chain(id, id));
                },
            }
        }
        r
    }

    /// Rewrites the access state of every node on the chain of `cur`.
    fn set_chain_access(&mut self, cur: usize, op: ChainSet)
        requires
            old(self).wf(),
            cur < old(self).nodes.len(),
        ensures
            final(self).wf(),
            Store::chain_access_updated(*old(self), *final(self), cur as int, op),
        decreases cur,
    {
        let ghost pre = *self;
        let here = self.nodes[cur].access;
        let next = match op {
            ChainSet::SharedInc => match here {
                AccessState::Free => AccessState::Shared(1),
                AccessState::Shared(n) => AccessState::Shared(
                    if n == u64::MAX {
                        n
                    } else {
                        n + 1
                    },
                ),
                AccessState::Excl => AccessState::Excl,
            },
            ChainSet::SharedDec => match here {
                AccessState::Shared(n) => if n <= 1 {
                    AccessState::Free
                } else {
                    AccessState::Shared(n - 1)
                },
                other => other,
            },
            ChainSet::SetExcl => AccessState::Excl,
            ChainSet::SetFree => AccessState::Free,
        };
        proof {
            assert(next == access_after(op, pre.nodes[cur as int].access));
        }
        let parent = self.nodes[cur].parent;
        self.set_access(cur, next);
        let ghost mid = *self;
        match parent {
            None => {
                proof {
                    assert(forall|a: int| pre.on_chain(a, cur as int) ==> a == cur as int);
                }
            },
            Some(p) => {
                self.set_chain_access(p, op);
                proof {
                    lemma_structure_same_paths(pre, mid, p as int);
                    assert forall|i: int| 0 <= i < pre.nodes.len() implies final(self).nodes[i].access
                        == if pre.on_chain(i, cur as int) {
                            access_after(op, pre.nodes[i].access)
                        } else {
                            pre.nodes[i].access
                        } by {
                        if pre.on_chain(i, p as int) {
                            lemma_on_chain_bounds(pre, i, p as int);
                        }
                    }
                }
            },
        }
    }
}

impl Store {
    /// The full path of mappers from the root down to node `cur`.
    pub(crate) fn collect_path(&self, cur: usize) -> (p: Vec<Mapper>)
        requires
            self.wf(),
            cur < self.nodes.len(),
        ensures
            p@ == self.path_of(cur as int),
        decreases cur,
    {
        match self.nodes[cur].parent {
            None => {
                let mut v: Vec<Mapper> = Vec::new();
                v.push(self.nodes[cur].mapper);
                v
            },
            Some(p) => {
                let mut v = self.collect_path(p);
                v.push(self.nodes[cur].mapper);
                v
            },
        }
    }

    /// Fallible read access through a handle: walks the whole ancestor
    /// chain, re-evaluating each mapper, and reports absence when some entry
    /// along the path is gone. It faults, and never reads, while any cell on
    /// the chain is exclusively borrowed.
    pub fn borrow<'a>(&'a self, h: &Handle) -> (r: Result<Option<&'a Value>, BorrowConflict>)
        requires
            self.wf(),
            self.valid(h.id as int),
        ensures
            match r {
                Result::Ok(opt) => self.read_ok(h.id as int) && opt_ref_view(opt) == self.view_at(
                    h.id as int,
                ),
                Result::Err(_) => !self.read_ok(h.id as int),
            },
    {
        let (no_excl, _, _, _) = self.scan_chain(h.id);
        if !no_excl {
            return Err(BorrowConflict);
        }
        let path = self.collect_path(h.id);
        Ok(resolve_ref(&self.data, &path, 0))
    }

    /// Scoped shared acquisition on the chain of a handle: granted unless
    /// some cell on the chain is exclusively borrowed, and then to be given
    /// back with [`Store::release_shared`].
    pub fn acquire_shared(&mut self, h: &Handle) -> (r: Result<(), BorrowConflict>)
        requires
            old(self).wf(),
            old(self).valid(h.id as int),
        ensures
            final(self).wf(),
            match r {
                Result::Ok(_) => old(self).read_ok(h.id as int) && Store::chain_access_updated(
                    *old(self),
                    *final(self),
                    h.id as int,
                    ChainSet::SharedInc,
                ),
                Result::Err(_) => !old(self).read_ok(h.id as int) && *final(self) == *old(self),
            },
    {
        let (no_excl, _, _, _) = self.scan_chain(h.id);
        if no_excl {
            self.set_chain_access(h.id, ChainSet::SharedInc);
            Ok(())
        } else {
            Err(BorrowConflict)
        }
    }

    /// Gives one shared acquisition back. Reports whether the chain was
    /// indeed shared; nothing changes when it was not.
    pub fn release_shared(&mut self, h: &Handle) -> (r: bool)
        requires
            old(self).wf(),
            old(self).valid(h.id as int),
        ensures
            final(self).wf(),
            r == old(self).chain_shared(h.id as int),
            r ==> Store::chain_access_updated(
                *old(self),
                *final(self),
                h.id as int,
                ChainSet::SharedDec,
            ),
            !r ==> *final(self) == *old(self),
    {
        let (_, _, all_shared, _) = self.scan_chain(h.id);
        if all_shared {
            self.set_chain_access(h.id, ChainSet::SharedDec);
        }
        all_shared
    }

    /// Scoped exclusive acquisition on the chain of a handle: granted only
    /// while every cell on the chain is free, and then to be given back with
    /// [`Store::release_exclusive`]. Requesting it on a path already
    /// borrowed, in whatever way, is the borrow-conflict fault.
    pub fn acquire_exclusive(&mut self, h: &Handle) -> (r: Result<(), BorrowConflict>)
        requires
            old(self).wf(),
            old(self).valid(h.id as int),
        ensures
            final(self).wf(),
            match r {
                Result::Ok(_) => old(self).chain_free(h.id as int) && Store::chain_access_updated(
                    *old(self),
                    *final(self),
                    h.id as int,
                    ChainSet::SetExcl,
                ),
                Result::Err(_) => !old(self).chain_free(h.id as int) && *final(self) == *old(
                    self,
                ),
            },
    {
        let (_, all_free, _, _) = self.scan_chain(h.id);
        if all_free {
            self.set_chain_access(h.id, ChainSet::SetExcl);
            Ok(())
        } else {
            Err(BorrowConflict)
        }
    }

    /// Gives an exclusive acquisition back. Reports whether the chain was
    /// indeed exclusively held; nothing changes when it was not.
    pub fn release_exclusive(&mut self, h: &Handle) -> (r: bool)
        requires
            old(self).wf(),
            old(self).valid(h.id as int),
        ensures
            final(self).wf(),
            r == old(self).chain_excl(h.id as int),
            r ==> Store::chain_access_updated(
                *old(self),
                *final(self),
                h.id as int,
                ChainSet::SetFree,
            ),
            !r ==> *final(self) == *old(self),
    {
        let (_, _, _, all_excl) = self.scan_chain(h.id);
        if all_excl {
            self.set_chain_access(h.id, ChainSet::SetFree);
        }
        all_excl
    }
}

/// Resolves the rest of a path on a value, returning a reference into it.
fn resolve_ref<'a>(v: &'a Value, path: &Vec<Mapper>, i: usize) -> (r: Option<&'a Value>)
    requires
        i <= path.len(),
    ensures
        opt_ref_view(r) == resolve_from(v@, path@, i as int),
    decreases path.len() - i,
{
    if i == path.len() {
        Some(v)
    } else {
        let m = path[i];
        match m.map(v) {
            Some(c) => resolve_ref(c, path, i + 1),
            None => None,
        }
    }
}

} // verus!
