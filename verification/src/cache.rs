//! The handle cache: at most one materialized child per (container, key),
//! looked up on every child request and refreshed when the cached node died.

use vstd::prelude::*;
use vstd::pervasive::VecAdditionalExecFns;

use crate::mapper::Mapper;
use crate::node::{bump, AccessState, NodeSlot};
use crate::store::{lemma_extend_same_paths, Handle, Store};

verus! {

impl Store {
    /// Position `j` of node `c`'s cache holds an entry under mapper `m`.
    pub open spec fn cache_has(self, c: int, m: Mapper, j: int) -> bool {
        0 <= j < self.nodes[c].cache@.len() && self.nodes[self.nodes[c].cache@[j] as int].mapper
            == m
    }

    /// Some entry of node `c`'s cache stands under mapper `m`.
    pub open spec fn has_cached(self, c: int, m: Mapper) -> bool {
        exists|j: int| self.cache_has(c, m, j)
    }

    /// The position of the entry under mapper `m`; meaningful only while one
    /// exists (well-formedness makes it unique).
    pub open spec fn cache_pos(self, c: int, m: Mapper) -> int {
        choose|j: int| self.cache_has(c, m, j)
    }

    /// The child node cached under mapper `m`, live or dead, if any.
    pub open spec fn cached_child(self, c: int, m: Mapper) -> Option<int> {
        if self.has_cached(c, m) {
            Option::Some(self.nodes[c].cache@[self.cache_pos(c, m)] as int)
        } else {
            Option::None
        }
    }

    /// The post state of creating a node: one slot appended, a fresh handle
    /// on it, everything that existed untouched but for node `c`'s cache.
    pub open spec fn fresh_child(pre: Store, post: Store, c: int, m: Mapper, r: Handle) -> bool {
        &&& r.id == pre.nodes.len()
        &&& post.nodes.len() == pre.nodes.len() + 1
        &&& post.data == pre.data
        &&& forall|i: int| 0 <= i < pre.nodes.len() && i != c ==> post.nodes[i] == pre.nodes[i]
        &&& post.nodes[r.id as int].parent == Option::Some(c as usize)
        &&& post.nodes[r.id as int].mapper == m
        &&& post.nodes[r.id as int].strong == 1
        &&& post.nodes[r.id as int].version == 0
        &&& post.nodes[r.id as int].access is Free
        &&& post.nodes[r.id as int].cache@ == Seq::<usize>::empty()
        &&& post.nodes[c].parent == pre.nodes[c].parent
        &&& post.nodes[c].mapper == pre.nodes[c].mapper
        &&& post.nodes[c].strong == pre.nodes[c].strong
        &&& post.nodes[c].version == pre.nodes[c].version
        &&& post.nodes[c].access == pre.nodes[c].access
        &&& post.path_of(r.id as int) == pre.path_of(c).push(m)
        &&& forall|i: int| 0 <= i < pre.nodes.len() ==> post.path_of(i) == pre.path_of(i)
    }

    /// The whole observable effect of a child request on node `c` under
    /// mapper `m`: a cache hit on a live entry hands the very same node out
    /// again and only bumps its strong count; a miss, or a hit on a dead
    /// entry, materializes a fresh node and caches it. Either way the handle
    /// points at a live child of `c` under `m`, and the cache now maps `m`
    /// to exactly that node.
    pub open spec fn child_at_post(pre: Store, post: Store, c: int, m: Mapper, r: Handle) -> bool {
        &&& post.wf()
        &&& post.data == pre.data
        &&& post.valid(r.id as int)
        &&& post.nodes[r.id as int].parent == Option::Some(c as usize)
        &&& post.nodes[r.id as int].mapper == m
        &&& post.nodes[r.id as int].strong > 0
        &&& post.cached_child(c, m) == Option::Some(r.id as int)
        &&& post.path_of(r.id as int) == pre.path_of(c).push(m)
        &&& match pre.cached_child(c, m) {
            Option::Some(j) => if pre.nodes[j].strong > 0 {
                &&& r.id as int == j
                &&& post.nodes@ == pre.nodes@.update(
                    j,
                    NodeSlot { strong: bump(pre.nodes[j].strong), ..pre.nodes@[j] },
                )
            } else {
                &&& Store::fresh_child(pre, post, c, m, r)
                &&& post.nodes[c].cache@ == pre.nodes[c].cache@.update(
                    pre.cache_pos(c, m),
                    r.id,
                )
            },
            Option::None => {
                &&& Store::fresh_child(pre, post, c, m, r)
                &&& post.nodes[c].cache@ == pre.nodes[c].cache@.push(r.id)
            },
        }
    }

    /// Materializes a fresh tracked node under `h`: a new edge whose parent
    /// is `h`'s node, carrying mapper `m`, wrapped in a node with an empty
    /// cache and one handle out. Nothing else moves; in particular the
    /// parent's cache is not touched here.
    pub fn new_child(&mut self, h: &Handle, m: Mapper) -> (r: Handle)
        requires
            old(self).wf(),
            old(self).valid(h.id as int),
        ensures
            final(self).wf(),
            Store::fresh_child(*old(self), *final(self), h.id as int, m, r),
            final(self).nodes[h.id as int].cache@ == old(self).nodes[h.id as int].cache@,
    {
        let id = self.nodes.len();
        self.nodes.push(
            NodeSlot {
                parent: Some(h.id),
                mapper: m,
                strong: 1,
                version: 0,
                access: AccessState::Free,
                cache: Vec::new(),
            },
        );
        proof {
            let pre = *old(self);
            let post = *self;
            assert forall|i: int| 0 <= i < post.nodes.len() implies post.cache_wf(i) by {
                if i < pre.nodes.len() {
                    assert(pre.cache_wf(i));
                    assert forall|j: int| 0 <= j < post.nodes[i].cache@.len() implies i < (
                    post.nodes[i].cache@[j] as int) < post.nodes.len() && post.nodes[post.nodes[i].cache@[j] as int].parent
                        == Option::Some(i as usize) by {
                        assert(pre.nodes[i].cache@[j] == post.nodes[i].cache@[j]);
                    }
                }
            }
            assert(post.wf());
            lemma_extend_same_paths(pre, post, h.id as int);
            assert forall|i: int| 0 <= i < pre.nodes.len() implies post.path_of(i) == pre.path_of(
                i,
            ) by {
                lemma_extend_same_paths(pre, post, i);
            }
            assert(post.path_of(id as int) == pre.path_of(h.id as int).push(m));
        }
        Handle { id }
    }

    fn cache_set(&mut self, c: usize, p: usize, id: usize)
        requires
            c < old(self).nodes.len(),
            p < old(self).nodes[c as int].cache.len(),
        ensures
            final(self).data == old(self).data,
            final(self).nodes.len() == old(self).nodes.len(),
            final(self).nodes[c as int].cache@ == old(self).nodes[c as int].cache@.update(
                p as int,
                id,
            ),
            final(self).nodes[c as int].parent == old(self).nodes[c as int].parent,
            final(self).nodes[c as int].mapper == old(self).nodes[c as int].mapper,
            final(self).nodes[c as int].strong == old(self).nodes[c as int].strong,
            final(self).nodes[c as int].version == old(self).nodes[c as int].version,
            final(self).nodes[c as int].access == old(self).nodes[c as int].access,
            forall|i: int|
                0 <= i < old(self).nodes.len() && i != c ==> final(self).nodes[i] == old(
                    self,
                ).nodes[i],
    {
        let mut slot = self.nodes.remove(c);
        slot.cache.set(p, id);
        self.nodes.insert(c, slot);
        proof {
            assert forall|i: int|
                0 <= i < old(self).nodes.len() && i != c implies self.nodes[i] == old(
                self,
            ).nodes[i] by {}
        }
    }

    fn cache_push(&mut self, c: usize, id: usize)
        requires
            c < old(self).nodes.len(),
        ensures
            final(self).data == old(self).data,
            final(self).nodes.len() == old(self).nodes.len(),
            final(self).nodes[c as int].cache@ == old(self).nodes[c as int].cache@.push(id),
            final(self).nodes[c as int].parent == old(self).nodes[c as int].parent,
            final(self).nodes[c as int].mapper == old(self).nodes[c as int].mapper,
            final(self).nodes[c as int].strong == old(self).nodes[c as int].strong,
            final(self).nodes[c as int].version == old(self).nodes[c as int].version,
            final(self).nodes[c as int].access == old(self).nodes[c as int].access,
            forall|i: int|
                0 <= i < old(self).nodes.len() && i != c ==> final(self).nodes[i] == old(
                    self,
                ).nodes[i],
    {
        let mut slot = self.nodes.remove(c);
        slot.cache.push(id);
        self.nodes.insert(c, slot);
        proof {
            assert forall|i: int|
                0 <= i < old(self).nodes.len() && i != c implies self.nodes[i] == old(
                self,
            ).nodes[i] by {}
        }
    }

    /// The core child lookup: a live cached node under `m` is handed out
    /// again, identity preserved; a dead or missing entry is refilled with a
    /// freshly materialized node.
    pub fn child_at(&mut self, h: &Handle, m: Mapper) -> (r: Handle)
        requires
            old(self).wf(),
            old(self).valid(h.id as int),
        ensures
            Store::child_at_post(*old(self), *final(self), h.id as int, m, r),
    {
        let ghost pre = *self;
        let c = h.id;
        let n = self.nodes[c].cache.len();
        let mut j: usize = 0;
        let mut found: Option<usize> = None;
        while j < n
            invariant
                *self == pre,
                pre.wf(),
                (c as int) < pre.nodes.len(),
                n == pre.nodes[c as int].cache.len(),
                0 <= j <= n,
                match found {
                    Option::Some(p) => (p as int) < j && pre.cache_has(c as int, m, p as int),
                    Option::None => forall|t: int| 0 <= t < j ==> !pre.cache_has(c as int, m, t),
                },
            decreases n - j,
        {
            if found.is_none() {
                let child = self.nodes[c].cache[j];
                proof {
                    assert(pre.cache_wf(c as int));
                }
                if self.nodes[child].mapper == m {
                    found = Some(j);
                }
            }
            j += 1;
        }
        match found {
            Some(p) => {
                proof {
                    assert(pre.cache_has(c as int, m, p as int));
                    assert(pre.has_cached(c as int, m));
                    assert(pre.cache_wf(c as int));
                    let q = pre.cache_pos(c as int, m);
                    assert(pre.cache_has(c as int, m, q));
                    if q != p as int {
                        assert(false);
                    }
                }
                let child = self.nodes[c].cache[p];
                if self.nodes[child].strong > 0 {
                    self.bump_strong(child);
                    let r = Handle { id: child };
                    proof {
                        lemma_child_at_hit(pre, *self, c as int, m, p as int, child);
                    }
                    r
                } else {
                    let r = self.new_child(h, m);
                    let ghost mid = *self;
                    self.cache_set(c, p, r.id);
                    proof {
                        lemma_child_at_refill(pre, mid, *self, c as int, m, p as int, r);
                    }
                    r
                }
            },
            None => {
                proof {
                    if pre.has_cached(c as int, m) {
                        let q = pre.cache_pos(c as int, m);
                        assert(pre.cache_has(c as int, m, q));
                        assert(false);
                    }
                }
                let r = self.new_child(h, m);
                let ghost mid = *self;
                self.cache_push(c, r.id);
                proof {
                    lemma_child_at_fill(pre, mid, *self, c as int, m, r);
                }
                r
            },
        }
    }
}

proof fn lemma_child_at_hit(pre: Store, post: Store, c: int, m: Mapper, p: int, child: usize)
    requires
        pre.wf(),
        0 <= c < pre.nodes.len(),
        pre.cache_has(c, m, p),
        pre.cache_pos(c, m) == p,
        child == pre.nodes[c].cache@[p],
        pre.nodes[child as int].strong > 0,
        post.wf(),
        post.data == pre.data,
        post.nodes@ == pre.nodes@.update(
            child as int,
            NodeSlot { strong: bump(pre.nodes[child as int].strong), ..pre.nodes@[child as int] },
        ),
    ensures
        Store::child_at_post(pre, post, c, m, Handle { id: child }),
{
    assert(pre.cache_wf(c));
    assert(c < child as int && (child as int) < pre.nodes.len());
    crate::store::lemma_structure_same_paths(pre, post, child as int);
    crate::store::lemma_structure_same_paths(pre, post, c);
    assert(post.cache_has(c, m, p));
    let q = post.cache_pos(c, m);
    assert(post.cache_has(c, m, q));
    assert(post.cache_wf(c));
    if q != p {
        assert(false);
    }
    assert(post.path_of(child as int) == pre.path_of(c).push(m));
}

proof fn lemma_child_at_refill(
    pre: Store,
    mid: Store,
    post: Store,
    c: int,
    m: Mapper,
    p: int,
    r: Handle,
)
    requires
        pre.wf(),
        0 <= c < pre.nodes.len(),
        pre.cache_has(c, m, p),
        pre.cache_pos(c, m) == p,
        pre.nodes[pre.nodes[c].cache@[p] as int].strong == 0,
        mid.wf(),
        Store::fresh_child(pre, mid, c, m, r),
        mid.nodes[c].cache@ == pre.nodes[c].cache@,
        post.data == mid.data,
        post.nodes.len() == mid.nodes.len(),
        post.nodes[c].cache@ == mid.nodes[c].cache@.update(p, r.id),
        post.nodes[c].parent == mid.nodes[c].parent,
        post.nodes[c].mapper == mid.nodes[c].mapper,
        post.nodes[c].strong == mid.nodes[c].strong,
        post.nodes[c].version == mid.nodes[c].version,
        post.nodes[c].access == mid.nodes[c].access,
        forall|i: int| 0 <= i < mid.nodes.len() && i != c ==> post.nodes[i] == mid.nodes[i],
    ensures
        Store::child_at_post(pre, post, c, m, r),
{
    assert(pre.cache_wf(c));
    assert(crate::store::structure_same(mid, post));
    crate::store::lemma_structure_same_paths(mid, post, r.id as int);
    assert forall|i: int| 0 <= i < pre.nodes.len() implies post.path_of(i) == pre.path_of(i) by {
        crate::store::lemma_structure_same_paths(mid, post, i);
    }
    // well-formedness of the refilled cache
    assert forall|i: int| 0 <= i < post.nodes.len() implies post.cache_wf(i) by {
        if i != c {
            assert(mid.cache_wf(i));
            assert(post.nodes[i].cache@ == mid.nodes[i].cache@);
            assert forall|j: int| 0 <= j < post.nodes[i].cache@.len() implies i < (
            post.nodes[i].cache@[j] as int) < post.nodes.len() && post.nodes[post.nodes[i].cache@[j] as int].parent
                == Option::Some(i as usize) by {
                let e = post.nodes[i].cache@[j] as int;
                assert(mid.cache_has(i, mid.nodes[e].mapper, j) || true);
                if e != c {
                    assert(post.nodes[e] == mid.nodes[e]);
                }
            }
            assert forall|j1: int, j2: int|
                0 <= j1 < j2 < post.nodes[i].cache@.len() implies post.nodes[post.nodes[i].cache@[j1] as int].mapper
                != post.nodes[post.nodes[i].cache@[j2] as int].mapper by {
                let e1 = post.nodes[i].cache@[j1] as int;
                let e2 = post.nodes[i].cache@[j2] as int;
                if e1 != c && e2 != c {
                    assert(post.nodes[e1] == mid.nodes[e1]);
                    assert(post.nodes[e2] == mid.nodes[e2]);
                }
            }
        } else {
            assert(mid.cache_wf(c));
            assert forall|j: int| 0 <= j < post.nodes[c].cache@.len() implies c < (
            post.nodes[c].cache@[j] as int) < post.nodes.len() && post.nodes[post.nodes[c].cache@[j] as int].parent
                == Option::Some(c as usize) by {
                if j != p {
                    assert(post.nodes[c].cache@[j] == pre.nodes[c].cache@[j]);
                }
            }
            assert forall|j1: int, j2: int|
                0 <= j1 < j2 < post.nodes[c].cache@.len() implies post.nodes[post.nodes[c].cache@[j1] as int].mapper
                != post.nodes[post.nodes[c].cache@[j2] as int].mapper by {
                lemma_refill_unique(pre, mid, post, c, m, p, r, j1, j2);
            }
        }
    }
    assert(post.wf());
    assert(post.cache_has(c, m, p));
    let q = post.cache_pos(c, m);
    assert(post.cache_has(c, m, q));
    if q != p {
        assert(false);
    }
}

proof fn lemma_refill_unique(
    pre: Store,
    mid: Store,
    post: Store,
    c: int,
    m: Mapper,
    p: int,
    r: Handle,
    j1: int,
    j2: int,
)
    requires
        pre.wf(),
        0 <= c < pre.nodes.len(),
        pre.cache_has(c, m, p),
        mid.wf(),
        Store::fresh_child(pre, mid, c, m, r),
        mid.nodes[c].cache@ == pre.nodes[c].cache@,
        post.nodes.len() == mid.nodes.len(),
        post.nodes[c].cache@ == mid.nodes[c].cache@.update(p, r.id),
        forall|i: int| 0 <= i < mid.nodes.len() && i != c ==> post.nodes[i] == mid.nodes[i],
        post.nodes[c].mapper == mid.nodes[c].mapper,
        0 <= j1 < j2 < post.nodes[c].cache@.len(),
    ensures
        post.nodes[post.nodes[c].cache@[j1] as int].mapper != post.nodes[post.nodes[c].cache@[j2] as int].mapper,
{
    assert(pre.cache_wf(c));
    let e1 = post.nodes[c].cache@[j1] as int;
    let e2 = post.nodes[c].cache@[j2] as int;
    if j1 == p {
        // e1 is the fresh node, carrying mapper m; e2 is an old entry, and
        // the only old entry under m sat at position p
        assert(e1 == r.id as int);
        assert(post.nodes[e1].mapper == m);
        assert(e2 == pre.nodes[c].cache@[j2] as int);
        assert(e2 < pre.nodes.len());
        assert(e2 != c);
        assert(post.nodes[e2] == mid.nodes[e2]);
        assert(mid.nodes[e2] == pre.nodes[e2]);
        assert(pre.nodes[e2].mapper != m) by {
            if pre.nodes[e2].mapper == m {
                assert(pre.cache_has(c, m, j2));
                assert(pre.nodes[pre.nodes[c].cache@[p] as int].mapper != pre.nodes[pre.nodes[c].cache@[j2] as int].mapper);
            }
        }
    } else if j2 == p {
        assert(e2 == r.id as int);
        assert(post.nodes[e2].mapper == m);
        assert(e1 == pre.nodes[c].cache@[j1] as int);
        assert(e1 < pre.nodes.len());
        assert(e1 != c);
        assert(post.nodes[e1] == mid.nodes[e1]);
        assert(mid.nodes[e1] == pre.nodes[e1]);
        assert(pre.nodes[e1].mapper != m) by {
            if pre.nodes[e1].mapper == m {
                assert(pre.cache_has(c, m, j1));
                if j1 < p {
                    assert(pre.nodes[pre.nodes[c].cache@[j1] as int].mapper != pre.nodes[pre.nodes[c].cache@[p] as int].mapper);
                }
            }
        }
    } else {
        let f1 = pre.nodes[c].cache@[j1] as int;
        let f2 = pre.nodes[c].cache@[j2] as int;
        assert(e1 == f1 && e2 == f2);
        assert(f1 != c && f2 != c);
        assert(post.nodes[f1] == pre.nodes[f1]);
        assert(post.nodes[f2] == pre.nodes[f2]);
        assert(pre.nodes[f1].mapper != pre.nodes[f2].mapper);
    }
}

proof fn lemma_child_at_fill(pre: Store, mid: Store, post: Store, c: int, m: Mapper, r: Handle)
    requires
        pre.wf(),
        0 <= c < pre.nodes.len(),
        !pre.has_cached(c, m),
        mid.wf(),
        Store::fresh_child(pre, mid, c, m, r),
        mid.nodes[c].cache@ == pre.nodes[c].cache@,
        post.data == mid.data,
        post.nodes.len() == mid.nodes.len(),
        post.nodes[c].cache@ == mid.nodes[c].cache@.push(r.id),
        post.nodes[c].parent == mid.nodes[c].parent,
        post.nodes[c].mapper == mid.nodes[c].mapper,
        post.nodes[c].strong == mid.nodes[c].strong,
        post.nodes[c].version == mid.nodes[c].version,
        post.nodes[c].access == mid.nodes[c].access,
        forall|i: int| 0 <= i < mid.nodes.len() && i != c ==> post.nodes[i] == mid.nodes[i],
    ensures
        Store::child_at_post(pre, post, c, m, r),
{
    assert(pre.cache_wf(c));
    crate::store::lemma_structure_same_paths(mid, post, r.id as int);
    assert forall|i: int| 0 <= i < pre.nodes.len() implies post.path_of(i) == pre.path_of(i) by {
        crate::store::lemma_structure_same_paths(mid, post, i);
    }
    let cc = post.nodes[c].cache@;
    let p = cc.len() - 1;
    assert forall|i: int| 0 <= i < post.nodes.len() implies post.cache_wf(i) by {
        if i != c {
            assert(mid.cache_wf(i));
            assert forall|j: int| 0 <= j < post.nodes[i].cache@.len() implies i < (
            post.nodes[i].cache@[j] as int) < post.nodes.len() && post.nodes[post.nodes[i].cache@[j] as int].parent
                == Option::Some(i as usize) by {
                let e = post.nodes[i].cache@[j] as int;
                if e != c {
                    assert(post.nodes[e] == mid.nodes[e]);
                }
            }
            assert forall|j1: int, j2: int|
                0 <= j1 < j2 < post.nodes[i].cache@.len() implies post.nodes[post.nodes[i].cache@[j1] as int].mapper
                != post.nodes[post.nodes[i].cache@[j2] as int].mapper by {
                let e1 = post.nodes[i].cache@[j1] as int;
                let e2 = post.nodes[i].cache@[j2] as int;
                if e1 != c {
                    assert(post.nodes[e1] == mid.nodes[e1]);
                }
                if e2 != c {
                    assert(post.nodes[e2] == mid.nodes[e2]);
                }
                assert(mid.cache_has(i, mid.nodes[e1].mapper, j1) || true);
            }
        } else {
            assert(mid.cache_wf(c));
            assert forall|j: int| 0 <= j < cc.len() implies c < (cc[j] as int) < post.nodes.len()
                && post.nodes[cc[j] as int].parent == Option::Some(c as usize) by {
                if j < p {
                    assert(cc[j] == pre.nodes[c].cache@[j]);
                }
            }
            assert forall|j1: int, j2: int| 0 <= j1 < j2 < cc.len() implies post.nodes[cc[j1] as int].mapper
                != post.nodes[cc[j2] as int].mapper by {
                if j2 < p {
                    let f1 = pre.nodes[c].cache@[j1] as int;
                    let f2 = pre.nodes[c].cache@[j2] as int;
                    assert(f1 != c && f2 != c);
                    assert(post.nodes[f1] == pre.nodes[f1]);
                    assert(post.nodes[f2] == pre.nodes[f2]);
                    assert(pre.nodes[f1].mapper != pre.nodes[f2].mapper);
                } else {
                    // j2 is the new entry, whose mapper m no old entry holds
                    let f1 = pre.nodes[c].cache@[j1] as int;
                    assert(f1 != c);
                    assert(post.nodes[f1] == pre.nodes[f1]);
                    assert(post.nodes[cc[j2] as int].mapper == m);
                    if pre.nodes[f1].mapper == m {
                        assert(pre.cache_has(c, m, j1));
                    }
                }
            }
        }
    }
    assert(post.wf());
    assert(post.cache_has(c, m, p));
    let q = post.cache_pos(c, m);
    assert(post.cache_has(c, m, q));
    if q != p {
        assert(0 <= q < cc.len());
        assert(q < p);
        let e = cc[q] as int;
        assert(cc[q] == pre.nodes[c].cache@[q]);
        assert(c < e && e < pre.nodes.len());
        assert(post.nodes[e] == mid.nodes[e]);
        assert(mid.nodes[e] == pre.nodes[e]);
        assert(pre.cache_has(c, m, q));
        assert(false);
    }
}

} // verus!
