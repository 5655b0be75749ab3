//! The store: sole owner of the value tree and of the arena of tracked
//! nodes.

use vstd::prelude::*;
use vstd::pervasive::VecAdditionalExecFns;

use crate::mapper::Mapper;
use crate::node::{bump, dec, AccessState, NodeSlot};
use crate::value::{VData, Value};

verus! {

/// Owning access to one tracked node. A handle is handed out by the store,
/// duplicated only through [`Store::clone_handle`], and given back through
/// [`Store::drop_handle`]; while at least one handle on a node is out, the
/// node counts as live and the handle cache keeps returning it.
#[derive(Debug)]
pub struct Handle {
    pub id: usize,
}

/// The store. `data` is the root of the value tree; `nodes` is the arena of
/// tracked nodes, rooted at slot zero. Children are always created after
/// their parent, so every parent index is smaller than the child's own.
#[derive(Debug)]
pub struct Store {
    pub data: Value,
    pub nodes: Vec<NodeSlot>,
}

/// What resolving the rest of a path, from segment `i` on, yields on `v`.
pub open spec fn resolve_from(v: VData, path: Seq<Mapper>, i: int) -> Option<VData>
    decreases path.len() - i,
{
    if i < 0 || i > path.len() {
        Option::None
    } else if i == path.len() {
        Option::Some(v)
    } else {
        match path[i].apply(v) {
            Option::Some(c) => resolve_from(c, path, i + 1),
            Option::None => Option::None,
        }
    }
}

impl Store {
    /// A node index that points into the arena.
    pub open spec fn valid(self, id: int) -> bool {
        0 <= id < self.nodes.len()
    }

    /// Well-formedness: slot zero is the root (no parent, identity mapper),
    /// every other node's parent comes before it, and each cache holds only
    /// children of its node, at most one per mapper.
    pub open spec fn wf(self) -> bool {
        &&& self.nodes.len() >= 1
        &&& self.nodes[0].parent is None
        &&& self.nodes[0].mapper == Mapper::Identity
        &&& forall|i: int|
            1 <= i < self.nodes.len() ==> ((#[trigger] self.nodes[i].parent) matches Option::Some(p)
                && (p as int) < i)
        &&& forall|i: int| 0 <= i < self.nodes.len() ==> self.cache_wf(i)
    }

    /// The cache of node `i` holds children of `i` (so always nodes created
    /// after it), no two of them under the same mapper.
    pub open spec fn cache_wf(self, i: int) -> bool {
        let c = self.nodes[i].cache@;
        &&& forall|j: int|
            0 <= j < c.len() ==> i < (#[trigger] c[j] as int) < self.nodes.len()
                && self.nodes[c[j] as int].parent == Option::Some(i as usize)
        &&& forall|j1: int, j2: int|
            0 <= j1 < j2 < c.len() ==> self.nodes[#[trigger] c[j1] as int].mapper
                != self.nodes[#[trigger] c[j2] as int].mapper
    }

    /// The path from the root down to node `id`: each ancestor's mapper in
    /// order, the root's identity mapper first.
    pub open spec fn path_of(self, id: int) -> Seq<Mapper>
        decreases (if id >= 0 { id } else { 0 }),
    {
        if 0 <= id < self.nodes.len() {
            match self.nodes[id].parent {
                Option::Some(p) => if (p as int) < id {
                    self.path_of(p as int).push(self.nodes[id].mapper)
                } else {
                    seq![self.nodes[id].mapper]
                },
                Option::None => seq![self.nodes[id].mapper],
            }
        } else {
            Seq::empty()
        }
    }

    /// Whether node `a` lies on the ancestor chain of node `id` (the chain
    /// includes `id` itself and ends at the root).
    pub open spec fn on_chain(self, a: int, id: int) -> bool
        decreases (if id >= 0 { id } else { 0 }),
    {
        0 <= id < self.nodes.len() && (a == id || match self.nodes[id].parent {
            Option::Some(p) => (p as int) < id && self.on_chain(a, p as int),
            Option::None => false,
        })
    }

    /// What the tree holds at node `id`'s path, or absence when some entry
    /// along it is gone.
    pub open spec fn view_at(self, id: int) -> Option<VData> {
        resolve_from(self.data@, self.path_of(id), 0)
    }

    /// No node on the chain of `id` is exclusively borrowed, so read access
    /// can be granted.
    pub open spec fn read_ok(self, id: int) -> bool {
        forall|a: int| self.on_chain(a, id) ==> !((#[trigger] self.nodes[a].access) is Excl)
    }

    /// Every node on the chain of `id` is free, so exclusive access can be
    /// granted.
    pub open spec fn chain_free(self, id: int) -> bool {
        forall|a: int| self.on_chain(a, id) ==> (#[trigger] self.nodes[a].access) is Free
    }

    /// Every node on the chain of `id` is shared, as after a granted shared
    /// acquisition.
    pub open spec fn chain_shared(self, id: int) -> bool {
        forall|a: int| self.on_chain(a, id) ==> (#[trigger] self.nodes[a].access) is Shared
    }
}

/// Both stores have the same arena shape: equally many nodes, with the same
/// parents and mappers. Paths and chains then coincide.
pub open spec fn structure_same(pre: Store, post: Store) -> bool {
    &&& post.nodes.len() == pre.nodes.len()
    &&& forall|i: int|
        0 <= i < pre.nodes.len() ==> (#[trigger] post.nodes[i]).parent == pre.nodes[i].parent
            && post.nodes[i].mapper == pre.nodes[i].mapper
}

/// Paths and chains depend only on the arena shape.
pub proof fn lemma_structure_same_paths(pre: Store, post: Store, id: int)
    requires
        structure_same(pre, post),
    ensures
        post.path_of(id) == pre.path_of(id),
        forall|a: int| post.on_chain(a, id) == pre.on_chain(a, id),
    decreases (if id >= 0 { id } else { 0 }),
{
    if 0 <= id < pre.nodes.len() {
        assert(post.nodes[id].parent == pre.nodes[id].parent);
        assert(post.nodes[id].mapper == pre.nodes[id].mapper);
        match pre.nodes[id].parent {
            Option::Some(p) => {
                if (p as int) < id {
                    lemma_structure_same_paths(pre, post, p as int);
                }
            },
            Option::None => {},
        }
        assert forall|a: int| post.on_chain(a, id) == pre.on_chain(a, id) by {
            match pre.nodes[id].parent {
                Option::Some(p) => {
                    if (p as int) < id {
                        assert(post.on_chain(a, p as int) == pre.on_chain(a, p as int));
                    }
                },
                Option::None => {},
            }
        }
    } else {
        assert(post.path_of(id) == pre.path_of(id));
        assert(forall|a: int| !post.on_chain(a, id) && !pre.on_chain(a, id));
    }
}

/// Paths and chains of existing nodes survive appending new nodes, as long
/// as the old ones keep their parents and mappers.
pub proof fn lemma_extend_same_paths(pre: Store, post: Store, id: int)
    requires
        post.nodes.len() >= pre.nodes.len(),
        forall|i: int|
            0 <= i < pre.nodes.len() ==> (#[trigger] post.nodes[i]).parent == pre.nodes[i].parent
                && post.nodes[i].mapper == pre.nodes[i].mapper,
        0 <= id < pre.nodes.len(),
    ensures
        post.path_of(id) == pre.path_of(id),
        forall|a: int| post.on_chain(a, id) == pre.on_chain(a, id),
    decreases id,
{
    assert(post.nodes[id].parent == pre.nodes[id].parent);
    assert(post.nodes[id].mapper == pre.nodes[id].mapper);
    match pre.nodes[id].parent {
        Option::Some(p) => {
            if (p as int) < id {
                lemma_extend_same_paths(pre, post, p as int);
            }
        },
        Option::None => {},
    }
    assert forall|a: int| post.on_chain(a, id) == pre.on_chain(a, id) by {
        match pre.nodes[id].parent {
            Option::Some(p) => {
                if (p as int) < id {
                    assert(post.on_chain(a, p as int) == pre.on_chain(a, p as int));
                }
            },
            Option::None => {},
        }
    }
}

/// Well-formedness carries over when the shape and the caches are the same.
pub proof fn lemma_wf_same(pre: Store, post: Store)
    requires
        pre.wf(),
        structure_same(pre, post),
        forall|i: int|
            0 <= i < pre.nodes.len() ==> (#[trigger] post.nodes[i]).cache@ == pre.nodes[i].cache@,
    ensures
        post.wf(),
{
    assert forall|i: int| 0 <= i < post.nodes.len() implies post.cache_wf(i) by {
        assert(pre.cache_wf(i));
    }
}

/// Everything on a chain is a valid node no later than the chain's end.
pub proof fn lemma_on_chain_bounds(s: Store, a: int, id: int)
    requires
        s.on_chain(a, id),
    ensures
        0 <= a <= id,
        s.valid(a),
        s.valid(id),
    decreases (if id >= 0 { id } else { 0 }),
{
    if a != id {
        match s.nodes[id].parent {
            Option::Some(p) => {
                lemma_on_chain_bounds(s, a, p as int);
            },
            Option::None => {},
        }
    }
}

/// The root lies on every chain.
pub proof fn lemma_root_on_chain(s: Store, id: int)
    requires
        s.wf(),
        s.valid(id),
    ensures
        s.on_chain(0, id),
    decreases id,
{
    if id > 0 {
        match s.nodes[id].parent {
            Option::Some(p) => {
                lemma_root_on_chain(s, p as int);
            },
            Option::None => {},
        }
    }
}

/// Removing an element and putting another back in its place is a plain
/// in-place update.
pub proof fn lemma_remove_insert<T>(s: Seq<T>, i: int, x: T)
    requires
        0 <= i < s.len(),
    ensures
        s.remove(i).insert(i, x) == s.update(i, x),
{
    assert(s.remove(i).insert(i, x) =~= s.update(i, x));
}

impl Store {
    /// Creates the store around an initial value tree: the root node has no
    /// parent, carries the identity mapper, and always resolves.
    pub fn create(initial: Value) -> (s: Store)
        ensures
            s.wf(),
            s.data == initial,
            s.nodes.len() == 1,
            s.nodes[0].parent is None,
            s.nodes[0].mapper == Mapper::Identity,
            s.nodes[0].strong == 0,
            s.nodes[0].version == 0,
            s.nodes[0].access is Free,
            s.nodes[0].cache@ == Seq::<usize>::empty(),
            s.view_at(0) == Option::Some(initial@),
    {
        let mut nodes: Vec<NodeSlot> = Vec::new();
        nodes.push(
            NodeSlot {
                parent: None,
                mapper: Mapper::Identity,
                strong: 0,
                version: 0,
                access: AccessState::Free,
                cache: Vec::new(),
            },
        );
        let s = Store { data: initial, nodes };
        proof {
            assert(s.path_of(0) == seq![Mapper::Identity]);
            assert(s.view_at(0) == Option::Some(s.data@)) by {
                reveal_with_fuel(resolve_from, 3);
            }
        }
        s
    }

    /// A fresh handle on the root node.
    pub fn root(&mut self) -> (h: Handle)
        requires
            old(self).wf(),
        ensures
            final(self).wf(),
            h.id == 0,
            final(self).data == old(self).data,
            final(self).nodes@ == old(self).nodes@.update(
                0,
                NodeSlot { strong: bump(old(self).nodes[0].strong), ..old(self).nodes@[0] },
            ),
    {
        self.bump_strong(0);
        Handle { id: 0 }
    }

    /// A second handle on the same node; the node's strong count grows.
    pub fn clone_handle(&mut self, h: &Handle) -> (r: Handle)
        requires
            old(self).wf(),
            old(self).valid(h.id as int),
        ensures
            final(self).wf(),
            r.id == h.id,
            final(self).data == old(self).data,
            final(self).nodes@ == old(self).nodes@.update(
                h.id as int,
                NodeSlot {
                    strong: bump(old(self).nodes[h.id as int].strong),
                    ..old(self).nodes@[h.id as int]
                },
            ),
    {
        self.bump_strong(h.id);
        Handle { id: h.id }
    }

    /// Gives a handle back. When the last handle on a node is gone its
    /// strong count reaches zero and cached references to it are dead.
    pub fn drop_handle(&mut self, h: Handle) -> (r: ())
        requires
            old(self).wf(),
            old(self).valid(h.id as int),
        ensures
            final(self).wf(),
            final(self).data == old(self).data,
            final(self).nodes@ == old(self).nodes@.update(
                h.id as int,
                NodeSlot {
                    strong: dec(old(self).nodes[h.id as int].strong),
                    ..old(self).nodes@[h.id as int]
                },
            ),
    {
        let i = h.id;
        let old_strong = self.nodes[i].strong;
        let next = if old_strong == 0 {
            0
        } else {
            old_strong - 1
        };
        self.set_strong(i, next);
    }

    /// The version counter of a node, for observers to poll: upward
    /// invalidation bumps it on the whole chain.
    pub fn version_of(&self, h: &Handle) -> (r: u64)
        requires
            self.valid(h.id as int),
        ensures
            r == self.nodes[h.id as int].version,
    {
        self.nodes[h.id].version
    }

    /// The strong count of a node: how many handles on it are out.
    pub fn strong_of(&self, h: &Handle) -> (r: u64)
        requires
            self.valid(h.id as int),
        ensures
            r == self.nodes[h.id as int].strong,
    {
        self.nodes[h.id].strong
    }

    /// Replaces one arena slot.
    pub(crate) fn replace_slot(&mut self, i: usize, slot: NodeSlot)
        requires
            i < old(self).nodes.len(),
        ensures
            final(self).nodes@ == old(self).nodes@.update(i as int, slot),
            final(self).data == old(self).data,
    {
        let mut s = slot;
        self.nodes.set_and_swap(i, &mut s);
    }

    pub(crate) fn bump_strong(&mut self, i: usize)
        requires
            old(self).wf(),
            i < old(self).nodes.len(),
        ensures
            final(self).wf(),
            final(self).data == old(self).data,
            final(self).nodes@ == old(self).nodes@.update(
                i as int,
                NodeSlot { strong: bump(old(self).nodes[i as int].strong), ..old(self).nodes@[i as int] },
            ),
    {
        let old_strong = self.nodes[i].strong;
        let next = if old_strong == u64::MAX {
            old_strong
        } else {
            old_strong + 1
        };
        self.set_strong(i, next);
    }

    fn set_strong(&mut self, i: usize, strong: u64)
        requires
            old(self).wf(),
            i < old(self).nodes.len(),
        ensures
            final(self).wf(),
            final(self).data == old(self).data,
            final(self).nodes@ == old(self).nodes@.update(
                i as int,
                NodeSlot { strong, ..old(self).nodes@[i as int] },
            ),
    {
        let mut slot = self.nodes.remove(i);
        slot.strong = strong;
        self.nodes.insert(i, slot);
        proof {
            lemma_remove_insert(
                old(self).nodes@,
                i as int,
                NodeSlot { strong, ..old(self).nodes@[i as int] },
            );
            assert(self.nodes@ =~= old(self).nodes@.update(
                i as int,
                NodeSlot { strong, ..old(self).nodes@[i as int] },
            ));
            assert(structure_same(*old(self), *self));
            lemma_wf_same(*old(self), *self);
        }
    }
}

} // verus!
