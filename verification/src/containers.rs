//! Tracked container nodes: the sequence and mapping proxies, and the leaf.

use vstd::prelude::*;

use crate::invalidate::{invalidated_down, live_filter, non_cache_same};
use crate::mapper::{opt_ref_view, Mapper, MapperHashMap, MapperVec};
use crate::node::BorrowConflict;
use crate::store::{lemma_structure_same_paths, structure_same, Handle, Store};
use crate::value::{dict_find, dict_put, dict_remove, find_key, VData, Value};
use crate::write::{lemma_write_resolve, lemma_write_unmutated, op_view, opt_val_view, vnext,
    WriteOp};

verus! {

/// Nothing observable moved: the arena is as it was and the tree reads the
/// same.
pub open spec fn untouched(pre: Store, post: Store) -> bool {
    &&& post.nodes@ == pre.nodes@
    &&& post.data@ == pre.data@
}

/// The net effect of a granted removal through container node `node` under
/// mapper `m` (the removed key): the chain's versions move once, strong
/// counts and access states hold still, the container's own cache entry
/// stays where it is, the live cached child for the removed key — exactly
/// that one — has been invalidated downward through its whole live subtree,
/// and caches elsewhere are at most compacted to their live entries.
pub open spec fn removed_post(pre: Store, post: Store, node: int, m: Mapper) -> bool {
    &&& structure_same(pre, post)
    &&& forall|i: int|
        0 <= i < pre.nodes.len() ==> {
            let n = #[trigger] post.nodes[i];
            &&& n.strong == pre.nodes[i].strong
            &&& n.access == pre.nodes[i].access
            &&& n.version == if pre.on_chain(i, node) {
                vnext(pre.nodes[i].version)
            } else {
                pre.nodes[i].version
            }
        }
    &&& post.nodes[node].cache@ == pre.nodes[node].cache@
    &&& forall|i: int|
        0 <= i < pre.nodes.len() ==> (#[trigger] post.nodes[i]).cache@ == pre.nodes[i].cache@
            || post.nodes[i].cache@ == live_filter(pre.nodes@, pre.nodes[i].cache@)
    &&& match pre.cached_child(node, m) {
        Option::Some(j) => pre.nodes[j].strong > 0 ==> crate::invalidate::deep_compacted(
            pre,
            post,
            j,
        ),
        Option::None => true,
    }
}

/// The net effect of a granted insertion through container node `node`: the
/// chain's versions move once and nothing else in the arena does.
pub open spec fn inserted_post(pre: Store, post: Store, node: int) -> bool {
    Store::chain_versions_bumped(pre, post, node)
}

/// A tracked sequence node: a proxy for one position in the tree whose value
/// is an ordered sequence. It owns the handle on its own incoming edge.
#[allow(non_camel_case_types)]
#[derive(Debug)]
pub struct XBowTracked_Vec {
    pub incoming_edge: Handle,
}

impl XBowTracked_Vec {
    /// The arena index of the container's own node.
    pub open spec fn node(self) -> int {
        self.incoming_edge.id as int
    }

    pub fn new(edge: Handle) -> (r: XBowTracked_Vec)
        ensures
            r.incoming_edge == edge,
    {
        XBowTracked_Vec { incoming_edge: edge }
    }

    /// Materializes a fresh child node for one position, without caching it:
    /// the container's cache does not move. A node minted here lives beside
    /// any cached one — the at-most-one-node-per-key guarantee is about the
    /// cache, so identity-sharing callers go through [`Self::handle_at`].
    pub fn create_item(&self, store: &mut Store, index: usize) -> (r: Handle)
        requires
            old(store).wf(),
            old(store).valid(self.node()),
        ensures
            final(store).wf(),
            Store::fresh_child(*old(store), *final(store), self.node(), Mapper::Index(index), r),
            final(store).nodes[self.node()].cache@ == old(store).nodes[self.node()].cache@,
    {
        let m = MapperVec::new(index);
        store.new_child(&self.incoming_edge, m.as_mapper())
    }

    /// The child handle for one position: the cached node when it is still
    /// live — identity-preserving, so every caller coordinates through the
    /// same object — or a freshly created and cached one.
    pub fn handle_at(&self, store: &mut Store, index: usize) -> (r: Handle)
        requires
            old(store).wf(),
            old(store).valid(self.node()),
        ensures
            Store::child_at_post(*old(store), *final(store), self.node(), Mapper::Index(index), r),
    {
        let m = MapperVec::new(index);
        store.child_at(&self.incoming_edge, m.as_mapper())
    }

    /// Reads the whole sequence value this node stands for.
    pub fn borrow<'a>(&self, store: &'a Store) -> (r: Result<Option<&'a Value>, BorrowConflict>)
        requires
            store.wf(),
            store.valid(self.node()),
        ensures
            match r {
                Result::Ok(opt) => store.read_ok(self.node()) && opt_ref_view(opt)
                    == store.view_at(self.node()),
                Result::Err(_) => !store.read_ok(self.node()),
            },
    {
        store.borrow(&self.incoming_edge)
    }

    /// Compacts this node's cache to its live entries, each surviving child
    /// invalidated downward first.
    pub fn invalidate_outside_down(&self, store: &mut Store)
        requires
            old(store).wf(),
            old(store).valid(self.node()),
        ensures
            final(store).wf(),
            invalidated_down(*old(store), *final(store), self.node()),
    {
        store.invalidate_outside_down(&self.incoming_edge);
    }

    /// Splices `value` in at `index`, shifting what follows. Cached child
    /// handles are deliberately not re-keyed: a handle for a position keeps
    /// resolving to whatever occupies that position afterwards. Reports
    /// whether anything changed; a position past the end, or a node that no
    /// longer holds a sequence, changes nothing.
    pub fn insert_at(&self, store: &mut Store, index: usize, value: Value) -> (r: Result<
        bool,
        BorrowConflict,
    >)
        requires
            old(store).wf(),
            old(store).valid(self.node()),
        ensures
            final(store).wf(),
            match r {
                Result::Err(_) => !old(store).chain_free(self.node()) && *final(store) == *old(
                    store,
                ),
                Result::Ok(did) => old(store).chain_free(self.node()) && match old(store).view_at(
                    self.node(),
                ) {
                    Option::Some(t) => match t {
                        VData::List(s) => if index <= s.len() {
                            &&& did
                            &&& final(store).view_at(self.node()) == Option::Some(
                                VData::List(s.insert(index as int, value@)),
                            )
                            &&& inserted_post(*old(store), *final(store), self.node())
                        } else {
                            !did && untouched(*old(store), *final(store))
                        },
                        _ => !did && untouched(*old(store), *final(store)),
                    },
                    Option::None => !did && untouched(*old(store), *final(store)),
                },
            },
    {
        let ghost pre = *store;
        let ghost node = self.node();
        let r0 = store.mutate(&self.incoming_edge, WriteOp::ListInsert(index, value));
        match r0 {
            Err(e) => Err(e),
            Ok((mutated, _out)) => {
                proof {
                    let path = pre.path_of(node);
                    let op = op_view(WriteOp::ListInsert(index, value));
                    lemma_write_resolve(pre.data@, path, 0, op);
                    lemma_write_unmutated(pre.data@, path, 0, op);
                    if mutated {
                        lemma_structure_same_paths(pre, *store, node);
                    }
                }
                Ok(mutated)
            },
        }
    }

    /// Removes the element at `index`, yielding it. The positions above it
    /// shift down, and cached handles are not re-keyed: a handle for a
    /// higher position now resolves to the element that slid into its slot.
    /// The cache entry for `index` itself, when still live, is invalidated
    /// downward, as after any removal. An index past the end, or a node that
    /// no longer holds a sequence, yields absence and changes nothing.
    pub fn remove_at(&self, store: &mut Store, index: usize) -> (r: Result<
        Option<Value>,
        BorrowConflict,
    >)
        requires
            old(store).wf(),
            old(store).valid(self.node()),
        ensures
            final(store).wf(),
            match r {
                Result::Err(_) => !old(store).chain_free(self.node()) && *final(store) == *old(
                    store,
                ),
                Result::Ok(out) => old(store).chain_free(self.node()) && match old(store).view_at(
                    self.node(),
                ) {
                    Option::Some(t) => match t {
                        VData::List(s) => if (index as int) < s.len() {
                            &&& opt_val_view(out) == Option::Some(s[index as int])
                            &&& final(store).view_at(self.node()) == Option::Some(
                                VData::List(s.remove(index as int)),
                            )
                            &&& removed_post(*old(store), *final(store), self.node(), Mapper::Index(index))
                        } else {
                            out is None && untouched(*old(store), *final(store))
                        },
                        _ => out is None && untouched(*old(store), *final(store)),
                    },
                    Option::None => out is None && untouched(*old(store), *final(store)),
                },
            },
    {
        let ghost pre = *store;
        let ghost node = self.node();
        let r = remove_through(
            store,
            &self.incoming_edge,
            WriteOp::ListRemove(index),
            Mapper::Index(index),
        );
        proof {
            let op = op_view(WriteOp::ListRemove(index));
            let path = pre.path_of(node);
            lemma_write_resolve(pre.data@, path, 0, op);
            lemma_write_unmutated(pre.data@, path, 0, op);
        }
        r
    }
}

/// A tracked mapping node: a proxy for one position in the tree whose value
/// is a key-to-value mapping. It owns the handle on its own incoming edge.
#[allow(non_camel_case_types)]
#[derive(Debug)]
pub struct XBowTracked_HashMap {
    pub incoming_edge: Handle,
}

impl XBowTracked_HashMap {
    /// The arena index of the container's own node.
    pub open spec fn node(self) -> int {
        self.incoming_edge.id as int
    }

    pub fn new(edge: Handle) -> (r: XBowTracked_HashMap)
        ensures
            r.incoming_edge == edge,
    {
        XBowTracked_HashMap { incoming_edge: edge }
    }

    /// Materializes a fresh child node for one key, without caching it: the
    /// container's cache does not move. A node minted here lives beside any
    /// cached one — the at-most-one-node-per-key guarantee is about the
    /// cache, so identity-sharing callers go through [`Self::handle_at`].
    pub fn create_item(&self, store: &mut Store, key: u64) -> (r: Handle)
        requires
            old(store).wf(),
            old(store).valid(self.node()),
        ensures
            final(store).wf(),
            Store::fresh_child(*old(store), *final(store), self.node(), Mapper::Key(key), r),
            final(store).nodes[self.node()].cache@ == old(store).nodes[self.node()].cache@,
    {
        let m = MapperHashMap::new(key);
        store.new_child(&self.incoming_edge, m.as_mapper())
    }

    /// The child handle for one key: the cached node when it is still live —
    /// identity-preserving — or a freshly created and cached one.
    pub fn handle_at(&self, store: &mut Store, key: u64) -> (r: Handle)
        requires
            old(store).wf(),
            old(store).valid(self.node()),
        ensures
            Store::child_at_post(*old(store), *final(store), self.node(), Mapper::Key(key), r),
    {
        let m = MapperHashMap::new(key);
        store.child_at(&self.incoming_edge, m.as_mapper())
    }

    /// Reads the whole mapping value this node stands for.
    pub fn borrow<'a>(&self, store: &'a Store) -> (r: Result<Option<&'a Value>, BorrowConflict>)
        requires
            store.wf(),
            store.valid(self.node()),
        ensures
            match r {
                Result::Ok(opt) => store.read_ok(self.node()) && opt_ref_view(opt)
                    == store.view_at(self.node()),
                Result::Err(_) => !store.read_ok(self.node()),
            },
    {
        store.borrow(&self.incoming_edge)
    }

    /// Compacts this node's cache to its live entries, each surviving child
    /// invalidated downward first.
    pub fn invalidate_outside_down(&self, store: &mut Store)
        requires
            old(store).wf(),
            old(store).valid(self.node()),
        ensures
            final(store).wf(),
            invalidated_down(*old(store), *final(store), self.node()),
    {
        store.invalidate_outside_down(&self.incoming_edge);
    }

    /// Binds `key` to `value`, yielding the value previously bound, and
    /// invalidates upward: every observer on the chain sees a new version
    /// before the call returns. A node that no longer holds a mapping (or
    /// whose entry is gone) yields absence and changes nothing.
    pub fn insert(&self, store: &mut Store, key: u64, value: Value) -> (r: Result<
        Option<Value>,
        BorrowConflict,
    >)
        requires
            old(store).wf(),
            old(store).valid(self.node()),
        ensures
            final(store).wf(),
            match r {
                Result::Err(_) => !old(store).chain_free(self.node()) && *final(store) == *old(
                    store,
                ),
                Result::Ok(prev) => old(store).chain_free(self.node()) && match old(store).view_at(
                    self.node(),
                ) {
                    Option::Some(t) => match t {
                        VData::Dict(d) => {
                            &&& opt_val_view(prev) == dict_find(d, key)
                            &&& final(store).view_at(self.node()) == Option::Some(
                                VData::Dict(dict_put(d, key, value@)),
                            )
                            &&& inserted_post(*old(store), *final(store), self.node())
                        },
                        _ => prev is None && untouched(*old(store), *final(store)),
                    },
                    Option::None => prev is None && untouched(*old(store), *final(store)),
                },
            },
    {
        let ghost pre = *store;
        let ghost node = self.node();
        let r0 = store.mutate(&self.incoming_edge, WriteOp::DictInsert(key, value));
        match r0 {
            Err(e) => Err(e),
            Ok((mutated, prev)) => {
                proof {
                    let path = pre.path_of(node);
                    let op = op_view(WriteOp::DictInsert(key, value));
                    lemma_write_resolve(pre.data@, path, 0, op);
                    lemma_write_unmutated(pre.data@, path, 0, op);
                    if mutated {
                        lemma_structure_same_paths(pre, *store, node);
                    }
                }
                Ok(prev)
            },
        }
    }

    /// Drops `key`, yielding the removed value, invalidates upward, and then
    /// tells the live cached handle for `key` — exactly that one — to
    /// invalidate downward. Removing an absent key yields absence and
    /// triggers no invalidation at all.
    pub fn remove(&self, store: &mut Store, key: u64) -> (r: Result<
        Option<Value>,
        BorrowConflict,
    >)
        requires
            old(store).wf(),
            old(store).valid(self.node()),
        ensures
            final(store).wf(),
            match r {
                Result::Err(_) => !old(store).chain_free(self.node()) && *final(store) == *old(
                    store,
                ),
                Result::Ok(out) => old(store).chain_free(self.node()) && match old(store).view_at(
                    self.node(),
                ) {
                    Option::Some(t) => match t {
                        VData::Dict(d) => if find_key(d, key) < d.len() {
                            &&& opt_val_view(out) == Option::Some(d[find_key(d, key)].1)
                            &&& final(store).view_at(self.node()) == Option::Some(
                                VData::Dict(dict_remove(d, key)),
                            )
                            &&& removed_post(*old(store), *final(store), self.node(), Mapper::Key(key))
                        } else {
                            out is None && untouched(*old(store), *final(store))
                        },
                        _ => out is None && untouched(*old(store), *final(store)),
                    },
                    Option::None => out is None && untouched(*old(store), *final(store)),
                },
            },
    {
        let ghost pre = *store;
        let ghost node = self.node();
        let r = remove_through(
            store,
            &self.incoming_edge,
            WriteOp::DictRemove(key),
            Mapper::Key(key),
        );
        proof {
            let op = op_view(WriteOp::DictRemove(key));
            let path = pre.path_of(node);
            lemma_write_resolve(pre.data@, path, 0, op);
            lemma_write_unmutated(pre.data@, path, 0, op);
        }
        r
    }
}

/// A tracked leaf node: a scalar with no children, so it only delegates
/// fallible reads and writes to its edge and holds no cache.
#[derive(Debug)]
pub struct XBowLeaf {
    pub incoming_edge: Handle,
}

impl XBowLeaf {
    /// The arena index of the leaf's own node.
    pub open spec fn node(self) -> int {
        self.incoming_edge.id as int
    }

    pub fn new(edge: Handle) -> (r: XBowLeaf)
        ensures
            r.incoming_edge == edge,
    {
        XBowLeaf { incoming_edge: edge }
    }

    /// Reads the leaf's value through the whole ancestor chain.
    pub fn borrow<'a>(&self, store: &'a Store) -> (r: Result<Option<&'a Value>, BorrowConflict>)
        requires
            store.wf(),
            store.valid(self.node()),
        ensures
            match r {
                Result::Ok(opt) => store.read_ok(self.node()) && opt_ref_view(opt)
                    == store.view_at(self.node()),
                Result::Err(_) => !store.read_ok(self.node()),
            },
    {
        store.borrow(&self.incoming_edge)
    }

    /// Replaces the leaf's value, yielding the one before, and invalidates
    /// upward. A leaf whose backing entry is gone yields absence and changes
    /// nothing: a stale handle stays safely inert.
    pub fn set(&self, store: &mut Store, value: Value) -> (r: Result<
        Option<Value>,
        BorrowConflict,
    >)
        requires
            old(store).wf(),
            old(store).valid(self.node()),
        ensures
            final(store).wf(),
            match r {
                Result::Err(_) => !old(store).chain_free(self.node()) && *final(store) == *old(
                    store,
                ),
                Result::Ok(prev) => old(store).chain_free(self.node()) && match old(store).view_at(
                    self.node(),
                ) {
                    Option::Some(t) => {
                        &&& opt_val_view(prev) == Option::Some(t)
                        &&& final(store).view_at(self.node()) == Option::Some(value@)
                        &&& Store::chain_versions_bumped(*old(store), *final(store), self.node())
                    },
                    Option::None => prev is None && untouched(*old(store), *final(store)),
                },
            },
    {
        let ghost pre = *store;
        let ghost node = self.node();
        let r0 = store.mutate(&self.incoming_edge, WriteOp::Replace(value));
        match r0 {
            Err(e) => Err(e),
            Ok((mutated, prev)) => {
                proof {
                    let path = pre.path_of(node);
                    let op = op_view(WriteOp::Replace(value));
                    lemma_write_resolve(pre.data@, path, 0, op);
                    lemma_write_unmutated(pre.data@, path, 0, op);
                    if mutated {
                        lemma_structure_same_paths(pre, *store, node);
                    }
                }
                Ok(prev)
            },
        }
    }

    /// Downward invalidation on a leaf is a no-op: it has no children to
    /// cache, and a later borrow re-evaluates presence by itself.
    pub fn invalidate_outside_down(&self, store: &mut Store)
        requires
            old(store).wf(),
        ensures
            final(store).wf(),
            *final(store) == *old(store),
    {
    }
}

/// A removal through a container node: the write itself, upward
/// invalidation (inside the write), then downward invalidation of the cache
/// entry that backed the removed key.
fn remove_through(store: &mut Store, edge: &Handle, op: WriteOp, m: Mapper) -> (r: Result<
    Option<Value>,
    BorrowConflict,
>)
    requires
        old(store).wf(),
        old(store).valid(edge.id as int),
        (op matches WriteOp::DictRemove(k) && m == Mapper::Key(k)) || (op matches
            WriteOp::ListRemove(i) && m == Mapper::Index(i)),
    ensures
        final(store).wf(),
        ({
            let node = edge.id as int;
            match r {
                Result::Err(_) => !old(store).chain_free(node) && *final(store) == *old(store),
                Result::Ok(out) => {
                    let w = crate::write::write_from(
                        old(store).data@,
                        old(store).path_of(node),
                        0,
                        op_view(op),
                    );
                    &&& old(store).chain_free(node)
                    &&& opt_val_view(out) == w.out
                    &&& final(store).data@ == w.tree
                    &&& final(store).path_of(node) == old(store).path_of(node)
                    &&& if w.mutated {
                        removed_post(*old(store), *final(store), node, m)
                    } else {
                        final(store).nodes@ == old(store).nodes@
                    }
                },
            }
        }),
{
    let ghost pre = *store;
    let ghost node = edge.id as int;
    let r0 = store.mutate(edge, op);
    match r0 {
        Err(e) => Err(e),
        Ok((mutated, out)) => {
            let ghost mid = *store;
            proof {
                if mutated {
                    assert(structure_same(pre, mid));
                    lemma_structure_same_paths(pre, mid, node);
                } else {
                    assert(mid.nodes@ == pre.nodes@);
                    assert(structure_same(pre, mid));
                    lemma_structure_same_paths(pre, mid, node);
                }
            }
            if mutated {
                store.invalidate_removed_child(edge, m);
                proof {
                    assert(structure_same(mid, *store)) by {
                        match mid.cached_child(node, m) {
                            Option::Some(j) => {
                                if mid.nodes[j].strong > 0 {
                                    assert(non_cache_same(mid, *store));
                                }
                            },
                            Option::None => {},
                        }
                    }
                    lemma_structure_same_paths(mid, *store, node);
                    lemma_removed_compose(pre, mid, *store, node, m);
                    match mid.cached_child(node, m) {
                        Option::Some(j) => {
                            if mid.nodes[j].strong > 0 {
                                assert(store.data@ == mid.data@);
                            }
                        },
                        Option::None => {},
                    }
                }
            }
            Ok(out)
        },
    }
}

/// Composes upward invalidation with the downward one that follows it into
/// the net effect of a removal.
proof fn lemma_removed_compose(pre: Store, mid: Store, post: Store, node: int, m: Mapper)
    requires
        pre.wf(),
        mid.wf(),
        post.wf(),
        0 <= node < pre.nodes.len(),
        Store::chain_versions_bumped(pre, mid, node),
        match mid.cached_child(node, m) {
            Option::Some(j) => if mid.nodes[j].strong > 0 {
                invalidated_down(mid, post, j)
            } else {
                post == mid
            },
            Option::None => post == mid,
        },
    ensures
        removed_post(pre, post, node, m),
        post.data@ == mid.data@,
{
    lemma_structure_same_paths(pre, mid, node);
    match mid.cached_child(node, m) {
        Option::Some(j) => {
            if mid.nodes[j].strong > 0 {
                // the invalidated child sits in node's cache, so it comes
                // after it, and node's own cache entry stays put
                assert(mid.has_cached(node, m));
                let q = mid.cache_pos(node, m);
                assert(mid.cache_has(node, m, q));
                assert(mid.cache_wf(node));
                assert(node < j);
                assert(j < mid.nodes.len());
                assert forall|i: int|
                    0 <= i < pre.nodes.len() implies (#[trigger] post.nodes[i]).cache@
                    == pre.nodes[i].cache@ || post.nodes[i].cache@ == live_filter(
                    pre.nodes@,
                    pre.nodes[i].cache@,
                ) by {
                    assert(mid.nodes[i].cache@ == pre.nodes[i].cache@);
                    if post.nodes[i].cache@ == mid.nodes[i].cache@ {
                    } else {
                        assert(post.nodes[i].cache@ == live_filter(mid.nodes@, mid.nodes[i].cache@));
                        crate::invalidate::lemma_live_filter_strong(
                            pre.nodes@,
                            mid.nodes@,
                            mid.nodes[i].cache@,
                        );
                    }
                }
            }
        },
        Option::None => {},
    }
    // the removed key's live cached child, read against the original state:
    // both states cache the same child under `m`, and the downward pass left
    // its whole live subtree compacted
    match pre.cached_child(node, m) {
        Option::Some(jp) => {
            if pre.nodes[jp].strong > 0 {
                assert(pre.has_cached(node, m));
                let qp = pre.cache_pos(node, m);
                assert(pre.cache_has(node, m, qp));
                assert(pre.cache_wf(node));
                assert(mid.nodes[node].cache@ == pre.nodes[node].cache@);
                assert(mid.cache_has(node, m, qp));
                assert(mid.has_cached(node, m));
                let qm = mid.cache_pos(node, m);
                assert(mid.cache_has(node, m, qm));
                assert(mid.cache_wf(node));
                if qm != qp {
                    assert(false);
                }
                assert(mid.cached_child(node, m) == Option::Some(jp));
                assert(mid.nodes[jp].strong == pre.nodes[jp].strong);
                assert(crate::invalidate::deep_compacted(mid, post, jp));
                crate::invalidate::lemma_deep_shift(pre, mid, post, jp);
            }
        },
        Option::None => {},
    }
}

} // verus!
