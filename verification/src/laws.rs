//! The laws of the tracking core, stated and proved once and for all: what
//! handles read, when they are identical, and how far a mutation is seen.

use vstd::prelude::*;

use crate::containers::removed_post;
use crate::mapper::Mapper;
use crate::store::{lemma_root_on_chain, lemma_structure_same_paths, resolve_from,
    structure_same, Handle, Store};
use crate::value::{dict_find, dict_put, dict_remove, find_key, lemma_dict_put_find,
    lemma_find_key, lemma_find_key_hit, VData};
use crate::write::vnext;

verus! {

/// Resolving a path extended by one segment is resolving the path and then
/// applying the segment.
pub proof fn lemma_resolve_push(v: VData, path: Seq<Mapper>, m: Mapper, i: int)
    requires
        0 <= i <= path.len(),
    ensures
        resolve_from(v, path.push(m), i) == match resolve_from(v, path, i) {
            Option::Some(t) => m.apply(t),
            Option::None => Option::None::<VData>,
        },
    decreases path.len() - i,
{
    if i == path.len() {
        assert(path.push(m)[i] == m);
        match m.apply(v) {
            Option::Some(c) => {
                assert(resolve_from(c, path.push(m), i + 1) == Option::Some(c));
            },
            Option::None => {},
        }
    } else {
        assert(path.push(m)[i] == path[i]);
        match path[i].apply(v) {
            Option::Some(c) => {
                lemma_resolve_push(c, path, m, i + 1);
            },
            Option::None => {},
        }
    }
}

/// What a child node reads is what its parent reads, projected through the
/// child's own mapper — so a child whose entry is gone reads absence, and
/// every read re-evaluates presence.
pub proof fn lemma_child_view(s: Store, child: int)
    requires
        s.wf(),
        s.valid(child),
        s.nodes[child].parent is Some,
    ensures
        s.view_at(child) == match s.view_at(s.nodes[child].parent->0 as int) {
            Option::Some(t) => s.nodes[child].mapper.apply(t),
            Option::None => Option::None::<VData>,
        },
{
    let p = s.nodes[child].parent->0 as int;
    assert(p < child);
    assert(s.path_of(child) == s.path_of(p).push(s.nodes[child].mapper));
    lemma_resolve_push(s.data@, s.path_of(p), s.nodes[child].mapper, 0);
}

/// For a sequence `S` tracked at `node` and a child handle standing at
/// position `i`: the child reads `S[i]` exactly when `i < S.len()`, and
/// absence otherwise.
pub proof fn law_sequence_position(s: Store, node: int, child: int, i: usize, elems: Seq<VData>)
    requires
        s.wf(),
        s.valid(node),
        s.valid(child),
        s.nodes[child].parent == Option::Some(node as usize),
        s.nodes[child].mapper == Mapper::Index(i),
        s.view_at(node) == Option::Some(VData::List(elems)),
    ensures
        (i as int) < elems.len() ==> s.view_at(child) == Option::Some(elems[i as int]),
        (i as int) >= elems.len() ==> s.view_at(child) is None,
{
    lemma_child_view(s, child);
}

/// Requesting the handle for one key twice, with nothing happening in
/// between, hands the identical node out both times.
pub proof fn law_handle_identity(
    s0: Store,
    s1: Store,
    s2: Store,
    c: int,
    m: Mapper,
    h1: Handle,
    h2: Handle,
)
    requires
        Store::child_at_post(s0, s1, c, m, h1),
        Store::child_at_post(s1, s2, c, m, h2),
    ensures
        h2.id == h1.id,
{
    assert(s1.cached_child(c, m) == Option::Some(h1.id as int));
    assert(s1.nodes[h1.id as int].strong > 0);
}

/// A value just inserted under a key is exactly what a handle for that key,
/// requested right after, reads.
pub proof fn law_insert_then_read(
    s1: Store,
    s2: Store,
    node: int,
    k: u64,
    v: VData,
    d: Seq<(u64, VData)>,
    h: Handle,
)
    requires
        s1.wf(),
        0 <= node < s1.nodes.len(),
        s1.view_at(node) == Option::Some(VData::Dict(dict_put(d, k, v))),
        Store::child_at_post(s1, s2, node, Mapper::Key(k), h),
    ensures
        s2.view_at(h.id as int) == Option::Some(v),
{
    assert(s2.wf());
    assert(structure_same(s1, s2) || Store::fresh_child(s1, s2, node, Mapper::Key(k), h)) by {
        match s1.cached_child(node, Mapper::Key(k)) {
            Option::Some(j) => {
                assert(s1.has_cached(node, Mapper::Key(k)));
                let q = s1.cache_pos(node, Mapper::Key(k));
                assert(s1.cache_has(node, Mapper::Key(k), q));
                assert(s1.cache_wf(node));
                assert(0 <= j < s1.nodes.len());
                if s1.nodes[j].strong > 0 {
                    assert(s2.nodes@ == s1.nodes@.update(
                        j,
                        crate::node::NodeSlot {
                            strong: crate::node::bump(s1.nodes[j].strong),
                            ..s1.nodes@[j]
                        },
                    ));
                    assert forall|i: int|
                        0 <= i < s1.nodes.len() implies (#[trigger] s2.nodes[i]).parent
                        == s1.nodes[i].parent && s2.nodes[i].mapper == s1.nodes[i].mapper by {}
                    assert(structure_same(s1, s2));
                }
            },
            Option::None => {},
        }
    }
    assert(s2.path_of(node) == s1.path_of(node)) by {
        if structure_same(s1, s2) {
            lemma_structure_same_paths(s1, s2, node);
        }
    }
    assert(s2.view_at(node) == s1.view_at(node));
    assert(s2.path_of(h.id as int) == s2.path_of(node).push(Mapper::Key(k))) by {
        assert(s2.path_of(h.id as int) == s1.path_of(node).push(Mapper::Key(k)));
    }
    lemma_resolve_push(s2.data@, s2.path_of(node), Mapper::Key(k), 0);
    lemma_dict_put_find(d, k, v);
}

/// Every key of the mapping occurs on one entry only.
pub open spec fn dict_keys_unique(d: Seq<(u64, VData)>) -> bool {
    forall|j1: int, j2: int| 0 <= j1 < j2 < d.len() ==> (#[trigger] d[j1]).0 != (#[trigger] d[j2]).0
}

/// Removing a key from a mapping without duplicated keys leaves nothing to
/// find under it.
pub proof fn lemma_dict_remove_find_none(d: Seq<(u64, VData)>, k: u64)
    requires
        dict_keys_unique(d),
        find_key(d, k) < d.len(),
    ensures
        dict_find(dict_remove(d, k), k) is None,
{
    lemma_find_key(d, k);
    let f = find_key(d, k);
    let r = dict_remove(d, k);
    lemma_find_key(r, k);
    let fr = find_key(r, k);
    if fr < r.len() {
        assert(r[fr].0 == k);
        if fr < f {
            assert(r[fr] == d[fr]);
        } else {
            assert(r[fr] == d[fr + 1]);
            assert(d[f].0 == d[fr + 1].0);
        }
        assert(false);
    }
}

/// Removing key `k` invalidates exactly the handle for `k`: that handle now
/// reads absence, while a handle for any other key is a distinct node that
/// keeps its strong count and reads exactly what it read before. (Stated for
/// mappings without duplicated keys: with duplicates, removal uncovers the
/// second binding of `k`.)
pub proof fn law_remove_exactness(
    s0: Store,
    s1: Store,
    node: int,
    k: u64,
    d: Seq<(u64, VData)>,
    hk: int,
    h2: int,
    k2: u64,
)
    requires
        s0.wf(),
        s1.wf(),
        0 <= node < s0.nodes.len(),
        s0.view_at(node) == Option::Some(VData::Dict(d)),
        dict_keys_unique(d),
        find_key(d, k) < d.len(),
        s1.view_at(node) == Option::Some(VData::Dict(dict_remove(d, k))),
        removed_post(s0, s1, node, Mapper::Key(k)),
        s0.valid(hk),
        s0.nodes[hk].parent == Option::Some(node as usize),
        s0.nodes[hk].mapper == Mapper::Key(k),
        s0.valid(h2),
        s0.nodes[h2].parent == Option::Some(node as usize),
        s0.nodes[h2].mapper == Mapper::Key(k2),
        k2 != k,
    ensures
        s1.view_at(hk) is None,
        s1.view_at(h2) == s0.view_at(h2),
        s1.nodes[h2].strong == s0.nodes[h2].strong,
        h2 != hk,
{
    lemma_child_view(s1, hk);
    lemma_child_view(s1, h2);
    lemma_child_view(s0, h2);
    lemma_dict_remove_find_none(d, k);
    crate::value::lemma_dict_other_keys(d, k, VData::Unit, k2);
    assert(dict_find(dict_remove(d, k), k2) == dict_find(d, k2));
}

/// A mutation anywhere below is observable at the root by the time the
/// mutating call returns: the root's version has moved, and to a value it
/// did not have before.
pub proof fn law_root_observes(pre: Store, post: Store, node: int)
    requires
        pre.wf(),
        0 <= node < pre.nodes.len(),
        Store::chain_versions_bumped(pre, post, node),
    ensures
        post.nodes[0].version == vnext(pre.nodes[0].version),
        post.nodes[0].version != pre.nodes[0].version,
{
    lemma_root_on_chain(pre, node);
}

} // verus!
