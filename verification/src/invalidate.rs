//! Downward invalidation: after a removal, the cache below the removed
//! entry keeps only entries whose node is still live, each of those told to
//! invalidate its own cache in turn; dead entries are compacted away.

use vstd::prelude::*;

use crate::node::NodeSlot;
use crate::store::{Handle, Store};

verus! {

/// The entries of `c` whose node is still live (some handle on it is out),
/// in order; dead entries are dropped.
pub open spec fn live_filter(nodes: Seq<NodeSlot>, c: Seq<usize>) -> Seq<usize>
    decreases c.len(),
{
    if c.len() == 0 {
        c
    } else {
        let rest = live_filter(nodes, c.drop_first());
        if (c[0] as int) < nodes.len() && nodes[c[0] as int].strong > 0 {
            seq![c[0]] + rest
        } else {
            rest
        }
    }
}

/// Everything but the caches is the same in both stores.
pub open spec fn non_cache_same(pre: Store, post: Store) -> bool {
    &&& post.nodes.len() == pre.nodes.len()
    &&& post.data == pre.data
    &&& forall|i: int|
        0 <= i < pre.nodes.len() ==> {
            let n = #[trigger] post.nodes[i];
            &&& n.parent == pre.nodes[i].parent
            &&& n.mapper == pre.nodes[i].mapper
            &&& n.strong == pre.nodes[i].strong
            &&& n.version == pre.nodes[i].version
            &&& n.access == pre.nodes[i].access
        }
}

/// Compaction carried through the whole live subtree of node `id`: its cache
/// keeps exactly its live entries, and every live cached child has been
/// compacted the same way, recursively. (A child always sits at a larger
/// arena index than its parent, which bounds the recursion.)
pub open spec fn deep_compacted(pre: Store, post: Store, id: int) -> bool
    decreases pre.nodes.len() - id,
{
    0 <= id < pre.nodes.len() ==> {
        &&& post.nodes[id].cache@ == live_filter(pre.nodes@, pre.nodes[id].cache@)
        &&& forall|t: int|
            0 <= t < pre.nodes[id].cache@.len() ==> {
                let e = (#[trigger] pre.nodes[id].cache@[t]) as int;
                (id < e < pre.nodes.len() && pre.nodes[e].strong > 0) ==> deep_compacted(
                    pre,
                    post,
                    e,
                )
            }
    }
}

/// The whole observable effect of downward invalidation from node `id`: the
/// tree, the handles, the versions and the access states stay; the cache of
/// `id` is compacted to its live entries and each live child recursively so
/// (`deep_compacted`); caches elsewhere do not move.
pub open spec fn invalidated_down(pre: Store, post: Store, id: int) -> bool {
    &&& non_cache_same(pre, post)
    &&& forall|i: int|
        0 <= i < id ==> (#[trigger] post.nodes[i]).cache@ == pre.nodes[i].cache@
    &&& post.nodes[id].cache@ == live_filter(pre.nodes@, pre.nodes[id].cache@)
    &&& forall|i: int|
        id < i < pre.nodes.len() ==> (#[trigger] post.nodes[i]).cache@ == pre.nodes[i].cache@
            || post.nodes[i].cache@ == live_filter(pre.nodes@, pre.nodes[i].cache@)
    &&& deep_compacted(pre, post, id)
}

/// Every entry the filter keeps comes from the filtered cache and is live.
proof fn lemma_live_filter_props(nodes: Seq<NodeSlot>, c: Seq<usize>)
    ensures
        live_filter(nodes, c).len() <= c.len(),
        forall|t: int|
            0 <= t < live_filter(nodes, c).len() ==> c.contains(#[trigger] live_filter(nodes, c)[t])
                && (live_filter(nodes, c)[t] as int) < nodes.len()
                && nodes[live_filter(nodes, c)[t] as int].strong > 0,
    decreases c.len(),
{
    if c.len() > 0 {
        let rest = c.drop_first();
        lemma_live_filter_props(nodes, rest);
        let flt = live_filter(nodes, c);
        assert forall|t: int|
            0 <= t < flt.len() implies c.contains(#[trigger] flt[t]) && (flt[t] as int)
            < nodes.len() && nodes[flt[t] as int].strong > 0 by {
            if (c[0] as int) < nodes.len() && nodes[c[0] as int].strong > 0 {
                if t == 0 {
                    assert(flt[0] == c[0]);
                } else {
                    assert(flt[t] == live_filter(nodes, rest)[t - 1]);
                    let j = choose|j: int| 0 <= j < rest.len() && rest[j] == flt[t];
                    assert(c[j + 1] == flt[t]);
                }
            } else {
                assert(flt[t] == live_filter(nodes, rest)[t]);
                let j = choose|j: int| 0 <= j < rest.len() && rest[j] == flt[t];
                assert(c[j + 1] == flt[t]);
            }
        }
    }
}

/// Filtering keeps entries pairwise distinct.
proof fn lemma_live_filter_nodup(nodes: Seq<NodeSlot>, c: Seq<usize>)
    requires
        forall|j1: int, j2: int| 0 <= j1 < j2 < c.len() ==> c[j1] != c[j2],
    ensures
        forall|t1: int, t2: int|
            0 <= t1 < t2 < live_filter(nodes, c).len() ==> live_filter(nodes, c)[t1]
                != live_filter(nodes, c)[t2],
    decreases c.len(),
{
    if c.len() > 0 {
        let rest = c.drop_first();
        assert forall|j1: int, j2: int| 0 <= j1 < j2 < rest.len() implies rest[j1] != rest[j2] by {
            assert(c[j1 + 1] != c[j2 + 1]);
        }
        lemma_live_filter_nodup(nodes, rest);
        lemma_live_filter_props(nodes, rest);
        let flt = live_filter(nodes, c);
        let frest = live_filter(nodes, rest);
        if (c[0] as int) < nodes.len() && nodes[c[0] as int].strong > 0 {
            assert forall|t1: int, t2: int| 0 <= t1 < t2 < flt.len() implies flt[t1] != flt[t2] by {
                if t1 == 0 {
                    assert(flt[t2] == frest[t2 - 1]);
                    assert(rest.contains(frest[t2 - 1]));
                    let j = choose|j: int| 0 <= j < rest.len() && rest[j] == frest[t2 - 1];
                    assert(c[j + 1] == frest[t2 - 1]);
                    assert(c[0] != c[j + 1]);
                } else {
                    assert(flt[t1] == frest[t1 - 1]);
                    assert(flt[t2] == frest[t2 - 1]);
                }
            }
        }
    }
}

/// The filter looks only at the strong counts, so two stores that agree on
/// them filter alike.
pub proof fn lemma_live_filter_strong(n1: Seq<NodeSlot>, n2: Seq<NodeSlot>, c: Seq<usize>)
    requires
        n1.len() == n2.len(),
        forall|i: int| 0 <= i < n1.len() ==> (#[trigger] n2[i]).strong == n1[i].strong,
    ensures
        live_filter(n2, c) == live_filter(n1, c),
    decreases c.len(),
{
    if c.len() > 0 {
        lemma_live_filter_strong(n1, n2, c.drop_first());
    }
}

/// A cache whose entries are all live filters to itself.
proof fn lemma_live_filter_all_live(nodes: Seq<NodeSlot>, c: Seq<usize>)
    requires
        forall|j: int|
            0 <= j < c.len() ==> ((#[trigger] c[j]) as int) < nodes.len()
                && nodes[c[j] as int].strong > 0,
    ensures
        live_filter(nodes, c) == c,
    decreases c.len(),
{
    if c.len() > 0 {
        let rest = c.drop_first();
        assert forall|j: int|
            0 <= j < rest.len() implies ((#[trigger] rest[j]) as int) < nodes.len()
            && nodes[rest[j] as int].strong > 0 by {
            assert(rest[j] == c[j + 1]);
        }
        lemma_live_filter_all_live(nodes, rest);
        assert(live_filter(nodes, c) =~= c);
    }
}

/// Filtering twice is filtering once.
proof fn lemma_live_filter_idem(nodes: Seq<NodeSlot>, c: Seq<usize>)
    ensures
        live_filter(nodes, live_filter(nodes, c)) == live_filter(nodes, c),
{
    lemma_live_filter_props(nodes, c);
    lemma_live_filter_all_live(nodes, live_filter(nodes, c));
}

/// Every live entry survives the filter.
proof fn lemma_live_filter_complete(nodes: Seq<NodeSlot>, c: Seq<usize>, j: int)
    requires
        0 <= j < c.len(),
        (c[j] as int) < nodes.len(),
        nodes[c[j] as int].strong > 0,
    ensures
        live_filter(nodes, c).contains(c[j]),
    decreases c.len(),
{
    let flt = live_filter(nodes, c);
    if j == 0 {
        assert(flt[0] == c[0]);
        assert(flt.contains(c[0]));
    } else {
        let rest = c.drop_first();
        assert(rest[j - 1] == c[j]);
        lemma_live_filter_complete(nodes, rest, j - 1);
        let frest = live_filter(nodes, rest);
        let t = choose|t: int| 0 <= t < frest.len() && frest[t] == c[j];
        if (c[0] as int) < nodes.len() && nodes[c[0] as int].strong > 0 {
            assert(flt[t + 1] == frest[t]);
            assert(flt.contains(c[j]));
        } else {
            assert(flt.contains(c[j]));
        }
    }
}

/// Deep compaction read against an intermediate state also holds against the
/// state before it, when the step between them only compacted caches at or
/// below the node and moved no strong count.
pub proof fn lemma_deep_shift(pre: Store, mid: Store, post: Store, id: int)
    requires
        mid.nodes.len() == pre.nodes.len(),
        forall|i: int|
            0 <= i < pre.nodes.len() ==> (#[trigger] mid.nodes[i]).strong == pre.nodes[i].strong,
        forall|i: int|
            id <= i < pre.nodes.len() ==> (#[trigger] mid.nodes[i]).cache@ == pre.nodes[i].cache@
                || mid.nodes[i].cache@ == live_filter(pre.nodes@, pre.nodes[i].cache@),
        deep_compacted(mid, post, id),
        0 <= id < pre.nodes.len(),
    ensures
        deep_compacted(pre, post, id),
    decreases pre.nodes.len() - id,
{
    let cpre = pre.nodes[id].cache@;
    let cmid = mid.nodes[id].cache@;
    lemma_live_filter_strong(pre.nodes@, mid.nodes@, cmid);
    if cmid != cpre {
        lemma_live_filter_idem(pre.nodes@, cpre);
    }
    assert(post.nodes[id].cache@ == live_filter(pre.nodes@, cpre));
    assert forall|t: int| 0 <= t < cpre.len() implies {
        let e = (#[trigger] cpre[t]) as int;
        (id < e < pre.nodes.len() && pre.nodes[e].strong > 0) ==> deep_compacted(pre, post, e)
    } by {
        let e = cpre[t] as int;
        if id < e < pre.nodes.len() && pre.nodes[e].strong > 0 {
            if cmid == cpre {
                assert((mid.nodes[id].cache@[t] as int) == e);
                assert(deep_compacted(mid, post, e));
            } else {
                lemma_live_filter_complete(pre.nodes@, cpre, t);
                assert(cmid.contains(cpre[t]));
                let t2 = choose|t2: int| 0 <= t2 < cmid.len() && cmid[t2] == cpre[t];
                assert((mid.nodes[id].cache@[t2] as int) == e);
                assert(deep_compacted(mid, post, e));
            }
            lemma_deep_shift(pre, mid, post, e);
        }
    }
}

/// Deep compaction survives a later step that only compacts caches further.
proof fn lemma_deep_stable(pre: Store, mid: Store, post: Store, id: int)
    requires
        mid.nodes.len() == pre.nodes.len(),
        forall|i: int|
            0 <= i < pre.nodes.len() ==> (#[trigger] mid.nodes[i]).strong == pre.nodes[i].strong,
        forall|i: int|
            0 <= i < pre.nodes.len() ==> (#[trigger] post.nodes[i]).cache@ == mid.nodes[i].cache@
                || post.nodes[i].cache@ == live_filter(mid.nodes@, mid.nodes[i].cache@),
        deep_compacted(pre, mid, id),
        0 <= id < pre.nodes.len(),
    ensures
        deep_compacted(pre, post, id),
    decreases pre.nodes.len() - id,
{
    let cpre = pre.nodes[id].cache@;
    lemma_live_filter_strong(pre.nodes@, mid.nodes@, mid.nodes[id].cache@);
    lemma_live_filter_idem(pre.nodes@, cpre);
    assert(post.nodes[id].cache@ == live_filter(pre.nodes@, cpre));
    assert forall|t: int| 0 <= t < cpre.len() implies {
        let e = (#[trigger] cpre[t]) as int;
        (id < e < pre.nodes.len() && pre.nodes[e].strong > 0) ==> deep_compacted(pre, post, e)
    } by {
        let e = cpre[t] as int;
        if id < e < pre.nodes.len() && pre.nodes[e].strong > 0 {
            assert(deep_compacted(pre, mid, e));
            lemma_deep_stable(pre, mid, post, e);
        }
    }
}

/// Deep compaction is untouched by a change to one node's cache above the
/// compacted subtree.
proof fn lemma_deep_frame(pre: Store, mid: Store, post: Store, id: int, exempt: int)
    requires
        exempt < id,
        post.nodes.len() == mid.nodes.len(),
        mid.nodes.len() == pre.nodes.len(),
        forall|i: int|
            0 <= i < pre.nodes.len() && i != exempt ==> (#[trigger] post.nodes[i]).cache@
                == mid.nodes[i].cache@,
        deep_compacted(pre, mid, id),
        0 <= id < pre.nodes.len(),
    ensures
        deep_compacted(pre, post, id),
    decreases pre.nodes.len() - id,
{
    let cpre = pre.nodes[id].cache@;
    assert forall|t: int| 0 <= t < cpre.len() implies {
        let e = (#[trigger] cpre[t]) as int;
        (id < e < pre.nodes.len() && pre.nodes[e].strong > 0) ==> deep_compacted(pre, post, e)
    } by {
        let e = cpre[t] as int;
        if id < e < pre.nodes.len() && pre.nodes[e].strong > 0 {
            assert(deep_compacted(pre, mid, e));
            lemma_deep_frame(pre, mid, post, e, exempt);
        }
    }
}

/// A compacted cache is still well-formed: its entries come from the old
/// one, so they are in bounds, children of the same node, and pairwise under
/// distinct mappers.
proof fn lemma_filtered_cache_wf(pre: Store, post: Store, i: int)
    requires
        pre.wf(),
        non_cache_same(pre, post),
        0 <= i < pre.nodes.len(),
        post.nodes[i].cache@ == live_filter(pre.nodes@, pre.nodes[i].cache@),
    ensures
        post.cache_wf(i),
{
    let c = pre.nodes[i].cache@;
    let flt = post.nodes[i].cache@;
    assert(pre.cache_wf(i));
    lemma_live_filter_props(pre.nodes@, c);
    assert forall|j1: int, j2: int| 0 <= j1 < j2 < c.len() implies c[j1] != c[j2] by {
        assert(pre.nodes[c[j1] as int].mapper != pre.nodes[c[j2] as int].mapper);
    }
    lemma_live_filter_nodup(pre.nodes@, c);
    assert forall|t: int|
        0 <= t < flt.len() implies i < ((#[trigger] flt[t]) as int) < post.nodes.len()
        && post.nodes[flt[t] as int].parent == Option::Some(i as usize) by {
        assert(c.contains(flt[t]));
        let j = choose|j: int| 0 <= j < c.len() && c[j] == flt[t];
        assert(i < (c[j] as int) < pre.nodes.len());
    }
    assert forall|t1: int, t2: int|
        0 <= t1 < t2 < flt.len() implies post.nodes[#[trigger] flt[t1] as int].mapper
        != post.nodes[#[trigger] flt[t2] as int].mapper by {
        assert(c.contains(flt[t1]));
        assert(c.contains(flt[t2]));
        let j1 = choose|j: int| 0 <= j < c.len() && c[j] == flt[t1];
        let j2 = choose|j: int| 0 <= j < c.len() && c[j] == flt[t2];
        assert(flt[t1] != flt[t2]);
        assert(j1 != j2);
        if j1 < j2 {
            assert(pre.nodes[c[j1] as int].mapper != pre.nodes[c[j2] as int].mapper);
        } else {
            assert(pre.nodes[c[j2] as int].mapper != pre.nodes[c[j1] as int].mapper);
        }
    }
}

/// An untouched cache is still well-formed when nothing but caches moved.
proof fn lemma_unchanged_cache_wf(pre: Store, post: Store, i: int)
    requires
        pre.wf(),
        non_cache_same(pre, post),
        0 <= i < pre.nodes.len(),
        post.nodes[i].cache@ == pre.nodes[i].cache@,
    ensures
        post.cache_wf(i),
{
    assert(pre.cache_wf(i));
}

impl Store {
    /// Downward invalidation from the node a handle points at, as after the
    /// removal of its backing entry: the node's cache keeps only live
    /// entries, each surviving child invalidated the same way before dead
    /// siblings are compacted away. Handles themselves stay usable: a later
    /// borrow through one simply re-evaluates its path.
    pub fn invalidate_outside_down(&mut self, h: &Handle)
        requires
            old(self).wf(),
            old(self).valid(h.id as int),
        ensures
            final(self).wf(),
            invalidated_down(*old(self), *final(self), h.id as int),
    {
        self.invalidate_down_from(h.id);
    }

    fn invalidate_down_from(&mut self, id: usize)
        requires
            old(self).wf(),
            old(self).valid(id as int),
        ensures
            final(self).wf(),
            invalidated_down(*old(self), *final(self), id as int),
        decreases self.nodes.len() - id, 0int,
    {
        let ghost pre = *self;
        let mut slot = self.nodes.remove(id);
        let mut cache: Vec<usize> = Vec::new();
        core::mem::swap(&mut slot.cache, &mut cache);
        self.nodes.insert(id, slot);
        proof {
            crate::store::lemma_remove_insert(
                pre.nodes@,
                id as int,
                NodeSlot { cache: self.nodes@[id as int].cache, ..pre.nodes@[id as int] },
            );
            assert(self.nodes@ =~= pre.nodes@.update(
                id as int,
                NodeSlot { cache: self.nodes@[id as int].cache, ..pre.nodes@[id as int] },
            ));
            assert(self.nodes[id as int].cache@ == Seq::<usize>::empty());
            assert forall|i: int| 0 <= i < self.nodes.len() implies self.cache_wf(i) by {
                if i != id {
                    lemma_unchanged_cache_wf(pre, *self, i);
                }
            }
            assert(self.wf());
            assert(pre.cache_wf(id as int));
        }
        let ghost c = cache@;
        proof {
            assert(c.skip(0) =~= c);
            assert(Seq::<usize>::empty() + live_filter(pre.nodes@, c) =~= live_filter(
                pre.nodes@,
                c,
            ));
        }
        let mut retained: Vec<usize> = Vec::new();
        let mut j: usize = 0;
        while j < cache.len()
            invariant
                pre == *old(self),
                pre.wf(),
                self.wf(),
                0 <= j <= cache.len(),
                cache@ == c,
                c == pre.nodes[id as int].cache@,
                (id as int) < pre.nodes.len(),
                pre.cache_wf(id as int),
                non_cache_same(pre, *self),
                forall|i: int|
                    0 <= i < id ==> (#[trigger] self.nodes[i]).cache@ == pre.nodes[i].cache@,
                self.nodes[id as int].cache@ == Seq::<usize>::empty(),
                forall|i: int|
                    id < i < pre.nodes.len() ==> (#[trigger] self.nodes[i]).cache@
                        == pre.nodes[i].cache@ || self.nodes[i].cache@ == live_filter(
                        pre.nodes@,
                        pre.nodes[i].cache@,
                    ),
                retained@ + live_filter(pre.nodes@, c.skip(j as int)) == live_filter(pre.nodes@, c),
                forall|t: int|
                    0 <= t < j ==> {
                        let e = (#[trigger] c[t]) as int;
                        pre.nodes[e].strong > 0 ==> deep_compacted(pre, *self, e)
                    },
            decreases cache.len() - j,
        {
            let ghost mid = *self;
            let child = cache[j];
            proof {
                assert(id < (c[j as int] as int) < pre.nodes.len());
                assert(child == c[j as int]);
                assert(id < child);
                assert((child as int) < self.nodes.len());
                assert(self.nodes.len() == pre.nodes.len());
            }
            let keep = invalidate_and_retain(self, child);
            proof {
                let rest = c.skip(j as int);
                assert(rest[0] == c[j as int]);
                assert(rest.drop_first() =~= c.skip(j as int + 1));
                assert(keep == (pre.nodes[child as int].strong > 0));
                if keep {
                    // the child call filtered with the same strong counts
                    assert forall|i: int|
                        0 <= i < pre.nodes.len() implies (#[trigger] self.nodes[i]).strong
                        == pre.nodes[i].strong by {}
                    lemma_live_filter_strong(pre.nodes@, mid.nodes@, pre.nodes[child as int].cache@);
                    assert forall|i: int|
                        id < i < pre.nodes.len() implies (#[trigger] self.nodes[i]).cache@
                        == pre.nodes[i].cache@ || self.nodes[i].cache@ == live_filter(
                        pre.nodes@,
                        pre.nodes[i].cache@,
                    ) by {
                        if self.nodes[i].cache@ == mid.nodes[i].cache@ {
                        } else {
                            assert(self.nodes[i].cache@ == live_filter(
                                mid.nodes@,
                                mid.nodes[i].cache@,
                            ));
                            lemma_live_filter_strong(pre.nodes@, mid.nodes@, mid.nodes[i].cache@);
                            if mid.nodes[i].cache@ == pre.nodes[i].cache@ {
                            } else {
                                lemma_live_filter_idem(pre.nodes@, pre.nodes[i].cache@);
                            }
                        }
                    }
                    assert(live_filter(pre.nodes@, rest) == seq![c[j as int]] + live_filter(
                        pre.nodes@,
                        c.skip(j as int + 1),
                    ));
                    assert(retained@.push(c[j as int]) + live_filter(pre.nodes@, c.skip(j as int + 1))
                        =~= retained@ + live_filter(pre.nodes@, rest));
                    // the child just handled is now deeply compacted, read
                    // against the original state, and earlier children stay so
                    assert(deep_compacted(mid, *self, child as int));
                    lemma_deep_shift(pre, mid, *self, child as int);
                    assert forall|t: int| 0 <= t < j + 1 implies {
                        let e = (#[trigger] c[t]) as int;
                        pre.nodes[e].strong > 0 ==> deep_compacted(pre, *self, e)
                    } by {
                        let e = c[t] as int;
                        if pre.nodes[e].strong > 0 && t < j {
                            assert(deep_compacted(pre, mid, e));
                            assert forall|i: int|
                                0 <= i < pre.nodes.len() implies (#[trigger] self.nodes[i]).cache@
                                == mid.nodes[i].cache@ || self.nodes[i].cache@ == live_filter(
                                mid.nodes@,
                                mid.nodes[i].cache@,
                            ) by {}
                            lemma_deep_stable(pre, mid, *self, e);
                        }
                    }
                } else {
                    assert(live_filter(pre.nodes@, rest) == live_filter(
                        pre.nodes@,
                        c.skip(j as int + 1),
                    ));
                    assert(*self == mid);
                }
            }
            if keep {
                retained.push(child);
            }
            j += 1;
        }
        proof {
            assert(c.skip(c.len() as int) =~= Seq::<usize>::empty());
            assert(retained@ =~= retained@ + live_filter(pre.nodes@, c.skip(c.len() as int)));
            assert(retained@ == live_filter(pre.nodes@, c));
        }
        let ghost sent = *self;
        let mut slot2 = self.nodes.remove(id);
        slot2.cache = retained;
        self.nodes.insert(id, slot2);
        proof {
            crate::store::lemma_remove_insert(
                sent.nodes@,
                id as int,
                NodeSlot { cache: self.nodes@[id as int].cache, ..sent.nodes@[id as int] },
            );
            assert(self.nodes@ =~= sent.nodes@.update(
                id as int,
                NodeSlot { cache: self.nodes@[id as int].cache, ..sent.nodes@[id as int] },
            ));
            assert(self.nodes[id as int].cache@ == live_filter(pre.nodes@, pre.nodes[id as int].cache@));
            assert forall|i: int| 0 <= i < self.nodes.len() implies self.cache_wf(i) by {
                if i == id {
                    lemma_filtered_cache_wf(pre, *self, i);
                } else if self.nodes[i].cache@ == pre.nodes[i].cache@ {
                    lemma_unchanged_cache_wf(pre, *self, i);
                } else {
                    lemma_filtered_cache_wf(pre, *self, i);
                }
            }
            assert(self.wf());
            // the whole live subtree is compacted: the loop left each live
            // child deeply compacted, and replacing this node's own cache
            // does not touch theirs
            assert forall|t: int| 0 <= t < c.len() implies {
                let e = (#[trigger] c[t]) as int;
                pre.nodes[e].strong > 0 ==> deep_compacted(pre, *self, e)
            } by {
                let e = c[t] as int;
                if pre.nodes[e].strong > 0 {
                    assert(deep_compacted(pre, sent, e));
                    lemma_deep_frame(pre, sent, *self, e, id as int);
                }
            }
            assert(deep_compacted(pre, *self, id as int));
        }
    }
}

/// Checks one cache entry during downward invalidation: a live child is
/// first invalidated itself and then kept; a dead one is dropped.
pub fn invalidate_and_retain(store: &mut Store, child: usize) -> (keep: bool)
    requires
        old(store).wf(),
        old(store).valid(child as int),
    ensures
        final(store).wf(),
        keep == (old(store).nodes[child as int].strong > 0),
        keep ==> invalidated_down(*old(store), *final(store), child as int),
        !keep ==> *final(store) == *old(store),
    decreases store.nodes.len() - child, 1int,
{
    let strong = store.nodes[child].strong;
    if strong > 0 {
        store.invalidate_down_from(child);
        true
    } else {
        false
    }
}

impl Store {
    /// The downward half of a removal: looks the removed key's cache entry
    /// up on node `h`; a still-live child is told to invalidate downward,
    /// a dead or missing one leaves everything as it is. The parent's own
    /// cache entry stays where it is.
    pub(crate) fn invalidate_removed_child(&mut self, h: &Handle, m: crate::mapper::Mapper)
        requires
            old(self).wf(),
            old(self).valid(h.id as int),
        ensures
            final(self).wf(),
            match old(self).cached_child(h.id as int, m) {
                Option::Some(j) => if old(self).nodes[j].strong > 0 {
                    invalidated_down(*old(self), *final(self), j)
                } else {
                    *final(self) == *old(self)
                },
                Option::None => *final(self) == *old(self),
            },
    {
        let ghost pre = *self;
        let c = h.id;
        let n = self.nodes[c].cache.len();
        let mut j: usize = 0;
        let mut found: Option<usize> = None;
        while j < n
            invariant
                *self == pre,
                pre.wf(),
                (c as int) < pre.nodes.len(),
                n == pre.nodes[c as int].cache.len(),
                0 <= j <= n,
                match found {
                    Option::Some(p) => (p as int) < j && pre.cache_has(c as int, m, p as int),
                    Option::None => forall|t: int| 0 <= t < j ==> !pre.cache_has(c as int, m, t),
                },
            decreases n - j,
        {
            if found.is_none() {
                let child = self.nodes[c].cache[j];
                proof {
                    assert(pre.cache_wf(c as int));
                }
                if self.nodes[child].mapper == m {
                    found = Some(j);
                }
            }
            j += 1;
        }
        match found {
            Some(p) => {
                proof {
                    assert(pre.cache_has(c as int, m, p as int));
                    assert(pre.cache_wf(c as int));
                    let q = pre.cache_pos(c as int, m);
                    assert(pre.cache_has(c as int, m, q));
                    if q != p as int {
                        assert(false);
                    }
                }
                let child = self.nodes[c].cache[p];
                if self.nodes[child].strong > 0 {
                    self.invalidate_down_from(child);
                }
            },
            None => {
                proof {
                    if pre.has_cached(c as int, m) {
                        let q = pre.cache_pos(c as int, m);
                        assert(pre.cache_has(c as int, m, q));
                        assert(false);
                    }
                }
            },
        }
    }
}

} // verus!
