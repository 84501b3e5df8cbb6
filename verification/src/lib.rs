//! An online topological ordering engine over a growing directed graph,
//! after Pearce and Kelly: a dense rank is kept for every vertex named by an
//! edge, every stored edge runs from a lower rank to a higher one, and an
//! edge insertion that would close a directed cycle is rejected without
//! changing the order.

pub mod error;
pub mod store;
pub mod support;

pub use crate::error::TopologicalOrderingError;

use crate::store::{
    graph_add_edge, graph_add_node, graph_neighbors_in, graph_neighbors_out, graph_new,
    store_edges, store_node_count, GraphStore,
};
use crate::support::{
    count_false, false_vec, lemma_count_false_set_true, lemma_index_of_push, lemma_position_of,
    lemma_pool_reassign, lemma_same_members_same_multiset, merge_ranks, seq_has_val,
    strictly_increasing, vec_contains,
};
use vstd::pervasive::VecAdditionalExecFns;
use vstd::prelude::*;

verus! {

broadcast use vstd::seq_lib::lemma_seq_contains_after_push, vstd::seq_lib::lemma_seq_empty_contains_nothing;

/// The edge endpoints as mathematical pairs, in insertion order.
pub open spec fn edge_pairs(es: Seq<(usize, usize)>) -> Seq<(int, int)> {
    es.map_values(|e: (usize, usize)| (e.0 as int, e.1 as int))
}

/// A walk along stored edges: each consecutive pair of entries is joined by
/// an edge of `es`.
pub open spec fn is_path(es: Seq<(usize, usize)>, p: Seq<usize>) -> bool {
    forall|i: int| 0 <= i < p.len() - 1 ==> es.contains(((#[trigger] p[i]), p[i + 1]))
}

/// `b` can be reached from `a` along the edges of `es`, in zero or more
/// steps.
pub open spec fn reaches(es: Seq<(usize, usize)>, a: usize, b: usize) -> bool {
    exists|p: Seq<usize>|
        p.len() >= 1 && p.first() == a && p.last() == b && #[trigger] is_path(es, p)
}

/// Every vertex reaches itself: the one-entry walk.
pub proof fn lemma_reaches_refl(es: Seq<(usize, usize)>, a: usize)
    ensures
        reaches(es, a, a),
{
    let p = seq![a];
    assert(is_path(es, p));
    assert(p.len() >= 1 && p.first() == a && p.last() == a);
}

/// Extending a walk by one stored edge at its end.
pub proof fn lemma_reaches_step(es: Seq<(usize, usize)>, a: usize, b: usize, c: usize)
    requires
        reaches(es, a, b),
        es.contains((b, c)),
    ensures
        reaches(es, a, c),
{
    let p = choose|p: Seq<usize>|
        p.len() >= 1 && p.first() == a && p.last() == b && #[trigger] is_path(es, p);
    let p2 = p.push(c);
    assert forall|i: int| 0 <= i < p2.len() - 1 implies es.contains(
        ((#[trigger] p2[i]), p2[i + 1]),
    ) by {
        if i < p.len() - 1 {
            assert(p2[i] == p[i] && p2[i + 1] == p[i + 1]);
        } else {
            assert(p2[i] == b && p2[i + 1] == c);
        }
    }
    assert(p2.len() >= 1 && p2.first() == a && p2.last() == c && is_path(es, p2));
}

/// Extending a walk by one stored edge at its front.
pub proof fn lemma_reaches_front(es: Seq<(usize, usize)>, a: usize, b: usize, c: usize)
    requires
        es.contains((a, b)),
        reaches(es, b, c),
    ensures
        reaches(es, a, c),
{
    let p = choose|p: Seq<usize>|
        p.len() >= 1 && p.first() == b && p.last() == c && #[trigger] is_path(es, p);
    let p2 = seq![a] + p;
    assert forall|i: int| 0 <= i < p2.len() - 1 implies es.contains(
        ((#[trigger] p2[i]), p2[i + 1]),
    ) by {
        if i == 0 {
            assert(p2[0] == a && p2[1] == p[0]);
            assert(p[0] == b);
        } else {
            assert(p2[i] == p[i - 1] && p2[i + 1] == p[i]);
        }
    }
    assert(p2.len() >= 1 && p2.first() == a && p2.last() == c && is_path(es, p2));
}

/// The ordering engine. `items` is the rank table: the handle at position
/// `p` has rank `p`. Handles are the indices the graph store issues, so
/// handle `h` carries the payload `node_payloads[h]`. `edge_list` and
/// `edge_payloads` record the accepted edges in insertion order, mirroring
/// exactly what the store holds.
pub struct ToplogicalOrdering<N, E> {
    pub items: Vec<usize>,
    pub node_payloads: Vec<N>,
    pub edge_list: Vec<(usize, usize)>,
    pub edge_payloads: Vec<E>,
    pub store: GraphStore,
}

/// Scratch state for one edge insertion `x -> y`: the affected rank interval
/// `[lb, ub]`, the shared visited map, the forward set reached from `y`, and
/// the backward set reaching `x`.
struct InsertState {
    lb: usize,
    ub: usize,
    visited: Vec<bool>,
    delta_f: Vec<usize>,
    delta_b: Vec<usize>,
}

impl<N, E> ToplogicalOrdering<N, E> {
    /// The rank of a handle: its position in the rank table.
    pub open spec fn rank_spec(self, v: usize) -> int {
        self.items@.index_of(v)
    }

    /// Every stored edge runs from a lower rank to a higher one: the
    /// topological invariant.
    pub open spec fn ordered(self) -> bool {
        forall|k: int|
            0 <= k < self.edge_list@.len() ==> self.rank_spec(
                (#[trigger] self.edge_list@[k]).0,
            ) < self.rank_spec(self.edge_list@[k].1)
    }

    /// Well-formedness: ranks are a duplicate-free table of issued handles,
    /// the payload tables and the graph store agree with the engine's own
    /// bookkeeping, every edge endpoint is ranked, and the order is
    /// consistent with every stored edge.
    pub open spec fn wf(self) -> bool {
        &&& self.items@.no_duplicates()
        &&& forall|i: int|
            0 <= i < self.items@.len() ==> (#[trigger] self.items@[i]) < self.node_payloads@.len()
        &&& self.node_payloads@.len() == store_node_count(self.store)
        &&& self.edge_payloads@.len() == self.edge_list@.len()
        &&& edge_pairs(self.edge_list@) == store_edges(self.store)
        &&& forall|k: int|
            0 <= k < self.edge_list@.len() ==> self.items@.contains(
                (#[trigger] self.edge_list@[k]).0,
            ) && self.items@.contains(self.edge_list@[k].1)
        &&& self.ordered()
    }

    /// A handle that is an endpoint of some stored edge is ranked, and the
    /// store edge seq and the engine's edge list name the same pairs.
    proof fn lemma_store_edge_members(self, a: int, b: int)
        requires
            self.wf(),
            store_edges(self.store).contains((a, b)),
        ensures
            exists|k: int|
                0 <= k < self.edge_list@.len() && (#[trigger] self.edge_list@[k]).0 as int == a
                    && self.edge_list@[k].1 as int == b,
    {
        let k = choose|k: int|
            0 <= k < store_edges(self.store).len() && store_edges(self.store)[k] == (a, b);
        assert(edge_pairs(self.edge_list@)[k] == (a, b));
        assert((self.edge_list@[k].0 as int, self.edge_list@[k].1 as int) == (a, b));
    }

    /// Every stored edge pair is in the store's edge seq.
    proof fn lemma_list_edge_in_store(self, k: int)
        requires
            self.wf(),
            0 <= k < self.edge_list@.len(),
        ensures
            store_edges(self.store).contains(
                (self.edge_list@[k].0 as int, self.edge_list@[k].1 as int),
            ),
    {
        assert(edge_pairs(self.edge_list@)[k] == (
            self.edge_list@[k].0 as int,
            self.edge_list@[k].1 as int,
        ));
        assert(store_edges(self.store)[k] == (
            self.edge_list@[k].0 as int,
            self.edge_list@[k].1 as int,
        ));
    }

    /// Allocate a vertex carrying `weight`. The returned handle is the next
    /// store index; it is not yet ranked.
    pub fn add_node(&mut self, weight: N) -> (ix: usize)
        requires
            old(self).wf(),
            old(self).node_payloads@.len() < 0xFFFF_FFFFusize,
        ensures
            final(self).wf(),
            ix == old(self).node_payloads@.len(),
            final(self).node_payloads@ == old(self).node_payloads@.push(weight),
            final(self).items@ == old(self).items@,
            final(self).edge_list@ == old(self).edge_list@,
            final(self).edge_payloads@ == old(self).edge_payloads@,
    {
        let ix = graph_add_node(&mut self.store);
        self.node_payloads.push(weight);
        ix
    }

    /// The payload of a vertex handle, or nothing for a handle this engine
    /// never issued.
    pub fn node_weight(&self, ix: usize) -> (r: Option<&N>)
        ensures
            match r {
                Some(p) => ix < self.node_payloads@.len() && *p == self.node_payloads@[ix as int],
                None => ix >= self.node_payloads@.len(),
            },
    {
        if ix < self.node_payloads.len() {
            Some(&self.node_payloads[ix])
        } else {
            None
        }
    }

    /// The current order: handles from rank `0` upward.
    pub fn iter(&self) -> (r: Vec<usize>)
        ensures
            r@ == self.items@,
    {
        let mut r: Vec<usize> = Vec::new();
        let mut i: usize = 0;
        while i < self.items.len()
            invariant
                i <= self.items@.len(),
                r@ == self.items@.take(i as int),
            decreases self.items@.len() - i,
        {
            r.push(self.items[i]);
            proof {
                assert(r@ =~= self.items@.take(i as int + 1));
            }
            i += 1;
        }
        proof {
            assert(r@ =~= self.items@);
        }
        r
    }

    /// The accepted edges as `(source, target)` handle pairs, in insertion
    /// order.
    pub fn edge_references(&self) -> (r: Vec<(usize, usize)>)
        ensures
            r@ == self.edge_list@,
    {
        let mut r: Vec<(usize, usize)> = Vec::new();
        let mut i: usize = 0;
        while i < self.edge_list.len()
            invariant
                i <= self.edge_list@.len(),
                r@ == self.edge_list@.take(i as int),
            decreases self.edge_list@.len() - i,
        {
            r.push(self.edge_list[i]);
            proof {
                assert(r@ =~= self.edge_list@.take(i as int + 1));
            }
            i += 1;
        }
        proof {
            assert(r@ =~= self.edge_list@);
        }
        r
    }

    /// The payload of the `ix`-th accepted edge, in insertion order.
    pub fn edge_weight(&self, ix: usize) -> (r: Option<&E>)
        ensures
            match r {
                Some(p) => ix < self.edge_payloads@.len() && *p == self.edge_payloads@[ix as int],
                None => ix >= self.edge_payloads@.len(),
            },
    {
        if ix < self.edge_payloads.len() {
            Some(&self.edge_payloads[ix])
        } else {
            None
        }
    }

    /// The rank of a handle, or `NoSuchItem` for a handle that no edge has
    /// ever named.
    fn rank(&self, item: usize) -> (r: Result<usize, TopologicalOrderingError>)
        ensures
            match r {
                Ok(ix) => ix < self.items@.len() && self.items@[ix as int] == item,
                Err(e) => e == TopologicalOrderingError::NoSuchItem(item) && !self.items@.contains(
                    item,
                ),
            },
    {
        let mut i: usize = 0;
        while i < self.items.len()
            invariant
                i <= self.items@.len(),
                forall|j: int| 0 <= j < i ==> self.items@[j] != item,
            decreases self.items@.len() - i,
        {
            if self.items[i] == item {
                return Ok(i);
            }
            i += 1;
        }
        Err(TopologicalOrderingError::NoSuchItem(item))
    }

    /// The rank of a handle known to be ranked.
    fn rank_known(&self, item: usize) -> (r: usize)
        requires
            self.items@.no_duplicates(),
            self.items@.contains(item),
        ensures
            r == self.rank_spec(item),
            r < self.items@.len(),
    {
        match self.rank(item) {
            Ok(ix) => {
                proof {
                    lemma_position_of(self.items@, ix as int);
                }
                ix
            },
            Err(_) => {
                proof {
                    assert(false);
                }
                0
            },
        }
    }

    /// A ranked handle is one the store issued.
    proof fn lemma_member_is_handle(self, v: usize)
        requires
            self.wf(),
            self.items@.contains(v),
        ensures
            v < self.node_payloads@.len(),
    {
        let i = choose|i: int| 0 <= i < self.items@.len() && self.items@[i] == v;
        assert(self.items@[i] < self.node_payloads@.len());
    }

    /// A ranked handle sits at its own rank.
    proof fn lemma_rank_valid(self, v: usize)
        requires
            self.items@.contains(v),
        ensures
            0 <= self.rank_spec(v) < self.items@.len(),
            self.items@[self.rank_spec(v)] == v,
    {
        assert(self.items@.contains(v));
    }

    /// Invariant of the shared insertion state during the two searches: both
    /// delta sets are duplicate-free ranked vertices inside the affected
    /// region, they are disjoint, and the visited map marks exactly their
    /// union.
    spec fn dfs_inv(self, st: InsertState) -> bool {
        &&& st.lb < st.ub
        &&& (st.ub as int) < self.items@.len()
        &&& st.visited@.len() == self.node_payloads@.len()
        &&& st.delta_f@.no_duplicates()
        &&& st.delta_b@.no_duplicates()
        &&& forall|i: int|
            0 <= i < st.delta_f@.len() ==> self.items@.contains(#[trigger] st.delta_f@[i])
        &&& forall|i: int|
            0 <= i < st.delta_b@.len() ==> self.items@.contains(#[trigger] st.delta_b@[i])
        &&& forall|i: int|
            0 <= i < st.delta_f@.len() ==> st.lb as int <= self.rank_spec(#[trigger] st.delta_f@[i])
                && self.rank_spec(st.delta_f@[i]) < st.ub as int
        &&& forall|i: int|
            0 <= i < st.delta_b@.len() ==> (st.lb as int) < self.rank_spec(#[trigger] st.delta_b@[i])
                && self.rank_spec(st.delta_b@[i]) <= st.ub as int
        &&& forall|v: usize| st.delta_f@.contains(v) ==> !st.delta_b@.contains(v)
        &&& forall|h: usize|
            h < st.visited@.len() ==> (#[trigger] st.visited@[h as int] <==> (st.delta_f@.contains(
                h,
            ) || st.delta_b@.contains(h)))
    }

    /// Forward closure: no member of the forward set has a successor at rank
    /// `ub`, and every successor below rank `ub` is itself in the set.
    spec fn f_closed(self, st: InsertState) -> bool {
        forall|k: int|
            0 <= k < self.edge_list@.len() && st.delta_f@.contains(
                (#[trigger] self.edge_list@[k]).0,
            ) ==> self.rank_spec(self.edge_list@[k].1) != st.ub as int && (self.rank_spec(
                self.edge_list@[k].1,
            ) < st.ub as int ==> st.delta_f@.contains(self.edge_list@[k].1))
    }

    /// Backward closure: every predecessor of a member of the backward set
    /// with rank above `lb` is itself in the set.
    spec fn b_closed(self, st: InsertState) -> bool {
        forall|k: int|
            0 <= k < self.edge_list@.len() && st.delta_b@.contains(
                (#[trigger] self.edge_list@[k]).1,
            ) && (st.lb as int) < self.rank_spec(self.edge_list@[k].0) ==> st.delta_b@.contains(
                self.edge_list@[k].0,
            )
    }

    /// Any walk that starts in the forward set and ends below rank `ub` runs
    /// wholly inside the forward set: the closure property, unrolled along a
    /// path.
    proof fn lemma_forward_walk_collected(self, st: InsertState, p: Seq<usize>)
        requires
            self.wf(),
            self.dfs_inv(st),
            self.f_closed(st),
            p.len() >= 1,
            is_path(self.edge_list@, p),
            st.delta_f@.contains(p.first()),
            self.rank_spec(p.last()) < st.ub as int,
        ensures
            st.delta_f@.contains(p.last()),
        decreases p.len(),
    {
        if p.len() > 1 {
            let n = p.len() as int;
            assert(self.edge_list@.contains((p[n - 2], p[n - 1])));
            let k = choose|k: int|
                0 <= k < self.edge_list@.len() && self.edge_list@[k] == (p[n - 2], p[n - 1]);
            assert(self.rank_spec(self.edge_list@[k].0) < self.rank_spec(self.edge_list@[k].1));
            let q = p.drop_last();
            assert forall|i: int| 0 <= i < q.len() - 1 implies self.edge_list@.contains(
                ((#[trigger] q[i]), q[i + 1]),
            ) by {
                assert(q[i] == p[i] && q[i + 1] == p[i + 1]);
            }
            assert(q.first() == p.first());
            assert(q.last() == p[n - 2]);
            assert(self.rank_spec(q.last()) < st.ub as int);
            self.lemma_forward_walk_collected(st, q);
            assert(st.delta_f@.contains(self.edge_list@[k].0));
        }
    }

    /// Any walk that ends in the backward set and starts above rank `lb`
    /// runs wholly inside the backward set.
    proof fn lemma_backward_walk_collected(self, st: InsertState, p: Seq<usize>)
        requires
            self.wf(),
            self.dfs_inv(st),
            self.b_closed(st),
            p.len() >= 1,
            is_path(self.edge_list@, p),
            st.delta_b@.contains(p.last()),
            (st.lb as int) < self.rank_spec(p.first()),
        ensures
            st.delta_b@.contains(p.first()),
        decreases p.len(),
    {
        if p.len() > 1 {
            assert(self.edge_list@.contains((p[0], p[1])));
            let k = choose|k: int|
                0 <= k < self.edge_list@.len() && self.edge_list@[k] == (p[0], p[1]);
            assert(self.rank_spec(self.edge_list@[k].0) < self.rank_spec(self.edge_list@[k].1));
            let q = p.drop_first();
            assert forall|i: int| 0 <= i < q.len() - 1 implies self.edge_list@.contains(
                ((#[trigger] q[i]), q[i + 1]),
            ) by {
                assert(q[i] == p[i + 1] && q[i + 1] == p[i + 2]);
            }
            assert(q.first() == p[1]);
            assert(q.last() == p.last());
            assert((st.lb as int) < self.rank_spec(q.first()));
            self.lemma_backward_walk_collected(st, q);
            assert(st.delta_b@.contains(self.edge_list@[k].1));
        }
    }

    /// The forward set of an attempted insertion `x -> y`, named by
    /// reachability: the vertices reachable from `y` that rank below `x`.
    pub open spec fn forward_of(self, x: usize, y: usize, v: usize) -> bool {
        reaches(self.edge_list@, y, v) && self.rank_spec(v) < self.rank_spec(x)
    }

    /// The backward set of an attempted insertion `x -> y`: the vertices
    /// that reach `x` and rank above `y`.
    pub open spec fn backward_of(self, x: usize, y: usize, v: usize) -> bool {
        reaches(self.edge_list@, v, x) && self.rank_spec(v) > self.rank_spec(y)
    }

    /// Where every vertex stands after a successful insertion `x -> y` that
    /// needed reordering, with `self` the engine before the call and
    /// `items1` the rank table after it: a vertex in neither reachability
    /// set keeps its rank; the pool of ranks the two sets occupied is reused
    /// by the two sets; every backward vertex lands below every forward one;
    /// and each set keeps its internal rank order.
    #[verifier::opaque]
    pub open spec fn placed_for_insertion(self, items1: Seq<usize>, x: usize, y: usize) -> bool {
        &&& forall|p: int|
            0 <= p < self.items@.len() && !self.backward_of(x, y, #[trigger] self.items@[p])
                && !self.forward_of(x, y, self.items@[p]) ==> items1[p] == self.items@[p]
        &&& forall|p: int|
            0 <= p < self.items@.len() && (self.backward_of(x, y, #[trigger] self.items@[p])
                || self.forward_of(x, y, self.items@[p])) ==> (self.backward_of(x, y, items1[p])
                || self.forward_of(x, y, items1[p]))
        &&& forall|a: usize, b: usize|
            self.backward_of(x, y, a) && self.forward_of(x, y, b) ==> items1.index_of(a)
                < items1.index_of(b)
        &&& forall|a: usize, b: usize|
            self.backward_of(x, y, a) && self.backward_of(x, y, b) && self.items@.index_of(a)
                < self.items@.index_of(b) ==> items1.index_of(a) < items1.index_of(b)
        &&& forall|a: usize, b: usize|
            self.forward_of(x, y, a) && self.forward_of(x, y, b) && self.items@.index_of(a)
                < self.items@.index_of(b) ==> items1.index_of(a) < items1.index_of(b)
    }

    /// The two searched sets are exactly the reachability sets of the
    /// insertion, so the reassignment facts, stated over the searched sets,
    /// hold verbatim over the reachability sets.
    #[verifier::rlimit(100)]
    proof fn lemma_insertion_placement(
        self,
        st: InsertState,
        x: usize,
        y: usize,
        items1: Seq<usize>,
    )
        requires
            self.wf(),
            self.dfs_inv(st),
            self.f_closed(st),
            self.b_closed(st),
            st.delta_f@.contains(y),
            st.delta_b@.contains(x),
            self.items@.contains(x),
            self.items@.contains(y),
            self.rank_spec(x) == st.ub as int,
            self.rank_spec(y) == st.lb as int,
            forall|i: int|
                0 <= i < st.delta_f@.len() ==> reaches(
                    self.edge_list@,
                    y,
                    #[trigger] st.delta_f@[i],
                ),
            forall|i: int|
                0 <= i < st.delta_b@.len() ==> reaches(
                    self.edge_list@,
                    #[trigger] st.delta_b@[i],
                    x,
                ),
            items1.len() == self.items@.len(),
            forall|a: usize, b: usize|
                st.delta_b@.contains(a) && st.delta_f@.contains(b) ==> items1.index_of(a)
                    < items1.index_of(b),
            forall|a: usize, b: usize|
                st.delta_b@.contains(a) && st.delta_b@.contains(b) && self.items@.index_of(a)
                    < self.items@.index_of(b) ==> items1.index_of(a) < items1.index_of(b),
            forall|a: usize, b: usize|
                st.delta_f@.contains(a) && st.delta_f@.contains(b) && self.items@.index_of(a)
                    < self.items@.index_of(b) ==> items1.index_of(a) < items1.index_of(b),
            forall|p: int|
                0 <= p < self.items@.len() && !st.delta_b@.contains(#[trigger] self.items@[p])
                    && !st.delta_f@.contains(self.items@[p]) ==> items1[p] == self.items@[p],
            forall|p: int|
                0 <= p < self.items@.len() && (st.delta_b@.contains(#[trigger] self.items@[p])
                    || st.delta_f@.contains(self.items@[p])) ==> (st.delta_b@.contains(
                    items1[p],
                ) || st.delta_f@.contains(items1[p])),
        ensures
            forall|v: usize| #[trigger] st.delta_f@.contains(v) <==> self.forward_of(x, y, v),
            forall|v: usize| #[trigger] st.delta_b@.contains(v) <==> self.backward_of(x, y, v),
            self.placed_for_insertion(items1, x, y),
    {
        assert forall|v: usize| #[trigger] st.delta_f@.contains(v) <==> self.forward_of(
            x,
            y,
            v,
        ) by {
            if st.delta_f@.contains(v) {
                let i = choose|i: int| 0 <= i < st.delta_f@.len() && st.delta_f@[i] == v;
                assert(reaches(self.edge_list@, y, st.delta_f@[i]));
                assert(self.rank_spec(st.delta_f@[i]) < st.ub as int);
            }
            if self.forward_of(x, y, v) {
                let p = choose|p: Seq<usize>|
                    p.len() >= 1 && p.first() == y && p.last() == v && #[trigger] is_path(
                        self.edge_list@,
                        p,
                    );
                self.lemma_forward_walk_collected(st, p);
            }
        }
        assert forall|v: usize| #[trigger] st.delta_b@.contains(v) <==> self.backward_of(
            x,
            y,
            v,
        ) by {
            if st.delta_b@.contains(v) {
                let i = choose|i: int| 0 <= i < st.delta_b@.len() && st.delta_b@[i] == v;
                assert(reaches(self.edge_list@, st.delta_b@[i], x));
                assert((st.lb as int) < self.rank_spec(st.delta_b@[i]));
            }
            if self.backward_of(x, y, v) {
                let p = choose|p: Seq<usize>|
                    p.len() >= 1 && p.first() == v && p.last() == x && #[trigger] is_path(
                        self.edge_list@,
                        p,
                    );
                self.lemma_backward_walk_collected(st, p);
            }
        }
        assert forall|p: int|
            0 <= p < self.items@.len() && !self.backward_of(x, y, #[trigger] self.items@[p])
                && !self.forward_of(x, y, self.items@[p]) implies items1[p]
            == self.items@[p] by {
            assert(!st.delta_b@.contains(self.items@[p]));
            assert(!st.delta_f@.contains(self.items@[p]));
        }
        assert forall|p: int|
            0 <= p < self.items@.len() && (self.backward_of(x, y, #[trigger] self.items@[p])
                || self.forward_of(x, y, self.items@[p])) implies (self.backward_of(
            x,
            y,
            items1[p],
        ) || self.forward_of(x, y, items1[p])) by {
            assert(st.delta_b@.contains(self.items@[p]) || st.delta_f@.contains(
                self.items@[p],
            ));
            assert(st.delta_b@.contains(items1[p]) || st.delta_f@.contains(items1[p]));
        }
        assert forall|a: usize, b: usize|
            self.backward_of(x, y, a) && self.forward_of(x, y, b) implies items1.index_of(a)
            < items1.index_of(b) by {
            assert(st.delta_b@.contains(a));
            assert(st.delta_f@.contains(b));
        }
        assert forall|a: usize, b: usize|
            self.backward_of(x, y, a) && self.backward_of(x, y, b) && self.items@.index_of(a)
                < self.items@.index_of(b) implies items1.index_of(a) < items1.index_of(b) by {
            assert(st.delta_b@.contains(a));
            assert(st.delta_b@.contains(b));
        }
        assert forall|a: usize, b: usize|
            self.forward_of(x, y, a) && self.forward_of(x, y, b) && self.items@.index_of(a)
                < self.items@.index_of(b) implies items1.index_of(a) < items1.index_of(b) by {
            assert(st.delta_f@.contains(a));
            assert(st.delta_f@.contains(b));
        }
        reveal(ToplogicalOrdering::placed_for_insertion);
    }

    /// Forward search from `start`, the new edge's target: collect into
    /// `delta_f` every vertex reachable from it whose rank stays below `ub`,
    /// or report `CycleDetected` as soon as a successor already holds rank
    /// `ub`.
    fn dfs_f(&self, state: &mut InsertState, start: usize) -> (r: Result<
        (),
        TopologicalOrderingError,
    >)
        requires
            self.wf(),
            self.dfs_inv(*old(state)),
            old(state).delta_f@.len() == 0,
            old(state).delta_b@.len() == 0,
            self.items@.contains(start),
            self.rank_spec(start) == old(state).lb as int,
        ensures
            self.dfs_inv(*final(state)),
            final(state).lb == old(state).lb,
            final(state).ub == old(state).ub,
            final(state).delta_b@ == old(state).delta_b@,
            forall|i: int|
                0 <= i < final(state).delta_f@.len() ==> reaches(
                    self.edge_list@,
                    start,
                    #[trigger] final(state).delta_f@[i],
                ),
            match r {
                Ok(()) => final(state).delta_f@.contains(start) && self.f_closed(*final(state)),
                Err(e) => e == TopologicalOrderingError::CycleDetected && (exists|k: int|
                    0 <= k < self.edge_list@.len() && self.rank_spec(
                        (#[trigger] self.edge_list@[k]).1,
                    ) == old(state).ub as int) && (exists|w: usize|
                    self.items@.contains(w) && #[trigger] self.rank_spec(w) == old(
                        state,
                    ).ub as int && reaches(self.edge_list@, start, w)),
            },
    {
        proof {
            self.lemma_member_is_handle(start);
            self.lemma_rank_valid(start);
        }
        let ghost vis0 = state.visited@;
        state.visited.set(start, true);
        state.delta_f.push(start);
        proof {
            assert(state.delta_f@.contains(start));
            lemma_reaches_refl(self.edge_list@, start);
            assert(state.delta_f@[0] == start);
            assert forall|h: usize|
                h < state.visited@.len() implies ((#[trigger] state.visited@[h as int]) <==> (
            state.delta_f@.contains(h) || state.delta_b@.contains(h))) by {
                if h != start {
                    assert(state.visited@[h as int] == vis0[h as int]);
                }
            }
        }
        let mut stack: Vec<usize> = Vec::new();
        stack.push(start);
        while stack.len() > 0
            invariant
                self.wf(),
                self.dfs_inv(*state),
                state.lb == old(state).lb,
                state.ub == old(state).ub,
                state.delta_b@ == old(state).delta_b@,
                state.delta_b@.len() == 0,
                state.delta_f@.contains(start),
                forall|i: int|
                    0 <= i < state.delta_f@.len() ==> reaches(
                        self.edge_list@,
                        start,
                        #[trigger] state.delta_f@[i],
                    ),
                forall|i: int|
                    0 <= i < stack@.len() ==> state.delta_f@.contains(#[trigger] stack@[i]),
                forall|k: int|
                    0 <= k < self.edge_list@.len() && state.delta_f@.contains(
                        (#[trigger] self.edge_list@[k]).0,
                    ) && !stack@.contains(self.edge_list@[k].0) ==> self.rank_spec(
                        self.edge_list@[k].1,
                    ) != state.ub as int && (self.rank_spec(self.edge_list@[k].1) < state.ub as int
                        ==> state.delta_f@.contains(self.edge_list@[k].1)),
            decreases count_false(state.visited@), stack@.len(),
        {
            let ghost cf_at_pop = count_false(state.visited@);
            let ghost stack_before = stack@.len();
            let ghost stack_pre = stack@;
            let n = stack.pop().unwrap();
            proof {
                assert(state.delta_f@.contains(n));
                self.lemma_member_is_handle(n);
                assert(stack@ == stack_pre.drop_last());
                assert forall|v: usize| stack_pre.contains(v) implies (stack@.contains(v) || v
                    == n) by {
                    let i = choose|i: int| 0 <= i < stack_pre.len() && stack_pre[i] == v;
                    if i < stack_pre.len() - 1 {
                        assert(stack@[i] == v);
                    }
                }
            }
            let neigh = graph_neighbors_out(&self.store, n);
            let mut j: usize = 0;
            while j < neigh.len()
                invariant
                    self.wf(),
                    self.dfs_inv(*state),
                    state.lb == old(state).lb,
                    state.ub == old(state).ub,
                    state.delta_b@ == old(state).delta_b@,
                    state.delta_b@.len() == 0,
                    state.delta_f@.contains(start),
                    state.delta_f@.contains(n),
                    j <= neigh@.len(),
                    forall|i: int|
                        0 <= i < state.delta_f@.len() ==> reaches(
                            self.edge_list@,
                            start,
                            #[trigger] state.delta_f@[i],
                        ),
                    forall|i: int|
                        0 <= i < stack@.len() ==> state.delta_f@.contains(#[trigger] stack@[i]),
                    forall|i: int|
                        0 <= i < neigh@.len() ==> store_edges(self.store).contains(
                            (n as int, #[trigger] neigh@[i] as int),
                        ),
                    forall|k: int|
                        0 <= k < store_edges(self.store).len() && (#[trigger] store_edges(
                            self.store,
                        )[k]).0 == n as int ==> exists|i: int|
                            0 <= i < neigh@.len() && neigh@[i] as int == store_edges(
                                self.store,
                            )[k].1,
                    forall|i: int|
                        0 <= i < j ==> self.rank_spec(#[trigger] neigh@[i]) != state.ub as int && (
                        self.rank_spec(neigh@[i]) < state.ub as int ==> state.delta_f@.contains(
                            neigh@[i],
                        )),
                    forall|k: int|
                        0 <= k < self.edge_list@.len() && state.delta_f@.contains(
                            (#[trigger] self.edge_list@[k]).0,
                        ) && !stack@.contains(self.edge_list@[k].0) && self.edge_list@[k].0 != n
                            ==> self.rank_spec(self.edge_list@[k].1) != state.ub as int && (
                        self.rank_spec(self.edge_list@[k].1) < state.ub as int
                            ==> state.delta_f@.contains(self.edge_list@[k].1)),
                    count_false(state.visited@) <= cf_at_pop,
                    count_false(state.visited@) == cf_at_pop ==> stack@.len() == stack_before - 1,
                decreases neigh@.len() - j,
            {
                let w = neigh[j];
                proof {
                    self.lemma_store_edge_members(n as int, w as int);
                    let k = choose|k: int|
                        0 <= k < self.edge_list@.len() && (#[trigger] self.edge_list@[k]).0 as int
                            == n as int && self.edge_list@[k].1 as int == w as int;
                    assert(self.items@.contains(w));
                    self.lemma_member_is_handle(w);
                    self.lemma_rank_valid(w);
                }
                let rw = match self.rank(w) {
                    Ok(v) => v,
                    Err(_) => {
                        proof {
                            assert(false);
                        }
                        return Err(TopologicalOrderingError::CycleDetected);
                    },
                };
                proof {
                    lemma_position_of(self.items@, rw as int);
                }
                if rw == state.ub {
                    proof {
                        let k = choose|k: int|
                            0 <= k < self.edge_list@.len() && (#[trigger] self.edge_list@[k]).0
                                as int == n as int && self.edge_list@[k].1 as int == w as int;
                        assert(self.rank_spec(self.edge_list@[k].1) == old(state).ub as int);
                        let ni = choose|ni: int|
                            0 <= ni < state.delta_f@.len() && state.delta_f@[ni] == n;
                        assert(reaches(self.edge_list@, start, state.delta_f@[ni]));
                        assert(self.edge_list@.contains((n, w)));
                        lemma_reaches_step(self.edge_list@, start, n, w);
                        assert(self.rank_spec(w) == old(state).ub as int);
                    }
                    return Err(TopologicalOrderingError::CycleDetected);
                }
                if !state.visited[w] && rw < state.ub {
                    proof {
                        lemma_count_false_set_true(state.visited@, w as int);
                        assert(!state.delta_f@.contains(w));
                        let k = choose|k: int|
                            0 <= k < self.edge_list@.len() && (#[trigger] self.edge_list@[k]).0
                                as int == n as int && self.edge_list@[k].1 as int == w as int;
                        assert(self.rank_spec(self.edge_list@[k].0) < self.rank_spec(
                            self.edge_list@[k].1,
                        ));
                        assert(state.lb as int <= self.rank_spec(n));
                        assert((state.lb as int) < self.rank_spec(w));
                        let ni = choose|ni: int|
                            0 <= ni < state.delta_f@.len() && state.delta_f@[ni] == n;
                        assert(reaches(self.edge_list@, start, state.delta_f@[ni]));
                        assert(self.edge_list@.contains((n, w)));
                        lemma_reaches_step(self.edge_list@, start, n, w);
                    }
                    let ghost df_pre = state.delta_f@;
                    let ghost vis_pre = state.visited@;
                    state.visited.set(w, true);
                    state.delta_f.push(w);
                    stack.push(w);
                    proof {
                        lemma_index_of_push(df_pre, w);
                        assert forall|h: usize|
                            h < state.visited@.len() implies ((#[trigger] state.visited@[h as int])
                            <==> (state.delta_f@.contains(h) || state.delta_b@.contains(
                            h,
                        ))) by {
                            if h != w {
                                assert(state.visited@[h as int] == vis_pre[h as int]);
                            }
                        }
                    }
                }
                j += 1;
            }
            proof {
                assert forall|k: int|
                    0 <= k < self.edge_list@.len() && state.delta_f@.contains(
                        (#[trigger] self.edge_list@[k]).0,
                    ) && !stack@.contains(self.edge_list@[k].0) implies self.rank_spec(
                    self.edge_list@[k].1,
                ) != state.ub as int && (self.rank_spec(self.edge_list@[k].1) < state.ub as int
                    ==> state.delta_f@.contains(self.edge_list@[k].1)) by {
                    if self.edge_list@[k].0 == n {
                        self.lemma_list_edge_in_store(k);
                        let kk = choose|kk: int|
                            0 <= kk < store_edges(self.store).len() && store_edges(self.store)[kk]
                                == (self.edge_list@[k].0 as int, self.edge_list@[k].1 as int);
                        let i = choose|i: int|
                            0 <= i < neigh@.len() && neigh@[i] as int == store_edges(
                                self.store,
                            )[kk].1;
                        assert(neigh@[i] == self.edge_list@[k].1);
                        assert(self.rank_spec(neigh@[i]) != state.ub as int);
                    }
                }
            }
        }
        Ok(())
    }

    /// Backward search from `start`, the new edge's source: collect into
    /// `delta_b` every vertex that reaches it along edges whose tail rank
    /// stays above `lb`.
    fn dfs_b(&self, state: &mut InsertState, start: usize) -> (r: Result<
        (),
        TopologicalOrderingError,
    >)
        requires
            self.wf(),
            self.dfs_inv(*old(state)),
            self.f_closed(*old(state)),
            old(state).delta_b@.len() == 0,
            self.items@.contains(start),
            self.rank_spec(start) == old(state).ub as int,
        ensures
            self.dfs_inv(*final(state)),
            final(state).lb == old(state).lb,
            final(state).ub == old(state).ub,
            final(state).delta_f@ == old(state).delta_f@,
            self.f_closed(*final(state)),
            self.b_closed(*final(state)),
            final(state).delta_b@.contains(start),
            forall|i: int|
                0 <= i < final(state).delta_b@.len() ==> reaches(
                    self.edge_list@,
                    #[trigger] final(state).delta_b@[i],
                    start,
                ),
            r == Ok::<(), TopologicalOrderingError>(()),
    {
        proof {
            self.lemma_member_is_handle(start);
            self.lemma_rank_valid(start);
            assert(!state.delta_f@.contains(start));
            assert(!state.visited@[start as int]);
        }
        let ghost vis0 = state.visited@;
        state.visited.set(start, true);
        state.delta_b.push(start);
        proof {
            assert(state.delta_b@.contains(start));
            lemma_reaches_refl(self.edge_list@, start);
            assert(state.delta_b@[0] == start);
            assert forall|h: usize|
                h < state.visited@.len() implies ((#[trigger] state.visited@[h as int]) <==> (
            state.delta_f@.contains(h) || state.delta_b@.contains(h))) by {
                if h != start {
                    assert(state.visited@[h as int] == vis0[h as int]);
                }
            }
        }
        let mut stack: Vec<usize> = Vec::new();
        stack.push(start);
        while stack.len() > 0
            invariant
                self.wf(),
                self.dfs_inv(*state),
                state.lb == old(state).lb,
                state.ub == old(state).ub,
                state.delta_f@ == old(state).delta_f@,
                self.f_closed(*state),
                state.delta_b@.contains(start),
                forall|i: int|
                    0 <= i < state.delta_b@.len() ==> reaches(
                        self.edge_list@,
                        #[trigger] state.delta_b@[i],
                        start,
                    ),
                forall|i: int|
                    0 <= i < stack@.len() ==> state.delta_b@.contains(#[trigger] stack@[i]),
                forall|k: int|
                    0 <= k < self.edge_list@.len() && state.delta_b@.contains(
                        (#[trigger] self.edge_list@[k]).1,
                    ) && !stack@.contains(self.edge_list@[k].1) && (state.lb as int) < self.rank_spec(
                        self.edge_list@[k].0,
                    ) ==> state.delta_b@.contains(self.edge_list@[k].0),
            decreases count_false(state.visited@), stack@.len(),
        {
            let ghost cf_at_pop = count_false(state.visited@);
            let ghost stack_before = stack@.len();
            let ghost stack_pre = stack@;
            let n = stack.pop().unwrap();
            proof {
                assert(state.delta_b@.contains(n));
                self.lemma_member_is_handle(n);
                assert(stack@ == stack_pre.drop_last());
                assert forall|v: usize| stack_pre.contains(v) implies (stack@.contains(v) || v
                    == n) by {
                    let i = choose|i: int| 0 <= i < stack_pre.len() && stack_pre[i] == v;
                    if i < stack_pre.len() - 1 {
                        assert(stack@[i] == v);
                    }
                }
            }
            let neigh = graph_neighbors_in(&self.store, n);
            let mut j: usize = 0;
            while j < neigh.len()
                invariant
                    self.wf(),
                    self.dfs_inv(*state),
                    state.lb == old(state).lb,
                    state.ub == old(state).ub,
                    state.delta_f@ == old(state).delta_f@,
                    self.f_closed(*state),
                    state.delta_b@.contains(start),
                    state.delta_b@.contains(n),
                    j <= neigh@.len(),
                    forall|i: int|
                        0 <= i < state.delta_b@.len() ==> reaches(
                            self.edge_list@,
                            #[trigger] state.delta_b@[i],
                            start,
                        ),
                    forall|i: int|
                        0 <= i < stack@.len() ==> state.delta_b@.contains(#[trigger] stack@[i]),
                    forall|i: int|
                        0 <= i < neigh@.len() ==> store_edges(self.store).contains(
                            (#[trigger] neigh@[i] as int, n as int),
                        ),
                    forall|k: int|
                        0 <= k < store_edges(self.store).len() && (#[trigger] store_edges(
                            self.store,
                        )[k]).1 == n as int ==> exists|i: int|
                            0 <= i < neigh@.len() && neigh@[i] as int == store_edges(
                                self.store,
                            )[k].0,
                    forall|i: int|
                        0 <= i < j && (state.lb as int) < self.rank_spec(#[trigger] neigh@[i])
                            ==> state.delta_b@.contains(neigh@[i]),
                    forall|k: int|
                        0 <= k < self.edge_list@.len() && state.delta_b@.contains(
                            (#[trigger] self.edge_list@[k]).1,
                        ) && !stack@.contains(self.edge_list@[k].1) && self.edge_list@[k].1 != n
                            && (state.lb as int) < self.rank_spec(self.edge_list@[k].0)
                            ==> state.delta_b@.contains(self.edge_list@[k].0),
                    count_false(state.visited@) <= cf_at_pop,
                    count_false(state.visited@) == cf_at_pop ==> stack@.len() == stack_before - 1,
                decreases neigh@.len() - j,
            {
                let w = neigh[j];
                proof {
                    self.lemma_store_edge_members(w as int, n as int);
                    let k = choose|k: int|
                        0 <= k < self.edge_list@.len() && (#[trigger] self.edge_list@[k]).0 as int
                            == w as int && self.edge_list@[k].1 as int == n as int;
                    assert(self.items@.contains(w));
                    self.lemma_member_is_handle(w);
                    self.lemma_rank_valid(w);
                }
                let rw = match self.rank(w) {
                    Ok(v) => v,
                    Err(_) => {
                        proof {
                            assert(false);
                        }
                        return Err(TopologicalOrderingError::CycleDetected);
                    },
                };
                proof {
                    lemma_position_of(self.items@, rw as int);
                }
                if !state.visited[w] && state.lb < rw {
                    proof {
                        lemma_count_false_set_true(state.visited@, w as int);
                        assert(!state.delta_b@.contains(w));
                        assert(!state.delta_f@.contains(w));
                        let k = choose|k: int|
                            0 <= k < self.edge_list@.len() && (#[trigger] self.edge_list@[k]).0
                                as int == w as int && self.edge_list@[k].1 as int == n as int;
                        assert(self.rank_spec(self.edge_list@[k].0) < self.rank_spec(
                            self.edge_list@[k].1,
                        ));
                        assert(self.rank_spec(n) <= state.ub as int);
                        assert(self.rank_spec(w) < state.ub as int);
                        let ni = choose|ni: int|
                            0 <= ni < state.delta_b@.len() && state.delta_b@[ni] == n;
                        assert(reaches(self.edge_list@, state.delta_b@[ni], start));
                        assert(self.edge_list@.contains((w, n)));
                        lemma_reaches_front(self.edge_list@, w, n, start);
                    }
                    let ghost db_pre = state.delta_b@;
                    let ghost vis_pre = state.visited@;
                    state.visited.set(w, true);
                    state.delta_b.push(w);
                    stack.push(w);
                    proof {
                        lemma_index_of_push(db_pre, w);
                        assert forall|h: usize|
                            h < state.visited@.len() implies ((#[trigger] state.visited@[h as int])
                            <==> (state.delta_f@.contains(h) || state.delta_b@.contains(
                            h,
                        ))) by {
                            if h != w {
                                assert(state.visited@[h as int] == vis_pre[h as int]);
                            }
                        }
                    }
                } else {
                    proof {
                        if state.lb < rw {
                            assert(state.visited@[w as int]);
                            if state.delta_f@.contains(w) {
                                let k = choose|k: int|
                                    0 <= k < self.edge_list@.len() && (
                                    #[trigger] self.edge_list@[k]).0 as int == w as int
                                        && self.edge_list@[k].1 as int == n as int;
                                assert(self.rank_spec(self.edge_list@[k].1) != state.ub as int);
                                assert(self.rank_spec(n) <= state.ub as int);
                                assert(self.rank_spec(n) < state.ub as int);
                                assert(state.delta_f@.contains(n));
                                assert(!state.delta_b@.contains(n));
                                assert(false);
                            }
                            assert(state.delta_b@.contains(w));
                        }
                    }
                }
                j += 1;
            }
            proof {
                assert forall|k: int|
                    0 <= k < self.edge_list@.len() && state.delta_b@.contains(
                        (#[trigger] self.edge_list@[k]).1,
                    ) && !stack@.contains(self.edge_list@[k].1) && (state.lb as int) < self.rank_spec(
                    self.edge_list@[k].0,
                ) implies state.delta_b@.contains(self.edge_list@[k].0) by {
                    if self.edge_list@[k].1 == n {
                        self.lemma_list_edge_in_store(k);
                        let kk = choose|kk: int|
                            0 <= kk < store_edges(self.store).len() && store_edges(self.store)[kk]
                                == (self.edge_list@[k].0 as int, self.edge_list@[k].1 as int);
                        let i = choose|i: int|
                            0 <= i < neigh@.len() && neigh@[i] as int == store_edges(
                                self.store,
                            )[kk].0;
                        assert(neigh@[i] == self.edge_list@[k].0);
                    }
                }
            }
        }
        Ok(())
    }

    /// Reorder `delta` so its handles appear by ascending current rank,
    /// scanning the rank table from rank zero upward.
    fn sort_by_current_rank(&self, delta: &mut Vec<usize>)
        requires
            self.items@.no_duplicates(),
            old(delta)@.no_duplicates(),
            forall|i: int|
                0 <= i < old(delta)@.len() ==> self.items@.contains(#[trigger] old(delta)@[i]),
        ensures
            final(delta)@.no_duplicates(),
            final(delta)@.len() == old(delta)@.len(),
            forall|v: usize| final(delta)@.contains(v) <==> old(delta)@.contains(v),
            forall|i: int, j: int|
                0 <= i < j < final(delta)@.len() ==> self.rank_spec(final(delta)@[i])
                    < self.rank_spec(final(delta)@[j]),
            forall|i: int|
                0 <= i < final(delta)@.len() ==> self.items@.contains(#[trigger] final(delta)@[i]),
    {
        let mut out: Vec<usize> = Vec::new();
        let mut p: usize = 0;
        while p < self.items.len()
            invariant
                self.items@.no_duplicates(),
                delta@ == old(delta)@,
                delta@.no_duplicates(),
                forall|i: int| 0 <= i < delta@.len() ==> self.items@.contains(#[trigger] delta@[i]),
                p <= self.items@.len(),
                out@.no_duplicates(),
                forall|i: int| 0 <= i < out@.len() ==> delta@.contains(#[trigger] out@[i]),
                forall|i: int|
                    0 <= i < out@.len() ==> self.items@.contains(#[trigger] out@[i])
                        && self.rank_spec(out@[i]) < p,
                forall|i: int, j: int|
                    0 <= i < j < out@.len() ==> self.rank_spec(out@[i]) < self.rank_spec(out@[j]),
                forall|v: usize| delta@.contains(v) && self.rank_spec(v) < p ==> out@.contains(v),
            decreases self.items@.len() - p,
        {
            let v = self.items[p];
            proof {
                lemma_position_of(self.items@, p as int);
            }
            if vec_contains(delta, v) {
                out.push(v);
            }
            proof {
                assert forall|vv: usize|
                    delta@.contains(vv) && self.rank_spec(vv) < p + 1 implies out@.contains(
                    vv,
                ) by {
                    if self.rank_spec(vv) == p as int {
                        assert(self.items@.contains(vv));
                        self.lemma_rank_valid(vv);
                        assert(vv == v);
                    }
                }
            }
            p += 1;
        }
        proof {
            assert forall|v: usize| delta@.contains(v) implies out@.contains(v) by {
                assert(self.items@.contains(v));
                self.lemma_rank_valid(v);
            }
            lemma_same_members_same_multiset(out@, delta@);
        }
        *delta = out;
    }

    /// Rank `item` if it is not ranked yet, appending it at the tail; return
    /// its rank either way.
    fn ensure_rank(&mut self, item: usize) -> (ix: usize)
        requires
            old(self).wf(),
            item < old(self).node_payloads@.len(),
        ensures
            final(self).wf(),
            final(self).node_payloads@ == old(self).node_payloads@,
            final(self).edge_list@ == old(self).edge_list@,
            final(self).edge_payloads@ == old(self).edge_payloads@,
            final(self).store == old(self).store,
            ix < final(self).items@.len() && final(self).items@[ix as int] == item,
            ix == final(self).rank_spec(item),
            old(self).items@.contains(item) ==> final(self).items@ == old(self).items@,
            old(self).items@.contains(item) ==> *final(self) == *old(self),
            !old(self).items@.contains(item) ==> final(self).items@ == old(self).items@.push(item)
                && ix == old(self).items@.len(),
            forall|v: usize|
                old(self).items@.contains(v) ==> final(self).items@.contains(v)
                    && final(self).rank_spec(v) == old(self).rank_spec(v),
            forall|v: usize|
                final(self).items@.contains(v) <==> (old(self).items@.contains(v) || v == item),
    {
        match self.rank(item) {
            Ok(ix) => {
                proof {
                    lemma_position_of(self.items@, ix as int);
                }
                ix
            },
            Err(_) => {
                let ix = self.items.len();
                self.items.push(item);
                proof {
                    let s0 = old(self).items@;
                    assert(self.items@ == s0.push(item));
                    lemma_index_of_push(s0, item);
                    assert(self.items@.index_of(item) == s0.len());
                    assert(self.items@[ix as int] == item);
                    assert forall|v: usize| s0.contains(v) implies self.items@.contains(v)
                        && self.items@.index_of(v) == s0.index_of(v) by {
                        let j = s0.index_of(v);
                        assert(0 <= j < s0.len() && s0[j] == v);
                        assert(self.items@[j] == v);
                        assert(s0.push(item).index_of(v) == s0.index_of(v));
                    }
                    assert forall|v: usize| self.items@.contains(v) implies (s0.contains(v) || v
                        == item) by {
                        let j = choose|j: int|
                            0 <= j < self.items@.len() && self.items@[j] == v;
                        if j < s0.len() {
                            assert(s0[j] == v);
                        }
                    }
                    assert forall|k: int|
                        0 <= k < self.edge_list@.len() implies self.rank_spec(
                        (#[trigger] self.edge_list@[k]).0,
                    ) < self.rank_spec(self.edge_list@[k].1) by {
                        assert(s0.contains(self.edge_list@[k].0));
                        assert(s0.contains(self.edge_list@[k].1));
                    }
                }
                ix
            },
        }
    }

    /// The affected-region work of one insertion `x -> y`, entered with
    /// `rank(y) == lb < ub == rank(x)`: both searches and, when no cycle is
    /// found, the reorder. On success `x` ends below `y` and the table is
    /// repermuted exactly as the reachability sets dictate; on failure —
    /// only when `x` is reachable from `y` — nothing changes.
    #[verifier::rlimit(100)]
    fn insert_within_region(&mut self, x: usize, y: usize, lb: usize, ub: usize) -> (r: Result<
        (),
        TopologicalOrderingError,
    >)
        requires
            old(self).wf(),
            old(self).items@.contains(x),
            old(self).items@.contains(y),
            old(self).rank_spec(x) == ub as int,
            old(self).rank_spec(y) == lb as int,
            lb < ub,
        ensures
            final(self).wf(),
            final(self).edge_list@ == old(self).edge_list@,
            final(self).edge_payloads@ == old(self).edge_payloads@,
            final(self).node_payloads@ == old(self).node_payloads@,
            final(self).store == old(self).store,
            match r {
                Ok(()) => {
                    &&& final(self).items@.len() == old(self).items@.len()
                    &&& final(self).items@.to_multiset() == old(self).items@.to_multiset()
                    &&& (forall|v: usize|
                        final(self).items@.contains(v) <==> old(self).items@.contains(v))
                    &&& final(self).rank_spec(x) < final(self).rank_spec(y)
                    &&& old(self).placed_for_insertion(final(self).items@, x, y)
                },
                Err(e) => {
                    &&& e == TopologicalOrderingError::CycleDetected
                    &&& final(self).items@ == old(self).items@
                    &&& reaches(old(self).edge_list@, y, x)
                },
            },
    {
        let mut state = InsertState {
            lb,
            ub,
            visited: false_vec(self.node_payloads.len()),
            delta_f: Vec::new(),
            delta_b: Vec::new(),
        };
        proof {
            assert forall|h: usize|
                h < state.visited@.len() implies ((#[trigger] state.visited@[h as int]) <==> (
            state.delta_f@.contains(h) || state.delta_b@.contains(h))) by {}
            assert(self.dfs_inv(state));
        }
        match self.dfs_f(&mut state, y) {
            Ok(()) => {},
            Err(e) => {
                proof {
                    let w = choose|w: usize|
                        self.items@.contains(w) && #[trigger] self.rank_spec(w) == ub as int
                            && reaches(self.edge_list@, y, w);
                    self.lemma_rank_valid(w);
                    self.lemma_rank_valid(x);
                    assert(self.items@[ub as int] == w);
                    assert(self.items@[ub as int] == x);
                    assert(w == x);
                }
                return Err(e);
            },
        }
        match self.dfs_b(&mut state, x) {
            Ok(()) => {},
            Err(e) => {
                proof {
                    assert(false);
                }
                return Err(e);
            },
        }
        proof {
            assert(self.items@[lb as int] == y);
        }
        let ghost st_pre = state;
        match self.reorder(&mut state) {
            Ok(()) => {},
            Err(e) => {
                proof {
                    assert(false);
                }
                return Err(e);
            },
        }
        proof {
            assert(st_pre.delta_b@.contains(x));
            assert(st_pre.delta_f@.contains(y));
            assert(self.rank_spec(x) < self.rank_spec(y));
            assert(old(self).placed_for_insertion(self.items@, x, y)) by {
                old(self).lemma_insertion_placement(st_pre, x, y, self.items@);
            }
        }
        Ok(())
    }

    /// Insert the directed edge `x -> y` carrying `weight`. Both endpoints
    /// receive a rank if they lack one. The edge is accepted, written to the
    /// store and recorded, exactly when it closes no directed cycle; a
    /// self-edge or a cycle leaves the ranks and edges as they were, except
    /// that newly seen endpoints keep their fresh tail ranks.
    #[verifier::rlimit(100)]
    pub fn add_edge(&mut self, x: usize, y: usize, weight: E) -> (r: Result<
        (),
        TopologicalOrderingError,
    >)
        requires
            old(self).wf(),
            old(self).edge_list@.len() < 0xFFFF_FFFFusize,
        ensures
            final(self).wf(),
            final(self).node_payloads@ == old(self).node_payloads@,
            match r {
                Ok(()) => {
                    &&& final(self).edge_list@ == old(self).edge_list@.push((x, y))
                    &&& final(self).edge_payloads@ == old(self).edge_payloads@.push(weight)
                    &&& final(self).items@.contains(x) && final(self).items@.contains(y)
                    &&& final(self).rank_spec(x) < final(self).rank_spec(y)
                    &&& forall|v: usize|
                        final(self).items@.contains(v) <==> (old(self).items@.contains(v) || v == x
                            || v == y)
                },
                Err(TopologicalOrderingError::CycleDetected) => {
                    &&& final(self).edge_list@ == old(self).edge_list@
                    &&& final(self).edge_payloads@ == old(self).edge_payloads@
                    &&& old(self).items@.is_prefix_of(final(self).items@)
                    &&& final(self).items@.contains(x) && final(self).items@.contains(y)
                    &&& forall|v: usize|
                        final(self).items@.contains(v) <==> (old(self).items@.contains(v) || v == x
                            || v == y)
                    &&& forall|v: usize|
                        old(self).items@.contains(v) ==> final(self).rank_spec(v) == old(
                            self,
                        ).rank_spec(v)
                },
                Err(TopologicalOrderingError::NoSuchItem(h)) => {
                    &&& *final(self) == *old(self)
                    &&& ((h == x && x >= old(self).node_payloads@.len()) || (h == y && x < old(
                        self,
                    ).node_payloads@.len() && y >= old(self).node_payloads@.len()))
                },
            },
            x < old(self).node_payloads@.len() && y < old(self).node_payloads@.len() && x == y
                ==> r == Err::<(), TopologicalOrderingError>(
                    TopologicalOrderingError::CycleDetected,
                ),
            x != y && x < old(self).node_payloads@.len() && y < old(self).node_payloads@.len() && (
            !old(self).items@.contains(y) || !old(self).items@.contains(x) || old(self).rank_spec(x)
                < old(self).rank_spec(y)) ==> r == Ok::<(), TopologicalOrderingError>(()),
            r == Err::<(), TopologicalOrderingError>(TopologicalOrderingError::CycleDetected) ==> x
                == y || reaches(old(self).edge_list@, y, x),
            old(self).items@.contains(x) && old(self).items@.contains(y) && old(self).rank_spec(x)
                < old(self).rank_spec(y) ==> final(self).items@ == old(self).items@,
            old(self).items@.contains(x) && !old(self).items@.contains(y)
                && y < old(self).node_payloads@.len() && x != y
                ==> final(self).items@ == old(self).items@.push(y),
            !old(self).items@.contains(x) && !old(self).items@.contains(y)
                && x < old(self).node_payloads@.len() && y < old(self).node_payloads@.len()
                && x != y ==> final(self).items@ == old(self).items@.push(x).push(y),
            r == Ok::<(), TopologicalOrderingError>(()) && old(self).items@.contains(x)
                && old(self).items@.contains(y) && old(self).rank_spec(y) < old(
                self,
            ).rank_spec(x) ==> old(self).placed_for_insertion(final(self).items@, x, y),
    {
        if x >= self.node_payloads.len() {
            proof {
                if old(self).items@.contains(x) {
                    let i = choose|i: int|
                        0 <= i < old(self).items@.len() && old(self).items@[i] == x;
                    assert(old(self).items@[i] < old(self).node_payloads@.len());
                }
            }
            return Err(TopologicalOrderingError::NoSuchItem(x));
        }
        if y >= self.node_payloads.len() {
            proof {
                if old(self).items@.contains(y) {
                    let i = choose|i: int|
                        0 <= i < old(self).items@.len() && old(self).items@[i] == y;
                    assert(old(self).items@[i] < old(self).node_payloads@.len());
                }
            }
            return Err(TopologicalOrderingError::NoSuchItem(y));
        }
        let ub = self.ensure_rank(x);
        let lb = self.ensure_rank(y);
        proof {
            assert(self.rank_spec(x) == ub as int);
            assert(old(self).items@ =~= self.items@.subrange(0, old(self).items@.len() as int));
        }
        if ub == lb {
            proof {
                assert(self.items@[ub as int] == x);
                assert(self.items@[lb as int] == y);
                assert(x == y);
            }
            return Err(TopologicalOrderingError::CycleDetected);
        }
        if lb < ub {
            match self.insert_within_region(x, y, lb, ub) {
                Ok(()) => {
                    proof {
                        if old(self).items@.contains(x) && old(self).items@.contains(y) {
                            assert(old(self).placed_for_insertion(self.items@, x, y));
                        }
                    }
                },
                Err(e) => {
                    proof {
                        assert(reaches(old(self).edge_list@, y, x));
                        let p = choose|p: Seq<usize>|
                            p.len() >= 1 && p.first() == y && p.last() == x
                                && #[trigger] is_path(old(self).edge_list@, p);
                        assert(p.len() >= 2);
                        assert(old(self).edge_list@.contains((p[0], p[1])));
                        let k0 = choose|k0: int|
                            0 <= k0 < old(self).edge_list@.len() && old(self).edge_list@[k0] == (
                            p[0],
                            p[1],
                            );
                        assert(old(self).items@.contains(old(self).edge_list@[k0].0));
                        let n = p.len() as int;
                        assert(old(self).edge_list@.contains((p[n - 2], p[n - 1])));
                        let k1 = choose|k1: int|
                            0 <= k1 < old(self).edge_list@.len() && old(self).edge_list@[k1] == (
                            p[n - 2],
                            p[n - 1],
                            );
                        assert(old(self).items@.contains(old(self).edge_list@[k1].1));
                        assert(old(self).items@.contains(x));
                        assert(old(self).items@.contains(y));
                        assert(old(self).rank_spec(x) == ub as int);
                        assert(old(self).rank_spec(y) == lb as int);
                    }
                    return Err(e);
                },
            }
        }
        graph_add_edge(&mut self.store, x, y);
        self.edge_list.push((x, y));
        self.edge_payloads.push(weight);
        proof {
            assert(edge_pairs(self.edge_list@) =~= store_edges(self.store));
            assert forall|k: int|
                0 <= k < self.edge_list@.len() implies self.items@.contains(
                (#[trigger] self.edge_list@[k]).0,
            ) && self.items@.contains(self.edge_list@[k].1) by {
                if k < self.edge_list@.len() - 1 {
                    assert(self.edge_list@[k] == old(self).edge_list@[k]);
                }
            }
            assert forall|k: int|
                0 <= k < self.edge_list@.len() implies self.rank_spec(
                (#[trigger] self.edge_list@[k]).0,
            ) < self.rank_spec(self.edge_list@[k].1) by {
                if k < self.edge_list@.len() - 1 {
                    assert(self.edge_list@[k] == old(self).edge_list@[k]);
                }
            }
        }
        Ok(())
    }

    /// Combine the reassignment facts: with the two sorted delta sets, their
    /// rank lists and the merged pool, the written table is a permutation of
    /// the old one that keeps every old edge running upward and puts the
    /// backward set wholly below the forward set.
    #[verifier::rlimit(100)]
    proof fn lemma_reorder_tables(
        self,
        st: InsertState,
        db: Seq<usize>,
        df: Seq<usize>,
        rbl: Seq<usize>,
        rfl: Seq<usize>,
        rr: Seq<usize>,
        items1: Seq<usize>,
    )
        requires
            self.wf(),
            self.dfs_inv(st),
            self.f_closed(st),
            self.b_closed(st),
            st.delta_f@.contains(self.items@[st.lb as int]),
            db.no_duplicates(),
            df.no_duplicates(),
            forall|v: usize| db.contains(v) <==> st.delta_b@.contains(v),
            forall|v: usize| df.contains(v) <==> st.delta_f@.contains(v),
            forall|v: usize| db.contains(v) ==> self.items@.contains(v),
            forall|v: usize| df.contains(v) ==> self.items@.contains(v),
            forall|p: int, q: int|
                0 <= p < q < db.len() ==> self.items@.index_of(db[p]) < self.items@.index_of(
                    db[q],
                ),
            forall|p: int, q: int|
                0 <= p < q < df.len() ==> self.items@.index_of(df[p]) < self.items@.index_of(
                    df[q],
                ),
            rbl.len() == db.len(),
            rfl.len() == df.len(),
            forall|t: int|
                0 <= t < db.len() ==> (#[trigger] rbl[t]) as int == self.items@.index_of(db[t]),
            forall|t: int|
                0 <= t < df.len() ==> (#[trigger] rfl[t]) as int == self.items@.index_of(df[t]),
            rr.len() == db.len() + df.len(),
            strictly_increasing(rr),
            forall|k: int| 0 <= k < rbl.len() ==> #[trigger] rr[k] <= rbl[k],
            forall|k: int| 0 <= k < rfl.len() ==> rr[db.len() + k] >= #[trigger] rfl[k],
            forall|p: int|
                0 <= p < rr.len() ==> rbl.contains(#[trigger] rr[p]) || rfl.contains(rr[p]),
            forall|k: int| 0 <= k < rbl.len() ==> rr.contains(#[trigger] rbl[k]),
            forall|k: int| 0 <= k < rfl.len() ==> rr.contains(#[trigger] rfl[k]),
            forall|q: int|
                0 <= q < rr.len() ==> st.lb as int <= (#[trigger] rr[q]) as int && rr[q] as int
                    <= st.ub as int && (rr[q] as int) < self.items@.len(),
            items1.len() == self.items@.len(),
            forall|q: int| 0 <= q < rr.len() ==> items1[(#[trigger] rr[q]) as int] == (db + df)[q],
            forall|p: int|
                0 <= p < items1.len() && !seq_has_val(rr, rr.len() as int, p) ==> items1[p]
                    == self.items@[p],
        ensures
            items1.no_duplicates(),
            forall|v: usize| items1.contains(v) <==> self.items@.contains(v),
            items1.to_multiset() == self.items@.to_multiset(),
            forall|k: int|
                0 <= k < self.edge_list@.len() ==> items1.index_of(
                    (#[trigger] self.edge_list@[k]).0,
                ) < items1.index_of(self.edge_list@[k].1),
            forall|a: usize, b: usize|
                st.delta_b@.contains(a) && st.delta_f@.contains(b) ==> items1.index_of(a)
                    < items1.index_of(b),
            forall|a: usize, b: usize|
                st.delta_b@.contains(a) && st.delta_b@.contains(b) && self.items@.index_of(a)
                    < self.items@.index_of(b) ==> items1.index_of(a) < items1.index_of(b),
            forall|a: usize, b: usize|
                st.delta_f@.contains(a) && st.delta_f@.contains(b) && self.items@.index_of(a)
                    < self.items@.index_of(b) ==> items1.index_of(a) < items1.index_of(b),
            forall|v: usize|
                self.items@.contains(v) && !st.delta_b@.contains(v) && !st.delta_f@.contains(v)
                    ==> items1.index_of(v) == self.items@.index_of(v),
    {
        let items0 = self.items@;
        assert forall|v: usize| !(db.contains(v) && df.contains(v)) by {
            if db.contains(v) && df.contains(v) {
                assert(st.delta_b@.contains(v));
                assert(st.delta_f@.contains(v));
            }
        }
        lemma_pool_reassign(items0, items1, db, df, rbl, rfl, rr);
        assert forall|v: usize|
            items0.contains(v) && !st.delta_b@.contains(v) && !st.delta_f@.contains(v)
            implies items1.index_of(v) == items0.index_of(v) by {
            assert(!db.contains(v) && !df.contains(v));
        }
        self.lemma_reorder_ordered(st, db, df, rbl, rfl, rr, items1);
    }

    /// The frame of the reassignment: a position whose old occupant is in
    /// neither delta set is untouched, and a position whose old occupant is a
    /// member still holds a member — the pool of member ranks is reused
    /// exactly.
    #[verifier::rlimit(100)]
    proof fn lemma_reorder_frame(
        self,
        st: InsertState,
        db: Seq<usize>,
        df: Seq<usize>,
        rbl: Seq<usize>,
        rfl: Seq<usize>,
        rr: Seq<usize>,
        items1: Seq<usize>,
    )
        requires
            self.items@.no_duplicates(),
            items1.no_duplicates(),
            items1.len() == self.items@.len(),
            forall|v: usize| db.contains(v) <==> st.delta_b@.contains(v),
            forall|v: usize| df.contains(v) <==> st.delta_f@.contains(v),
            rbl.len() == db.len(),
            rfl.len() == df.len(),
            forall|t: int|
                0 <= t < db.len() ==> (#[trigger] rbl[t]) as int == self.items@.index_of(db[t]),
            forall|t: int|
                0 <= t < df.len() ==> (#[trigger] rfl[t]) as int == self.items@.index_of(df[t]),
            rr.len() == db.len() + df.len(),
            forall|k: int| 0 <= k < rbl.len() ==> rr.contains(#[trigger] rbl[k]),
            forall|k: int| 0 <= k < rfl.len() ==> rr.contains(#[trigger] rfl[k]),
            forall|q: int| 0 <= q < rr.len() ==> items1[(#[trigger] rr[q]) as int] == (db + df)[q],
            forall|q: int| 0 <= q < rr.len() ==> ((#[trigger] rr[q]) as int) < self.items@.len(),
            forall|v: usize| items1.contains(v) <==> self.items@.contains(v),
            forall|v: usize|
                self.items@.contains(v) && !st.delta_b@.contains(v) && !st.delta_f@.contains(v)
                    ==> items1.index_of(v) == self.items@.index_of(v),
        ensures
            forall|p: int|
                0 <= p < self.items@.len() && !st.delta_b@.contains(#[trigger] self.items@[p])
                    && !st.delta_f@.contains(self.items@[p]) ==> items1[p] == self.items@[p],
            forall|p: int|
                0 <= p < self.items@.len() && (st.delta_b@.contains(#[trigger] self.items@[p])
                    || st.delta_f@.contains(self.items@[p])) ==> (st.delta_b@.contains(
                    items1[p],
                ) || st.delta_f@.contains(items1[p])),
    {
        let items0 = self.items@;
        assert forall|p: int|
            0 <= p < items0.len() && !st.delta_b@.contains(#[trigger] items0[p])
                && !st.delta_f@.contains(items0[p]) implies items1[p] == items0[p] by {
            let v = items0[p];
            assert(items0.contains(v));
            lemma_position_of(items0, p);
            assert(items1.index_of(v) == p);
            assert(items1.contains(v));
            assert(items1[items1.index_of(v)] == v);
        }
        assert forall|p: int|
            0 <= p < items0.len() && (st.delta_b@.contains(#[trigger] items0[p])
                || st.delta_f@.contains(items0[p])) implies (st.delta_b@.contains(items1[p])
            || st.delta_f@.contains(items1[p])) by {
            let v = items0[p];
            assert(items0.contains(v));
            lemma_position_of(items0, p);
            if db.contains(v) {
                let t = choose|t: int| 0 <= t < db.len() && db[t] == v;
                assert(rbl[t] as int == p);
                assert(rr.contains(rbl[t]));
                let q = choose|q: int| 0 <= q < rr.len() && rr[q] == rbl[t];
                assert(items1[(rr[q]) as int] == (db + df)[q]);
                if q < db.len() {
                    assert((db + df)[q] == db[q]);
                    assert(db.contains(db[q]));
                } else {
                    assert((db + df)[q] == df[q - db.len()]);
                    assert(df.contains(df[q - db.len()]));
                }
            } else {
                assert(df.contains(v));
                let t = choose|t: int| 0 <= t < df.len() && df[t] == v;
                assert(rfl[t] as int == p);
                assert(rr.contains(rfl[t]));
                let q = choose|q: int| 0 <= q < rr.len() && rr[q] == rfl[t];
                assert(items1[(rr[q]) as int] == (db + df)[q]);
                if q < db.len() {
                    assert((db + df)[q] == db[q]);
                    assert(db.contains(db[q]));
                } else {
                    assert((db + df)[q] == df[q - db.len()]);
                    assert(df.contains(df[q - db.len()]));
                }
            }
        }
    }

    /// After reassignment every old edge still runs upward, and every
    /// member of the backward set ranks below every member of the forward
    /// set. `self` is the engine before reassignment, `db` and `df` the two
    /// sets sorted by old rank, `rbl` and `rfl` their old rank lists, `rr`
    /// the merged rank pool, `items1` the table after reassignment.
    #[verifier::rlimit(100)]
    proof fn lemma_reorder_ordered(
        self,
        st: InsertState,
        db: Seq<usize>,
        df: Seq<usize>,
        rbl: Seq<usize>,
        rfl: Seq<usize>,
        rr: Seq<usize>,
        items1: Seq<usize>,
    )
        requires
            self.wf(),
            self.dfs_inv(st),
            self.f_closed(st),
            self.b_closed(st),
            st.delta_f@.contains(self.items@[st.lb as int]),
            db.no_duplicates(),
            df.no_duplicates(),
            forall|v: usize| db.contains(v) <==> st.delta_b@.contains(v),
            forall|v: usize| df.contains(v) <==> st.delta_f@.contains(v),
            forall|v: usize| db.contains(v) ==> self.items@.contains(v),
            forall|v: usize| df.contains(v) ==> self.items@.contains(v),
            forall|p: int, q: int|
                0 <= p < q < db.len() ==> self.items@.index_of(db[p]) < self.items@.index_of(
                    db[q],
                ),
            forall|p: int, q: int|
                0 <= p < q < df.len() ==> self.items@.index_of(df[p]) < self.items@.index_of(
                    df[q],
                ),
            rbl.len() == db.len(),
            rfl.len() == df.len(),
            forall|t: int| 0 <= t < db.len() ==> (#[trigger] rbl[t]) as int == self.items@.index_of(db[t]),
            forall|t: int| 0 <= t < df.len() ==> (#[trigger] rfl[t]) as int == self.items@.index_of(df[t]),
            rr.len() == db.len() + df.len(),
            strictly_increasing(rr),
            forall|k: int| 0 <= k < rbl.len() ==> #[trigger] rr[k] <= rbl[k],
            forall|k: int| 0 <= k < rfl.len() ==> rr[db.len() + k] >= #[trigger] rfl[k],
            forall|q: int|
                0 <= q < rr.len() ==> st.lb as int <= (#[trigger] rr[q]) as int && rr[q] as int
                    <= st.ub as int,
            items1.no_duplicates(),
            forall|t: int|
                0 <= t < db.len() ==> items1.index_of(#[trigger] db[t]) == rr[t] as int,
            forall|t: int|
                0 <= t < df.len() ==> items1.index_of(#[trigger] df[t]) == rr[db.len() + t] as int,
            forall|v: usize|
                self.items@.contains(v) && !st.delta_b@.contains(v) && !st.delta_f@.contains(v)
                    ==> items1.index_of(v) == self.items@.index_of(v),
        ensures
            forall|k: int|
                0 <= k < self.edge_list@.len() ==> items1.index_of(
                    (#[trigger] self.edge_list@[k]).0,
                ) < items1.index_of(self.edge_list@[k].1),
            forall|a: usize, b: usize|
                st.delta_b@.contains(a) && st.delta_f@.contains(b) ==> items1.index_of(a)
                    < items1.index_of(b),
            forall|a: usize, b: usize|
                st.delta_b@.contains(a) && st.delta_b@.contains(b) && self.items@.index_of(a)
                    < self.items@.index_of(b) ==> items1.index_of(a) < items1.index_of(b),
            forall|a: usize, b: usize|
                st.delta_f@.contains(a) && st.delta_f@.contains(b) && self.items@.index_of(a)
                    < self.items@.index_of(b) ==> items1.index_of(a) < items1.index_of(b),
    {
        let items0 = self.items@;
        assert forall|k: int|
            0 <= k < self.edge_list@.len() implies items1.index_of(
            (#[trigger] self.edge_list@[k]).0,
        ) < items1.index_of(self.edge_list@[k].1) by {
            let a = self.edge_list@[k].0;
            let b = self.edge_list@[k].1;
            assert(items0.contains(a) && items0.contains(b));
            let ra = items0.index_of(a);
            let rbk = items0.index_of(b);
            assert(self.rank_spec(a) < self.rank_spec(b));
            assert(items0[ra] == a);
            assert(items0[rbk] == b);
            let a_in_b = st.delta_b@.contains(a);
            let a_in_f = st.delta_f@.contains(a);
            let b_in_b = st.delta_b@.contains(b);
            let b_in_f = st.delta_f@.contains(b);
            if b_in_b {
                assert(db.contains(b));
                let ib = choose|ib: int| 0 <= ib < db.len() && db[ib] == b;
                assert(items1.index_of(b) == rr[ib] as int);
                if a_in_b {
                    assert(db.contains(a));
                    let ia = choose|ia: int| 0 <= ia < db.len() && db[ia] == a;
                    assert(items1.index_of(a) == rr[ia] as int);
                    if ia == ib {
                        assert(a == b);
                    }
                    if ia > ib {
                        assert(items0.index_of(db[ib]) < items0.index_of(db[ia]));
                    }
                    assert(ia < ib);
                    assert(rr[ia] < rr[ib]);
                } else if a_in_f {
                    assert(rbk != st.ub as int);
                    let i0 = choose|i0: int|
                        0 <= i0 < st.delta_b@.len() && st.delta_b@[i0] == b;
                    assert(self.rank_spec(st.delta_b@[i0]) <= st.ub as int);
                    assert(rbk < st.ub as int);
                    assert(st.delta_f@.contains(b));
                    assert(false);
                } else {
                    if (st.lb as int) < ra {
                        assert(st.delta_b@.contains(a));
                        assert(false);
                    }
                    if ra == st.lb as int {
                        assert(items0[st.lb as int] == a);
                        assert(st.delta_f@.contains(a));
                        assert(false);
                    }
                    assert(ra < st.lb as int);
                    assert(items1.index_of(a) == ra);
                    assert(st.lb as int <= rr[ib] as int);
                }
            } else if b_in_f {
                assert(df.contains(b));
                let jb = choose|jb: int| 0 <= jb < df.len() && df[jb] == b;
                assert(items1.index_of(b) == rr[db.len() + jb] as int);
                assert(rfl[jb] as int == rbk);
                assert(rr[db.len() + jb] >= rfl[jb]);
                if a_in_b {
                    assert(db.contains(a));
                    let ia = choose|ia: int| 0 <= ia < db.len() && db[ia] == a;
                    assert(items1.index_of(a) == rr[ia] as int);
                    assert(rr[ia] < rr[db.len() + jb]);
                } else if a_in_f {
                    assert(df.contains(a));
                    let ja = choose|ja: int| 0 <= ja < df.len() && df[ja] == a;
                    assert(items1.index_of(a) == rr[db.len() + ja] as int);
                    if ja == jb {
                        assert(a == b);
                    }
                    if ja > jb {
                        assert(items0.index_of(df[jb]) < items0.index_of(df[ja]));
                    }
                    assert(ja < jb);
                    assert(rr[db.len() + ja] < rr[db.len() + jb]);
                } else {
                    assert(items1.index_of(a) == ra);
                    assert(rr[db.len() + jb] as int >= rbk);
                }
            } else {
                assert(!st.delta_b@.contains(b) && !st.delta_f@.contains(b));
                assert(items1.index_of(b) == rbk);
                if a_in_b {
                    assert(db.contains(a));
                    let ia = choose|ia: int| 0 <= ia < db.len() && db[ia] == a;
                    assert(items1.index_of(a) == rr[ia] as int);
                    assert(rbl[ia] as int == ra);
                    assert(rr[ia] <= rbl[ia]);
                } else if a_in_f {
                    assert(rbk != st.ub as int);
                    if rbk < st.ub as int {
                        assert(st.delta_f@.contains(b));
                        assert(false);
                    }
                    assert(rbk > st.ub as int);
                    assert(df.contains(a));
                    let ja = choose|ja: int| 0 <= ja < df.len() && df[ja] == a;
                    assert(items1.index_of(a) == rr[db.len() + ja] as int);
                    assert(rr[db.len() + ja] as int <= st.ub as int);
                } else {
                    assert(items1.index_of(a) == ra);
                }
            }
        }
        assert forall|a: usize, b: usize|
            st.delta_b@.contains(a) && st.delta_f@.contains(b) implies items1.index_of(a)
            < items1.index_of(b) by {
            assert(db.contains(a));
            assert(df.contains(b));
            let ia = choose|ia: int| 0 <= ia < db.len() && db[ia] == a;
            let jb = choose|jb: int| 0 <= jb < df.len() && df[jb] == b;
            assert(items1.index_of(a) == rr[ia] as int);
            assert(items1.index_of(b) == rr[db.len() + jb] as int);
            assert(rr[ia] < rr[db.len() + jb]);
        }
        assert forall|a: usize, b: usize|
            st.delta_b@.contains(a) && st.delta_b@.contains(b) && items0.index_of(a)
                < items0.index_of(b) implies items1.index_of(a) < items1.index_of(b) by {
            assert(db.contains(a));
            assert(db.contains(b));
            let ia = choose|ia: int| 0 <= ia < db.len() && db[ia] == a;
            let ib = choose|ib: int| 0 <= ib < db.len() && db[ib] == b;
            assert(items1.index_of(a) == rr[ia] as int);
            assert(items1.index_of(b) == rr[ib] as int);
            if ia == ib {
                assert(a == b);
            }
            if ia > ib {
                assert(items0.index_of(db[ib]) < items0.index_of(db[ia]));
            }
            assert(ia < ib);
            assert(rr[ia] < rr[ib]);
        }
        assert forall|a: usize, b: usize|
            st.delta_f@.contains(a) && st.delta_f@.contains(b) && items0.index_of(a)
                < items0.index_of(b) implies items1.index_of(a) < items1.index_of(b) by {
            assert(df.contains(a));
            assert(df.contains(b));
            let ja = choose|ja: int| 0 <= ja < df.len() && df[ja] == a;
            let jb = choose|jb: int| 0 <= jb < df.len() && df[jb] == b;
            assert(items1.index_of(a) == rr[db.len() + ja] as int);
            assert(items1.index_of(b) == rr[db.len() + jb] as int);
            if ja == jb {
                assert(a == b);
            }
            if ja > jb {
                assert(items0.index_of(df[jb]) < items0.index_of(df[ja]));
            }
            assert(ja < jb);
            assert(rr[db.len() + ja] < rr[db.len() + jb]);
        }
    }

    /// Restore consistency after the two searches: sort each delta set by
    /// current rank, pool the ranks both sets occupy, and hand the lowest
    /// ranks of the pool to the backward set and the highest to the forward
    /// set. Every vertex outside the two sets keeps its rank, so the table
    /// stays a permutation and every stored edge still runs upward.
    #[verifier::rlimit(100)]
    fn reorder(&mut self, state: &mut InsertState) -> (r: Result<(), TopologicalOrderingError>)
        requires
            old(self).wf(),
            old(self).dfs_inv(*old(state)),
            old(self).f_closed(*old(state)),
            old(self).b_closed(*old(state)),
            old(state).delta_f@.contains(old(self).items@[old(state).lb as int]),
        ensures
            final(self).wf(),
            r == Ok::<(), TopologicalOrderingError>(()),
            final(self).edge_list@ == old(self).edge_list@,
            final(self).edge_payloads@ == old(self).edge_payloads@,
            final(self).node_payloads@ == old(self).node_payloads@,
            final(self).store == old(self).store,
            final(self).items@.len() == old(self).items@.len(),
            final(self).items@.to_multiset() == old(self).items@.to_multiset(),
            forall|v: usize| final(self).items@.contains(v) <==> old(self).items@.contains(v),
            forall|a: usize, b: usize|
                old(state).delta_b@.contains(a) && old(state).delta_f@.contains(b)
                    ==> final(self).rank_spec(a) < final(self).rank_spec(b),
            forall|a: usize, b: usize|
                old(state).delta_b@.contains(a) && old(state).delta_b@.contains(b)
                    && old(self).rank_spec(a) < old(self).rank_spec(b)
                    ==> final(self).rank_spec(a) < final(self).rank_spec(b),
            forall|a: usize, b: usize|
                old(state).delta_f@.contains(a) && old(state).delta_f@.contains(b)
                    && old(self).rank_spec(a) < old(self).rank_spec(b)
                    ==> final(self).rank_spec(a) < final(self).rank_spec(b),
            forall|v: usize|
                old(self).items@.contains(v) && !old(state).delta_b@.contains(v)
                    && !old(state).delta_f@.contains(v)
                    ==> final(self).rank_spec(v) == old(self).rank_spec(v),
            forall|p: int|
                0 <= p < old(self).items@.len() && !old(state).delta_b@.contains(
                    #[trigger] old(self).items@[p],
                ) && !old(state).delta_f@.contains(old(self).items@[p]) ==> final(self).items@[p]
                    == old(self).items@[p],
            forall|p: int|
                0 <= p < old(self).items@.len() && (old(state).delta_b@.contains(
                    #[trigger] old(self).items@[p],
                ) || old(state).delta_f@.contains(old(self).items@[p])) ==> (old(
                    state,
                ).delta_b@.contains(final(self).items@[p]) || old(state).delta_f@.contains(
                    final(self).items@[p],
                )),
    {
        let ghost items0 = self.items@;
        let ghost lb = state.lb;
        let ghost ub = state.ub;
        self.sort_by_current_rank(&mut state.delta_b);
        self.sort_by_current_rank(&mut state.delta_f);
        let ghost db = state.delta_b@;
        let ghost df = state.delta_f@;
        proof {
            // Members of the sorted sets are the searched sets, inside the
            // affected region.
            assert forall|v: usize| db.contains(v) implies items0.contains(v) && (lb as int)
                < items0.index_of(v) && items0.index_of(v) <= ub as int by {
                assert(old(state).delta_b@.contains(v));
                let i = choose|i: int|
                    0 <= i < old(state).delta_b@.len() && old(state).delta_b@[i] == v;
                assert(old(self).rank_spec(old(state).delta_b@[i]) <= ub as int);
            }
            assert forall|v: usize| df.contains(v) implies items0.contains(v) && lb as int
                <= items0.index_of(v) && items0.index_of(v) < ub as int by {
                assert(old(state).delta_f@.contains(v));
                let i = choose|i: int|
                    0 <= i < old(state).delta_f@.len() && old(state).delta_f@[i] == v;
                assert(old(self).rank_spec(old(state).delta_f@[i]) < ub as int);
            }
        }
        let mut l: Vec<usize> = Vec::new();
        let mut rb_list: Vec<usize> = Vec::new();
        let mut rf_list: Vec<usize> = Vec::new();
        let mut i: usize = 0;
        proof {
            assert(l@ =~= db.take(0));
        }
        while i < state.delta_b.len()
            invariant
                *self == *old(self),
                self.items@ == items0,
                self.items@.no_duplicates(),
                state.delta_b@ == db,
                forall|t: int| 0 <= t < db.len() ==> self.items@.contains(#[trigger] db[t]),
                i <= db.len(),
                l@ == db.take(i as int),
                rb_list@.len() == i,
                forall|t: int|
                    0 <= t < i ==> (#[trigger] rb_list@[t]) as int == items0.index_of(db[t]),
            decreases db.len() - i,
        {
            let v = state.delta_b[i];
            let rv = self.rank_known(v);
            rb_list.push(rv);
            l.push(v);
            proof {
                assert(l@ =~= db.take(i as int + 1));
            }
            i += 1;
        }
        proof {
            assert(l@ =~= db);
        }
        let mut j: usize = 0;
        proof {
            assert(l@ =~= db + df.take(0));
        }
        while j < state.delta_f.len()
            invariant
                *self == *old(self),
                self.items@ == items0,
                self.items@.no_duplicates(),
                state.delta_f@ == df,
                forall|t: int| 0 <= t < df.len() ==> self.items@.contains(#[trigger] df[t]),
                j <= df.len(),
                l@ == db + df.take(j as int),
                rf_list@.len() == j,
                forall|t: int|
                    0 <= t < j ==> (#[trigger] rf_list@[t]) as int == items0.index_of(df[t]),
            decreases df.len() - j,
        {
            let v = state.delta_f[j];
            let rv = self.rank_known(v);
            rf_list.push(rv);
            l.push(v);
            proof {
                assert(l@ =~= db + df.take(j as int + 1));
            }
            j += 1;
        }
        proof {
            assert(l@ =~= db + df);
        }
        proof {
            // The two rank lists are strictly increasing and disjoint.
            assert forall|p: int, q: int| 0 <= p < q < db.len() implies rb_list@[p]
                < rb_list@[q] by {
                assert(items0.index_of(db[p]) < items0.index_of(db[q]));
            }
            assert forall|p: int, q: int| 0 <= p < q < df.len() implies rf_list@[p]
                < rf_list@[q] by {
                assert(items0.index_of(df[p]) < items0.index_of(df[q]));
            }
            assert forall|p: int, q: int|
                0 <= p < rb_list@.len() && 0 <= q < rf_list@.len() implies rb_list@[p]
                != rf_list@[q] by {
                if rb_list@[p] == rf_list@[q] {
                    assert(db.contains(db[p]));
                    assert(df.contains(df[q]));
                    assert(items0[items0.index_of(db[p])] == db[p]);
                    assert(items0[items0.index_of(df[q])] == df[q]);
                    assert(db[p] == df[q]);
                    assert(old(state).delta_f@.contains(db[p]));
                    assert(old(state).delta_b@.contains(db[p]));
                }
            }
        }
        let r_list = merge_ranks(&rb_list, &rf_list);
        proof {
            // Every pooled rank is a current rank of some member, hence in
            // range and in bounds.
            assert forall|q: int| 0 <= q < r_list@.len() implies ((#[trigger] r_list@[q]) as int)
                < items0.len() && lb as int <= r_list@[q] as int && r_list@[q] as int
                <= ub as int by {
                if rb_list@.contains(r_list@[q]) {
                    let p = choose|p: int| 0 <= p < rb_list@.len() && rb_list@[p] == r_list@[q];
                    assert(db.contains(db[p]));
                } else {
                    let p = choose|p: int| 0 <= p < rf_list@.len() && rf_list@[p] == r_list@[q];
                    assert(df.contains(df[p]));
                }
            }
        }
        let ghost rr = r_list@;
        let mut t: usize = 0;
        while t < l.len()
            invariant
                t <= l@.len(),
                rr == r_list@,
                r_list@.len() == l@.len(),
                strictly_increasing(rr),
                forall|q: int| 0 <= q < rr.len() ==> ((#[trigger] rr[q]) as int) < items0.len(),
                self.items@.len() == items0.len(),
                self.edge_list@ == old(self).edge_list@,
                self.edge_payloads@ == old(self).edge_payloads@,
                self.node_payloads@ == old(self).node_payloads@,
                self.store == old(self).store,
                forall|q: int| 0 <= q < t ==> self.items@[(#[trigger] rr[q]) as int] == l@[q],
                forall|p: int|
                    0 <= p < self.items@.len() && !seq_has_val(rr, t as int, p)
                        ==> self.items@[p] == items0[p],
            decreases l@.len() - t,
        {
            let pos = r_list[t];
            let v = l[t];
            self.items.set(pos, v);
            proof {
                assert forall|q: int|
                    0 <= q < t + 1 implies self.items@[(#[trigger] rr[q]) as int] == l@[q] by {
                    if q < t {
                        assert(rr[q] < rr[t as int]);
                    }
                }
                assert forall|p: int|
                    0 <= p < self.items@.len() && !seq_has_val(rr, t as int + 1, p)
                        implies self.items@[p] == items0[p] by {
                    assert(rr[t as int] as int != p);
                    if seq_has_val(rr, t as int, p) {
                        let q = choose|q: int| 0 <= q < t && (#[trigger] rr[q]) as int == p;
                        assert(seq_has_val(rr, t as int + 1, p));
                    }
                }
            }
            t += 1;
        }
        proof {
            old(self).lemma_reorder_tables(
                *old(state),
                db,
                df,
                rb_list@,
                rf_list@,
                rr,
                self.items@,
            );
            old(self).lemma_reorder_frame(
                *old(state),
                db,
                df,
                rb_list@,
                rf_list@,
                rr,
                self.items@,
            );
            assert forall|p: int|
                0 <= p < self.items@.len() implies (#[trigger] self.items@[p])
                < self.node_payloads@.len() by {
                assert(self.items@.contains(self.items@[p]));
                assert(old(self).items@.contains(self.items@[p]));
                let q = choose|q: int|
                    0 <= q < old(self).items@.len() && old(self).items@[q] == self.items@[p];
                assert(old(self).items@[q] < old(self).node_payloads@.len());
            }
        }
        Ok(())
    }
}

/// Law: in a well-formed engine, every stored edge `u -> v` satisfies
/// `rank(u) < rank(v)` — the order is consistent with the whole edge set.
pub proof fn lemma_every_edge_respects_ranks<N, E>(o: ToplogicalOrdering<N, E>)
    requires
        o.wf(),
    ensures
        forall|k: int|
            0 <= k < o.edge_list@.len() ==> o.rank_spec((#[trigger] o.edge_list@[k]).0)
                < o.rank_spec(o.edge_list@[k].1),
{
}

/// Law: the ranks are a permutation of `{0, ..., k-1}` for `k` ranked
/// vertices — every ranked vertex appears exactly once, at its own rank, and
/// the ranks are dense by construction of the table.
pub proof fn lemma_ranks_form_permutation<N, E>(o: ToplogicalOrdering<N, E>)
    requires
        o.wf(),
    ensures
        o.items@.no_duplicates(),
        forall|i: int| 0 <= i < o.items@.len() ==> o.rank_spec(#[trigger] o.items@[i]) == i,
{
    assert forall|i: int|
        0 <= i < o.items@.len() implies o.rank_spec(#[trigger] o.items@[i]) == i by {
        lemma_position_of(o.items@, i);
    }
}

/// Law (the consistency half of creation-order immateriality): every
/// well-formed engine state orders all of its accepted edges, so two engines
/// built by any two vertex-creation orders — this lemma takes both at once —
/// are each consistent with their own edge set. This lemma states only that
/// consistency; the acceptance half — that replaying an accepted edge set is
/// again accepted whatever the creation order — is pinned by `add_edge`'s
/// contract, which permits `CycleDetected` only for a self-edge or an actual
/// directed path from target back to source, and `NoSuchItem` only for a
/// handle never issued.
pub proof fn lemma_two_engines_each_consistent<N, E>(
    o1: ToplogicalOrdering<N, E>,
    o2: ToplogicalOrdering<N, E>,
)
    requires
        o1.wf(),
        o2.wf(),
    ensures
        forall|k: int|
            0 <= k < o1.edge_list@.len() ==> o1.rank_spec((#[trigger] o1.edge_list@[k]).0)
                < o1.rank_spec(o1.edge_list@[k].1),
        forall|k: int|
            0 <= k < o2.edge_list@.len() ==> o2.rank_spec((#[trigger] o2.edge_list@[k]).0)
                < o2.rank_spec(o2.edge_list@[k].1),
{
}

impl<N, E> Default for ToplogicalOrdering<N, E> {
    /// An empty engine: no ranked vertices, no edges, an empty store.
    fn default() -> (r: Self)
        ensures
            r.wf(),
            r.items@.len() == 0,
            r.node_payloads@.len() == 0,
            r.edge_list@.len() == 0,
            r.edge_payloads@.len() == 0,
    {
        let r = ToplogicalOrdering {
            items: Vec::new(),
            node_payloads: Vec::new(),
            edge_list: Vec::new(),
            edge_payloads: Vec::new(),
            store: graph_new(),
        };
        proof {
            assert(edge_pairs(r.edge_list@) =~= store_edges(r.store));
        }
        r
    }
}

} // verus!
