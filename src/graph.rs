//! The honeycomb as an arena of cells.
//!
//! Every node is a cell of the order-4 dodecahedral honeycomb. Crossing a side
//! is a reflection, so crossing the same side twice comes back to the start,
//! and two adjacent sides commute (four cells meet around each edge). A node
//! records its depth: the number of crossings on a shortest path from the
//! root. A new node is always one step deeper than the node it was reached
//! from, and every shallower neighbor that the honeycomb's relations give it is
//! linked at once.
use vstd::prelude::*;
use vstd::relations::injective_on;
use vstd::set_lib::{lemma_int_range, lemma_map_size, set_int_range};
use crate::dodeca::{Side, Vertex, SIDE_COUNT, VERTEX_COUNT, sides_adjacent, lemma_adjacency_is_symmetric};

verus! {

/// Stable identifier of a node: its position in the arena.
#[derive(Clone, Copy, Debug, PartialEq, Eq, Structural, Hash)]
pub struct NodeId {
    pub index: usize,
}

impl NodeId {
    /// The node that every graph starts from.
    pub fn root() -> (r: NodeId)
        ensures
            r.index == 0,
    {
        NodeId { index: 0 }
    }
}

/// Materialized part of the honeycomb, with a payload of type `N` per node and
/// of type `C` per vertex of each node.
pub struct Graph<N, C> {
    /// Neighbor of node `n` across side `s`, at `n * SIDE_COUNT + s`. Methods
    /// read the length of `links` (or `cubes`) before indexing: that a `Vec`'s
    /// length fits in `usize` is what keeps the flat index from overflowing.
    links: Vec<Option<NodeId>>,
    /// Depth of each node.
    depth: Vec<usize>,
    /// Side through which each node was first reached; `None` for the root.
    parents: Vec<Option<Side>>,
    values: Vec<Option<N>>,
    /// Payload of vertex `v` of node `n`, at `n * VERTEX_COUNT + v`.
    cubes: Vec<Option<C>>,
    /// Nodes created since the last `clear_fresh`, oldest first.
    fresh: Vec<NodeId>,
}

impl<N, C> Graph<N, C> {
    /// Number of materialized nodes.
    pub closed spec fn count(&self) -> int {
        self.depth@.len() as int
    }

    /// Neighbor of node `n` across the side with index `s`, if materialized.
    pub closed spec fn link(&self, n: int, s: int) -> Option<NodeId> {
        self.links@[n * 12 + s]
    }

    /// Number of crossings from the root to node `n` on a shortest path.
    pub closed spec fn depth_of(&self, n: int) -> int {
        self.depth@[n] as int
    }

    /// Side through which node `n` was first reached.
    pub closed spec fn parent_of(&self, n: int) -> Option<Side> {
        self.parents@[n]
    }

    pub closed spec fn value_of(&self, n: int) -> Option<N> {
        self.values@[n]
    }

    pub closed spec fn cube_of(&self, n: int, v: int) -> Option<C> {
        self.cubes@[n * 20 + v]
    }

    /// Nodes created since the fresh list was last cleared.
    pub closed spec fn fresh_nodes(&self) -> Seq<NodeId> {
        self.fresh@
    }

    /// The link of `n` across `s` is either absent, or leads to a node one
    /// step shallower or deeper whose link across `s` leads back.
    pub open spec fn link_ok(&self, n: int, s: int) -> bool {
        self.link(n, s) matches Some(m) ==> {
            &&& 0 <= m.index < self.count()
            &&& m.index != n
            &&& self.link(m.index as int, s) == Some(NodeId { index: n as usize })
            &&& (self.depth_of(m.index as int) == self.depth_of(n) + 1 || self.depth_of(n)
                == self.depth_of(m.index as int) + 1)
        }
    }

    pub open spec fn node_ok(&self, n: int) -> bool {
        &&& 0 <= self.depth_of(n) <= n
        &&& (n == 0) == (self.parent_of(n) is None)
        &&& (self.parent_of(n) matches Some(p) ==> (self.link(n, p.spec_index()) matches Some(m)
            && m.index < n && self.depth_of(m.index as int) + 1 == self.depth_of(n)))
        &&& forall|s: int| 0 <= s < 12 ==> #[trigger] self.link_ok(n, s)
        &&& self.links_distinct(n)
    }

    /// The links of `n` across different sides lead to different nodes.
    pub open spec fn links_distinct(&self, n: int) -> bool {
        forall|s1: int, s2: int|
            0 <= s1 < 12 && 0 <= s2 < 12 && s1 != s2 && (#[trigger] self.link(n, s1)) is Some ==> self.link(n, s1)
                != #[trigger] self.link(n, s2)
    }

    /// The fresh list holds exactly the newest nodes, in order of creation.
    pub open spec fn fresh_is_tail(&self) -> bool {
        let k = self.count() - self.fresh_nodes().len();
        &&& k >= 0
        &&& forall|i: int|
            0 <= i < self.fresh_nodes().len() ==> #[trigger] self.fresh_nodes()[i].index == k + i
    }

    pub closed spec fn wf(&self) -> bool {
        &&& self.depth@.len() >= 1
        &&& self.links@.len() == 12 * self.depth@.len()
        &&& 12 * self.depth@.len() <= usize::MAX
        &&& self.parents@.len() == self.depth@.len()
        &&& self.values@.len() == self.depth@.len()
        &&& self.cubes@.len() == 20 * self.depth@.len()
        &&& forall|n: int| 0 <= n < self.count() ==> #[trigger] self.node_ok(n)
        &&& self.fresh_is_tail()
    }

    /// `self` holds everything that `prev` held: the same nodes with the same
    /// depth, parent and payloads, and every link that `prev` had. Nodes added
    /// since carry no payload and were appended to the fresh list.
    pub open spec fn grown_from(&self, prev: &Self) -> bool {
        &&& self.count() >= prev.count()
        &&& forall|n: int|
            #![trigger self.depth_of(n)]
            #![trigger self.parent_of(n)]
            #![trigger self.value_of(n)]
            0 <= n < prev.count() ==> {
                &&& self.depth_of(n) == prev.depth_of(n)
                &&& self.parent_of(n) == prev.parent_of(n)
                &&& self.value_of(n) == prev.value_of(n)
            }
        &&& forall|n: int, s: int|
            0 <= n < prev.count() && 0 <= s < 12 && (#[trigger] prev.link(n, s)) is Some
                ==> self.link(n, s) == prev.link(n, s)
        &&& forall|n: int, v: int|
            0 <= n < prev.count() && 0 <= v < 20 ==> #[trigger] self.cube_of(n, v) == prev.cube_of(
                n,
                v,
            )
        &&& forall|n: int| prev.count() <= n < self.count() ==> (#[trigger] self.value_of(n)) is None
        &&& forall|n: int, v: int|
            prev.count() <= n < self.count() && 0 <= v < 20 ==> (#[trigger] self.cube_of(
                n,
                v,
            )) is None
        &&& self.fresh_nodes() == prev.fresh_nodes() + Seq::new(
            (self.count() - prev.count()) as nat,
            |k: int| NodeId { index: (prev.count() + k) as usize },
        )
    }

    /// A graph holding only the root, with no payloads.
    pub fn new() -> (r: Self)
        ensures
            r.wf(),
            r.count() == 1,
            r.value_of(0) is None,
            r.parent_of(0) is None,
            forall|s: int| 0 <= s < 12 ==> (#[trigger] r.link(0, s)) is None,
            forall|v: int| 0 <= v < 20 ==> (#[trigger] r.cube_of(0, v)) is None,
            r.fresh_nodes().len() == 0,
    {
        let mut g = Graph {
            links: Vec::new(),
            depth: Vec::new(),
            parents: Vec::new(),
            values: Vec::new(),
            cubes: Vec::new(),
            fresh: Vec::new(),
        };
        g.depth.push(0);
        g.parents.push(None);
        g.values.push(None);
        push_empty(&mut g.links, SIDE_COUNT);
        push_empty(&mut g.cubes, VERTEX_COUNT);
        assert(g.node_ok(0));
        g
    }

    /// Number of materialized nodes.
    pub fn len(&self) -> (r: usize)
        requires
            self.wf(),
        ensures
            r as int == self.count(),
    {
        self.depth.len()
    }

    /// Appends a node reached from `from` across `side`, linked to it.
    fn add_node(&mut self, from: NodeId, side: Side) -> (r: NodeId)
        requires
            old(self).wf(),
            0 <= from.index < old(self).count(),
            old(self).link(from.index as int, side.spec_index()) is None,
        ensures
            final(self).wf(),
            final(self).grown_from(old(self)),
            final(self).count() == old(self).count() + 1,
            r.index == old(self).count(),
            final(self).depth_of(r.index as int) == old(self).depth_of(from.index as int) + 1,
            final(self).parent_of(r.index as int) == Some(side),
            final(self).link(from.index as int, side.spec_index()) == Some(r),
            forall|n: int, s: int|
                0 <= n < old(self).count() && 0 <= s < 12 && !(n == from.index && s
                    == side.spec_index()) ==> #[trigger] final(self).link(n, s) == old(self).link(
                    n,
                    s,
                ),
            forall|s: int|
                0 <= s < 12 && s != side.spec_index() ==> (#[trigger] final(self).link(
                    r.index as int,
                    s,
                )) is None,
    {
        let count = self.depth.len();
        let _link_slots = self.links.len();
        let d = self.depth[from.index];
        assert(self.node_ok(from.index as int));
        let id = NodeId { index: count };
        let ghost prev = *self;
        self.depth.push(d + 1);
        self.parents.push(Some(side));
        self.values.push(None);
        push_empty(&mut self.links, SIDE_COUNT);
        push_empty(&mut self.cubes, VERTEX_COUNT);
        let _link_slots = self.links.len();
        let a = from.index * SIDE_COUNT + side.index();
        let b = count * SIDE_COUNT + side.index();
        self.links.set(a, Some(id));
        self.links.set(b, Some(from));
        self.fresh.push(id);
        assert forall|n: int, s: int|
            0 <= n < count + 1 && 0 <= s < 12 implies self.link(n, s) == if n == from.index && s
            == side.spec_index() {
            Some(id)
        } else if n == count && s == side.spec_index() {
            Some(from)
        } else if n == count {
            None
        } else {
            prev.link(n, s)
        } by {
            assert(n * 12 + s == from.index * 12 + side.spec_index() ==> n == from.index && s
                == side.spec_index());
            assert(n * 12 + s == count * 12 + side.spec_index() ==> n == count && s
                == side.spec_index());
        }
        assert forall|n: int| 0 <= n < self.count() implies #[trigger] self.node_ok(n) by {
            if n < count {
                assert(prev.node_ok(n));
                assert forall|s: int| 0 <= s < 12 implies #[trigger] self.link_ok(n, s) by {
                    assert(prev.link_ok(n, s));
                    if let Some(m) = prev.link(n, s) {
                        assert(prev.link(m.index as int, s) == Some(NodeId { index: n as usize }));
                    }
                }
                if let Some(p) = prev.parent_of(n) {
                    assert(prev.link(n, p.spec_index()) is Some);
                }
                assert forall|s1: int, s2: int|
                    0 <= s1 < 12 && 0 <= s2 < 12 && s1 != s2 && (#[trigger] self.link(n, s1)) is Some implies self.link(n, s1)
                        != #[trigger] self.link(n, s2) by {
                    assert(prev.link_ok(n, s1));
                    assert(prev.link_ok(n, s2));
                }
            } else {
                assert forall|s: int| 0 <= s < 12 implies #[trigger] self.link_ok(n, s) by {}
                assert forall|s1: int, s2: int|
                    0 <= s1 < 12 && 0 <= s2 < 12 && s1 != s2 && (#[trigger] self.link(n, s1)) is Some implies self.link(n, s1)
                        != #[trigger] self.link(n, s2) by {}
            }
        }
        assert forall|n: int, v: int|
            0 <= n < count + 1 && 0 <= v < 20 implies #[trigger] self.cube_of(n, v) == if n
            < count {
            prev.cube_of(n, v)
        } else {
            None
        } by {
            assert(n * 20 + v < count * 20 <==> n < count);
        }
        assert(self.fresh_nodes() =~= prev.fresh_nodes() + Seq::new(
            1,
            |k: int| NodeId { index: (prev.count() + k) as usize },
        ));
        id
    }

    /// `self` differs from `prev` at most in payloads.
    pub open spec fn same_shape(&self, prev: &Self) -> bool {
        &&& self.count() == prev.count()
        &&& forall|n: int|
            #![trigger self.depth_of(n)]
            #![trigger self.parent_of(n)]
            0 <= n < prev.count() ==> {
                &&& self.depth_of(n) == prev.depth_of(n)
                &&& self.parent_of(n) == prev.parent_of(n)
            }
        &&& forall|n: int, s: int|
            0 <= n < prev.count() && 0 <= s < 12 ==> #[trigger] self.link(n, s) == prev.link(n, s)
        &&& self.fresh_nodes() == prev.fresh_nodes()
    }

    /// Links `a` and `b` to each other across `side`.
    fn connect(&mut self, a: NodeId, b: NodeId, side: Side)
        requires
            old(self).wf(),
            0 <= a.index < old(self).count(),
            0 <= b.index < old(self).count(),
            a != b,
            old(self).link(a.index as int, side.spec_index()) is None,
            old(self).link(b.index as int, side.spec_index()) is None,
            forall|s: int| 0 <= s < 12 ==> #[trigger] old(self).link(a.index as int, s) != Some(b),
            old(self).depth_of(a.index as int) == old(self).depth_of(b.index as int) + 1
                || old(self).depth_of(b.index as int) == old(self).depth_of(a.index as int) + 1,
        ensures
            final(self).wf(),
            final(self).grown_from(old(self)),
            final(self).count() == old(self).count(),
            final(self).link(a.index as int, side.spec_index()) == Some(b),
            final(self).link(b.index as int, side.spec_index()) == Some(a),
            forall|n: int, s: int|
                0 <= n < old(self).count() && 0 <= s < 12 && !(s == side.spec_index() && (n == a.index
                    || n == b.index)) ==> #[trigger] final(self).link(n, s) == old(self).link(n, s),
    {
        let ghost prev = *self;
        let _link_slots = self.links.len();
        let ia = a.index * SIDE_COUNT + side.index();
        let ib = b.index * SIDE_COUNT + side.index();
        self.links.set(ia, Some(b));
        self.links.set(ib, Some(a));
        assert forall|n: int, s: int|
            0 <= n < self.count() && 0 <= s < 12 implies self.link(n, s) == if n == a.index && s
            == side.spec_index() {
            Some(b)
        } else if n == b.index && s == side.spec_index() {
            Some(a)
        } else {
            prev.link(n, s)
        } by {
            assert(n * 12 + s == a.index * 12 + side.spec_index() ==> n == a.index && s
                == side.spec_index());
            assert(n * 12 + s == b.index * 12 + side.spec_index() ==> n == b.index && s
                == side.spec_index());
        }
        assert forall|n: int| 0 <= n < self.count() implies #[trigger] self.node_ok(n) by {
            assert(prev.node_ok(n));
            assert forall|s: int| 0 <= s < 12 implies #[trigger] self.link_ok(n, s) by {
                assert(prev.link_ok(n, s));
                if let Some(m) = prev.link(n, s) {
                    assert(prev.link(m.index as int, s) == Some(NodeId { index: n as usize }));
                }
            }
            if let Some(p) = prev.parent_of(n) {
                assert(prev.link(n, p.spec_index()) is Some);
            }
            assert forall|s1: int, s2: int|
                0 <= s1 < 12 && 0 <= s2 < 12 && s1 != s2 && (#[trigger] self.link(n, s1)) is Some implies self.link(n, s1)
                    != #[trigger] self.link(n, s2) by {
                assert(prev.link_ok(n, s1));
                assert(prev.link_ok(n, s2));
                assert(prev.node_ok(b.index as int));
                assert(prev.link_ok(b.index as int, s1));
                assert(prev.link_ok(b.index as int, s2));
                assert(prev.link(a.index as int, s1) != Some(b));
                assert(prev.link(a.index as int, s2) != Some(b));
            }
        }
        assert(self.fresh_nodes() =~= prev.fresh_nodes() + Seq::new(
            0,
            |k: int| NodeId { index: (prev.count() + k) as usize },
        ));
    }

    /// Node `n` was first reached from `node` or from a node shallower than
    /// `node`.
    pub open spec fn made_near(&self, n: int, node: NodeId) -> bool {
        &&& self.parent_of(n) matches Some(ps)
        &&& self.link(n, ps.spec_index()) matches Some(m)
        &&& (m == node || self.depth_of(m.index as int) < self.depth_of(node.index as int))
    }

    /// Node `n` is the root or a neighbor of the root.
    pub open spec fn around_root(&self, n: int) -> bool {
        n == 0 || exists|s: int| 0 <= s < 12 && #[trigger] self.link(0, s) == Some(NodeId { index: n as usize })
    }

    /// Entry `maker[n]` of `q` is one that node `n` was made near.
    spec fn made_by<T>(&self, q: Seq<(NodeId, T)>, maker: Map<int, int>, n: int) -> bool {
        &&& maker.contains_key(n)
        &&& 0 <= maker[n] < q.len()
        &&& self.made_near(n, q[maker[n]].0)
    }

    /// Node `n` was first reached from an entry of `q`, or from a node
    /// shallower than one.
    pub open spec fn near<T>(&self, q: Seq<(NodeId, T)>, n: int) -> bool {
        exists|k: int| 0 <= k < q.len() && #[trigger] self.made_near(n, q[k].0)
    }

    /// Node `n` was reached across `side` from `node`, or from a node
    /// shallower than `d`.
    pub open spec fn made_from(&self, n: int, side: Side, node: NodeId, d: int) -> bool {
        &&& self.parent_of(n) == Some(side)
        &&& self.link(n, side.spec_index()) matches Some(m)
        &&& (m == node || self.depth_of(m.index as int) < d)
    }

    /// Node `n` was reached across `side` from a node shallower than `d`.
    pub open spec fn made_below(&self, n: int, side: Side, d: int) -> bool {
        &&& self.parent_of(n) == Some(side)
        &&& self.link(n, side.spec_index()) matches Some(m)
        &&& self.depth_of(m.index as int) < d
    }

    /// With `p` the neighbor of `n` across `t`: `p` has a neighbor `q` across
    /// `s`, and `r` is linked to `q` across `t`, unless `q`'s slot across `t`
    /// already leads elsewhere or `q` is not as deep as `n`.
    pub open spec fn closes(&self, n: int, s: int, t: int, r: NodeId) -> bool {
        let p = self.link(n, t)->0;
        &&& self.link(p.index as int, s) matches Some(q)
        &&& (self.link(r.index as int, t) == Some(q) || (self.link(q.index as int, t) matches Some(y)
            && y != r) || self.depth_of(q.index as int) != self.depth_of(n))
    }

    /// Crossing `s` then `t` from `n` leads to `x` the same way as crossing
    /// `t` then `s`: the square of cells around their shared edge closes.
    pub open spec fn square(&self, n: int, s: int, t: int, x: NodeId) -> bool {
        &&& sides_adjacent(s, t)
        &&& self.link(n, t) matches Some(b)
        &&& self.link(b.index as int, s) == Some(x)
    }

    /// Node `n` has a neighbor across `t` one step shallower than itself.
    pub open spec fn shallower_across(&self, n: int, t: int) -> bool {
        self.link(n, t) matches Some(p) && self.depth_of(p.index as int) + 1 == self.depth_of(n)
    }

    /// The neighbor of `node` across `side`, created (with whatever else the
    /// honeycomb's relations require) if it was not materialized yet.
    ///
    /// A side `t` adjacent to `side` commutes with it. Before the new node is
    /// made, each shallower neighbor `p` of `node` across such a `t` gets its
    /// own neighbor across `side`; the new node is then linked across `t` to
    /// that neighbor, which closes the square around the shared edge.
    pub fn ensure_neighbor(&mut self, node: NodeId, side: Side) -> (r: NodeId)
        requires
            old(self).wf(),
            0 <= node.index < old(self).count(),
        ensures
            final(self).wf(),
            final(self).grown_from(old(self)),
            0 <= r.index < final(self).count(),
            final(self).link(node.index as int, side.spec_index()) == Some(r),
            old(self).link(node.index as int, side.spec_index()) matches Some(m) ==> r == m
                && *final(self) == *old(self),
            old(self).link(node.index as int, side.spec_index()) is None ==> {
                &&& r.index >= old(self).count()
                &&& final(self).depth_of(r.index as int) == old(self).depth_of(node.index as int) + 1
                &&& final(self).parent_of(r.index as int) == Some(side)
                &&& forall|t: int|
                    0 <= t < 12 && t != side.spec_index() && (#[trigger] final(self).link(r.index as int, t)) is Some
                        ==> final(self).square(node.index as int, side.spec_index(), t,
                        final(self).link(r.index as int, t)->0)
                &&& forall|t: int|
                    0 <= t < 12 && sides_adjacent(t, side.spec_index()) && #[trigger] old(self).shallower_across(
                        node.index as int,
                        t,
                    ) ==> final(self).closes(node.index as int, side.spec_index(), t, r)
            },
            forall|n: int|
                0 <= n < old(self).count() && (#[trigger] old(self).link(n, side.spec_index())) is None
                    && final(self).link(n, side.spec_index()) is Some ==> old(self).depth_of(n)
                    <= old(self).depth_of(node.index as int),
            forall|n: int|
                old(self).count() <= n < final(self).count() ==> #[trigger] final(self).made_from(
                    n,
                    side,
                    node,
                    old(self).depth_of(node.index as int),
                ),
        decreases old(self).depth_of(node.index as int),
    {
        let _link_slots = self.links.len();
        proof {
            assert(self.node_ok(node.index as int));
            assert(self.link_ok(node.index as int, side.spec_index()));
        }
        if let Some(m) = self.links[node.index * SIDE_COUNT + side.index()] {
            return m;
        }
        let dn = self.depth[node.index];
        let mut i: usize = 0;
        while i < SIDE_COUNT
            invariant
                i <= SIDE_COUNT,
                old(self).wf(),
                self.wf(),
                self.grown_from(old(self)),
                0 <= node.index < old(self).count(),
                dn as int == old(self).depth_of(node.index as int),
                old(self).link(node.index as int, side.spec_index()) is None,
                forall|n: int|
                    0 <= n < old(self).count() && (#[trigger] old(self).link(n, side.spec_index())) is None
                        && self.link(n, side.spec_index()) is Some ==> old(self).depth_of(n) < dn,
                forall|n: int| old(self).count() <= n < self.count() ==> #[trigger] self.made_below(n, side, dn as int),
                forall|t: int|
                    0 <= t < i && sides_adjacent(t, side.spec_index()) && #[trigger] old(self).shallower_across(node.index as int, t) ==> self.link(
                        old(self).link(node.index as int, t)->0.index as int,
                        side.spec_index(),
                    ) is Some,
            decreases SIDE_COUNT - i,
        {
            let _link_slots = self.links.len();
            proof {
                assert(self.node_ok(node.index as int));
                assert(self.link_ok(node.index as int, i as int));
                assert(old(self).node_ok(node.index as int));
                assert(old(self).link_ok(node.index as int, i as int));
            }
            let ghost start = *self;
            if let Some(p) = self.links[node.index * SIDE_COUNT + i] {
                if dn > 0 && self.depth[p.index] == dn - 1 && Side::from_index(i).adjacent_to(side) {
                    let ghost before = *self;
                    let _q = self.ensure_neighbor(p, side);
                    proof {
                        lemma_grown_trans(old(self), &before, self);
                        assert forall|n: int|
                            0 <= n < old(self).count() && (#[trigger] old(self).link(n, side.spec_index())) is None
                                && self.link(n, side.spec_index()) is Some implies old(self).depth_of(n) < dn by {
                            if before.link(n, side.spec_index()) is None {
                                assert(before.depth_of(n) == old(self).depth_of(n));
                            }
                        }
                        assert forall|n: int| old(self).count() <= n < self.count() implies #[trigger] self.made_below(n, side, dn as int) by {
                            if n < before.count() {
                                assert(before.made_below(n, side, dn as int));
                                assert(before.link(n, side.spec_index()) is Some);
                                let m = before.link(n, side.spec_index())->0;
                                assert(before.node_ok(n));
                                assert(before.link_ok(n, side.spec_index()));
                                assert(before.depth_of(m.index as int) == self.depth_of(m.index as int));
                            } else {
                                assert(self.made_from(n, side, p, before.depth_of(p.index as int)));
                            }
                        }
                        assert forall|t: int|
                            0 <= t < i + 1 && sides_adjacent(t, side.spec_index()) && #[trigger] old(self).shallower_across(node.index as int, t) implies self.link(
                                old(self).link(node.index as int, t)->0.index as int,
                                side.spec_index(),
                            ) is Some by {
                            assert(old(self).node_ok(node.index as int));
                            assert(old(self).link_ok(node.index as int, t));
                            if t < i {
                                assert(before.link(old(self).link(node.index as int, t)->0.index as int, side.spec_index()) is Some);
                            } else {
                                assert(before.link(node.index as int, t) == old(self).link(node.index as int, t));
                            }
                        }
                    }
                }
            }
            proof {
                if sides_adjacent(i as int, side.spec_index()) && old(self).shallower_across(node.index as int, i as int) {
                    assert(start.link(node.index as int, i as int) == old(self).link(node.index as int, i as int));
                    let p = old(self).link(node.index as int, i as int)->0;
                    assert(start.depth_of(p.index as int) == old(self).depth_of(p.index as int));
                }
            }
            i = i + 1;
        }
        proof {
            if self.link(node.index as int, side.spec_index()) is Some {
                assert(old(self).depth_of(node.index as int) < dn);
            }
        }
        let ghost pre_add = *self;
        let r = self.add_node(node, side);
        let ghost added = *self;
        proof {
            lemma_grown_trans(old(self), &pre_add, self);
            assert forall|n: int| old(self).count() <= n < self.count() implies #[trigger] self.made_from(n, side, node, dn as int) by {
                if n < pre_add.count() {
                    assert(pre_add.made_below(n, side, dn as int));
                    let m = pre_add.link(n, side.spec_index())->0;
                    assert(pre_add.node_ok(n));
                    assert(pre_add.link_ok(n, side.spec_index()));
                    assert(pre_add.depth_of(m.index as int) == self.depth_of(m.index as int));
                    assert(self.link(n, side.spec_index()) == pre_add.link(n, side.spec_index()));
                } else {
                    assert(self.node_ok(node.index as int));
                    assert(self.link_ok(node.index as int, side.spec_index()));
                }
            }
            assert forall|t: int|
                0 <= t < 12 && sides_adjacent(t, side.spec_index()) && #[trigger] old(self).shallower_across(node.index as int, t) implies self.link(
                    old(self).link(node.index as int, t)->0.index as int,
                    side.spec_index(),
                ) is Some by {
                assert(old(self).node_ok(node.index as int));
                assert(old(self).link_ok(node.index as int, t));
                assert(pre_add.link(old(self).link(node.index as int, t)->0.index as int, side.spec_index()) is Some);
            }
        }
        let mut i: usize = 0;
        while i < SIDE_COUNT
            invariant
                i <= SIDE_COUNT,
                old(self).wf(),
                self.wf(),
                self.grown_from(old(self)),
                0 <= node.index < old(self).count(),
                dn as int == old(self).depth_of(node.index as int),
                old(self).link(node.index as int, side.spec_index()) is None,
                r.index >= old(self).count(),
                r.index + 1 == self.count(),
                self.depth_of(r.index as int) == dn + 1,
                self.parent_of(r.index as int) == Some(side),
                self.link(node.index as int, side.spec_index()) == Some(r),
                forall|n: int|
                    0 <= n < old(self).count() && (#[trigger] old(self).link(n, side.spec_index())) is None
                        && self.link(n, side.spec_index()) is Some ==> old(self).depth_of(n) <= dn,
                forall|n: int| old(self).count() <= n < self.count() ==> #[trigger] self.made_from(n, side, node, dn as int),
                forall|t: int|
                    0 <= t < 12 && sides_adjacent(t, side.spec_index()) && #[trigger] old(self).shallower_across(node.index as int, t) ==> self.link(
                        old(self).link(node.index as int, t)->0.index as int,
                        side.spec_index(),
                    ) is Some,
                forall|t: int|
                    0 <= t < 12 && t != side.spec_index() && (#[trigger] self.link(r.index as int, t)) is Some
                        ==> t < i && self.square(node.index as int, side.spec_index(), t, self.link(r.index as int, t)->0),
                forall|t: int|
                    0 <= t < i && sides_adjacent(t, side.spec_index()) && #[trigger] old(self).shallower_across(node.index as int, t)
                        ==> self.closes(node.index as int, side.spec_index(), t, r),
            decreases SIDE_COUNT - i,
        {
            let ghost before = *self;
            let ghost mut linked = false;
            let _link_slots = self.links.len();
            proof {
                assert(self.node_ok(node.index as int));
                assert(self.link_ok(node.index as int, i as int));
                assert(old(self).node_ok(node.index as int));
                assert(old(self).link_ok(node.index as int, i as int));
                lemma_adjacency_is_symmetric(i as int, side.spec_index());
            }
            if let Some(p) = self.links[node.index * SIDE_COUNT + i] {
                if dn > 0 && self.depth[p.index] == dn - 1 && Side::from_index(i).adjacent_to(side) {
                    proof {
                        assert(self.node_ok(p.index as int));
                        assert(self.link_ok(p.index as int, side.spec_index()));
                    }
                    if let Some(q) = self.links[p.index * SIDE_COUNT + side.index()] {
                        proof {
                            assert(self.node_ok(r.index as int));
                            assert(self.link_ok(r.index as int, side.spec_index()));
                            assert(self.link_ok(r.index as int, i as int));
                            assert(self.node_ok(q.index as int));
                            assert(self.link_ok(q.index as int, i as int));
                        }
                        let ia = r.index * SIDE_COUNT + i;
                        let ib = q.index * SIDE_COUNT + i;
                        let dq = self.depth[q.index];
                        let dr = self.depth[r.index];
                        if q.index != r.index && self.links[ia].is_none() && self.links[ib].is_none()
                            && ((dq > dr && dq - dr == 1) || (dr > dq && dr - dq == 1)) {
                            proof {
                                self.lemma_not_yet_linked(node, side, i as int, p, q, r);
                            }
                            self.connect(r, q, Side::from_index(i));
                            proof {
                                lemma_grown_trans(old(self), &before, self);
                                assert(self.link(node.index as int, i as int) == Some(p));
                                assert(self.link(p.index as int, side.spec_index()) == Some(q));
                                assert(self.square(node.index as int, side.spec_index(), i as int, q));
                                linked = true;
                            }
                        }
                    }
                }
            }
            proof {
                assert forall|n: int| old(self).count() <= n < self.count() implies #[trigger] self.made_from(n, side, node, dn as int) by {
                    assert(before.made_from(n, side, node, dn as int));
                    assert(before.link(n, side.spec_index()) is Some);
                    assert(before.node_ok(n));
                    assert(before.link_ok(n, side.spec_index()));
                }
                assert forall|t: int|
                    0 <= t < 12 && t != side.spec_index() && (#[trigger] self.link(r.index as int, t)) is Some
                        implies t < i + 1 && self.square(node.index as int, side.spec_index(), t, self.link(r.index as int, t)->0) by {
                    if t != i {
                        assert(self.link(r.index as int, t) == before.link(r.index as int, t));
                        assert(before.link(r.index as int, t) is Some);
                        let b = before.link(node.index as int, t)->0;
                        assert(before.link(node.index as int, t) is Some);
                        assert(before.node_ok(node.index as int));
                        assert(before.link_ok(node.index as int, t));
                        assert(before.link(b.index as int, side.spec_index()) is Some);
                    } else if !linked {
                        assert(before.link(r.index as int, t) is None);
                    }
                }
                assert forall|t: int|
                    0 <= t < 12 && sides_adjacent(t, side.spec_index()) && #[trigger] old(self).shallower_across(node.index as int, t) implies self.link(
                        old(self).link(node.index as int, t)->0.index as int,
                        side.spec_index(),
                    ) is Some by {
                    assert(old(self).node_ok(node.index as int));
                    assert(old(self).link_ok(node.index as int, t));
                    assert(before.link(old(self).link(node.index as int, t)->0.index as int, side.spec_index()) is Some);
                }
                assert forall|t: int|
                    0 <= t < i + 1 && sides_adjacent(t, side.spec_index()) && #[trigger] old(self).shallower_across(node.index as int, t)
                        implies self.closes(node.index as int, side.spec_index(), t, r) by {
                    assert(old(self).node_ok(node.index as int));
                    assert(old(self).link_ok(node.index as int, t));
                    let p = old(self).link(node.index as int, t)->0;
                    assert(before.link(node.index as int, t) == Some(p));
                    assert(self.link(node.index as int, t) == Some(p));
                    assert(before.link(p.index as int, side.spec_index()) is Some);
                    assert(before.node_ok(p.index as int));
                    assert(before.link_ok(p.index as int, side.spec_index()));
                    let q = before.link(p.index as int, side.spec_index())->0;
                    assert(self.link(p.index as int, side.spec_index()) == Some(q));
                    assert(before.node_ok(q.index as int));
                    assert(before.link_ok(q.index as int, t));
                    if t < i {
                        assert(before.closes(node.index as int, side.spec_index(), t, r));
                        if before.link(q.index as int, t) is Some {
                            assert(before.link(q.index as int, t) == self.link(q.index as int, t));
                        }
                        if before.link(r.index as int, t) is Some {
                            assert(before.link(r.index as int, t) == self.link(r.index as int, t));
                        }
                    } else if !linked {
                        assert(before.node_ok(r.index as int));
                        assert(before.link_ok(r.index as int, side.spec_index()));
                        assert(before.link(r.index as int, t) is None);
                        if q == r {
                            assert(before.link(r.index as int, side.spec_index()) == Some(p));
                        }
                        if before.link(q.index as int, t) == Some(r) {
                            assert(before.link_ok(q.index as int, t));
                        }
                    }
                }
            }
            i = i + 1;
        }
        r
    }

    /// The node `r` just made across `side` from `node`, whose other links
    /// each close a square at `node`, is not yet linked to `q`, the neighbor
    /// across `side` of `node`'s neighbor `p` across `t`.
    proof fn lemma_not_yet_linked(&self, node: NodeId, side: Side, t: int, p: NodeId, q: NodeId, r: NodeId)
        requires
            self.wf(),
            0 <= node.index < self.count(),
            0 <= r.index < self.count(),
            0 <= t < 12,
            t != side.spec_index(),
            self.link(node.index as int, side.spec_index()) == Some(r),
            self.link(node.index as int, t) == Some(p),
            self.link(p.index as int, side.spec_index()) == Some(q),
            self.link(r.index as int, t) is None,
            forall|u: int|
                0 <= u < 12 && u != side.spec_index() && (#[trigger] self.link(r.index as int, u)) is Some
                    ==> self.square(node.index as int, side.spec_index(), u, self.link(r.index as int, u)->0),
        ensures
            forall|u: int| 0 <= u < 12 ==> #[trigger] self.link(r.index as int, u) != Some(q),
    {
        assert(self.node_ok(node.index as int));
        assert(self.link_ok(node.index as int, side.spec_index()));
        assert(self.link_ok(node.index as int, t));
        assert(self.node_ok(p.index as int));
        assert(self.link_ok(p.index as int, side.spec_index()));
        assert(self.node_ok(q.index as int));
        assert(self.link_ok(q.index as int, side.spec_index()));
        assert forall|u: int| 0 <= u < 12 implies #[trigger] self.link(r.index as int, u) != Some(q) by {
            if self.link(r.index as int, u) == Some(q) {
                if u == side.spec_index() {
                    assert(self.node_ok(r.index as int));
                    assert(self.link_ok(r.index as int, side.spec_index()));
                    assert(self.link(p.index as int, t) == Some(node));
                    assert(self.link(p.index as int, side.spec_index()) == Some(node));
                    assert(self.links_distinct(p.index as int));
                } else {
                    let b = self.link(node.index as int, u)->0;
                    assert(self.square(node.index as int, side.spec_index(), u, q));
                    assert(self.link_ok(node.index as int, u));
                    assert(self.node_ok(b.index as int));
                    assert(self.link_ok(b.index as int, side.spec_index()));
                    assert(self.link(q.index as int, side.spec_index()) == Some(b));
                    assert(b == p);
                    assert(self.links_distinct(node.index as int));
                }
            }
        }
    }

    /// The neighbor of `node` across `side`, if it is materialized.
    pub fn neighbor(&self, node: NodeId, side: Side) -> (r: Option<NodeId>)
        requires
            self.wf(),
            0 <= node.index < self.count(),
        ensures
            r == self.link(node.index as int, side.spec_index()),
    {
        let _link_slots = self.links.len();
        self.links[node.index * SIDE_COUNT + side.index()]
    }

    /// The side through which `node` was first reached; `None` for the root.
    pub fn parent(&self, node: NodeId) -> (r: Option<Side>)
        requires
            self.wf(),
            0 <= node.index < self.count(),
        ensures
            r == self.parent_of(node.index as int),
    {
        self.parents[node.index]
    }

    /// Depth of `node`: crossings from the root on a shortest path.
    pub fn length(&self, node: NodeId) -> (r: usize)
        requires
            self.wf(),
            0 <= node.index < self.count(),
        ensures
            r as int == self.depth_of(node.index as int),
    {
        self.depth[node.index]
    }

    /// Payload of `node`, if it was populated.
    pub fn get(&self, node: NodeId) -> (r: &Option<N>)
        requires
            self.wf(),
            0 <= node.index < self.count(),
        ensures
            *r == self.value_of(node.index as int),
    {
        &self.values[node.index]
    }

    /// Sets the payload of `node`.
    pub fn set(&mut self, node: NodeId, value: N)
        requires
            old(self).wf(),
            0 <= node.index < old(self).count(),
        ensures
            final(self).wf(),
            final(self).same_shape(old(self)),
            final(self).value_of(node.index as int) == Some(value),
            forall|n: int|
                0 <= n < old(self).count() && n != node.index ==> #[trigger] final(self).value_of(n)
                    == old(self).value_of(n),
            forall|n: int, v: int|
                0 <= n < old(self).count() && 0 <= v < 20 ==> #[trigger] final(self).cube_of(n, v)
                    == old(self).cube_of(n, v),
    {
        let ghost prev = *self;
        self.values.set(node.index, Some(value));
        proof {
            lemma_wf_same_structure(&prev, self);
        }
    }

    /// Payload of vertex `v` of `node`, if it was populated.
    pub fn get_cube(&self, node: NodeId, v: Vertex) -> (r: &Option<C>)
        requires
            self.wf(),
            0 <= node.index < self.count(),
            v.wf(),
        ensures
            *r == self.cube_of(node.index as int, v.spec_index()),
    {
        let _cube_slots = self.cubes.len();
        &self.cubes[node.index * VERTEX_COUNT + v.index()]
    }

    /// Sets the payload of vertex `v` of `node`.
    pub fn set_cube(&mut self, node: NodeId, v: Vertex, cube: C)
        requires
            old(self).wf(),
            0 <= node.index < old(self).count(),
            v.wf(),
        ensures
            final(self).wf(),
            final(self).same_shape(old(self)),
            final(self).cube_of(node.index as int, v.spec_index()) == Some(cube),
            forall|n: int| 0 <= n < old(self).count() ==> #[trigger] final(self).value_of(n)
                == old(self).value_of(n),
            forall|n: int, w: int|
                0 <= n < old(self).count() && 0 <= w < 20 && !(n == node.index && w
                    == v.spec_index()) ==> #[trigger] final(self).cube_of(n, w) == old(
                    self,
                ).cube_of(n, w),
    {
        let ghost prev = *self;
        let _cube_slots = self.cubes.len();
        let i = node.index * VERTEX_COUNT + v.index();
        self.cubes.set(i, Some(cube));
        assert forall|n: int, w: int|
            0 <= n < self.count() && 0 <= w < 20 && !(n == node.index && w
                == v.spec_index()) implies #[trigger] self.cube_of(n, w) == prev.cube_of(n, w) by {
            assert(n * 20 + w != node.index * 20 + v.spec_index());
        }
        proof {
            lemma_wf_same_structure(&prev, self);
        }
    }

    /// The vertices of a node, in order of index.
    pub fn cubes_at(&self, node: NodeId) -> (r: Vec<Vertex>)
        ensures
            r@.len() == 20,
            forall|i: int| 0 <= i < 20 ==> (#[trigger] r@[i]).spec_index() == i && r@[i].wf(),
    {
        let mut r: Vec<Vertex> = Vec::new();
        let mut i: usize = 0;
        while i < VERTEX_COUNT
            invariant
                i <= VERTEX_COUNT,
                r@.len() == i,
                forall|j: int| 0 <= j < i ==> (#[trigger] r@[j]).spec_index() == j && r@[j].wf(),
            decreases VERTEX_COUNT - i,
        {
            r.push(Vertex::from_index(i));
            i = i + 1;
        }
        r
    }

    /// Nodes created since the fresh list was last cleared, oldest first.
    pub fn fresh(&self) -> (r: &Vec<NodeId>)
        ensures
            r@ == self.fresh_nodes(),
    {
        &self.fresh
    }

    /// Empties the fresh list.
    pub fn clear_fresh(&mut self)
        requires
            old(self).wf(),
        ensures
            final(self).wf(),
            final(self).fresh_nodes().len() == 0,
            final(self).count() == old(self).count(),
            forall|n: int|
                #![trigger final(self).depth_of(n)]
                #![trigger final(self).parent_of(n)]
                #![trigger final(self).value_of(n)]
                0 <= n < old(self).count() ==> {
                    &&& final(self).depth_of(n) == old(self).depth_of(n)
                    &&& final(self).parent_of(n) == old(self).parent_of(n)
                    &&& final(self).value_of(n) == old(self).value_of(n)
                },
            forall|n: int, s: int|
                0 <= n < old(self).count() && 0 <= s < 12 ==> #[trigger] final(self).link(n, s)
                    == old(self).link(n, s),
            forall|n: int, v: int|
                0 <= n < old(self).count() && 0 <= v < 20 ==> #[trigger] final(self).cube_of(n, v)
                    == old(self).cube_of(n, v),
    {
        let ghost prev = *self;
        self.fresh = Vec::new();
        proof {
            lemma_wf_same_structure(&prev, self);
        }
    }

    /// The parent side of a non-root node leads to a materialized node one
    /// step shallower and created before it.
    pub proof fn lemma_parent_link(&self, n: int)
        requires
            self.wf(),
            0 <= n < self.count(),
            self.parent_of(n) is Some,
        ensures
            self.link(n, self.parent_of(n)->0.spec_index()) matches Some(m) && 0 <= m.index < n
                && self.depth_of(m.index as int) + 1 == self.depth_of(n),
    {
        assert(self.node_ok(n));
    }

    /// Index of the oldest fresh node: every node from there on is fresh.
    pub fn fresh_start(&self) -> (r: usize)
        requires
            self.wf(),
        ensures
            r as int == self.count() - self.fresh_nodes().len(),
            forall|i: int|
                0 <= i < self.fresh_nodes().len() ==> #[trigger] self.fresh_nodes()[i].index == r
                    + i,
    {
        self.depth.len() - self.fresh.len()
    }

    /// Materializes the cells around `center`, breadth first.
    ///
    /// Every node that is expanded gets all its neighbors; `center` is always
    /// expanded. A neighbor reached for the first time is expanded in turn when
    /// `within` accepts its transform, computed by `step` from the transform of
    /// the node it was reached from and the side crossed (`start` for
    /// `center`). The caller chooses the transforms and the test: a distance
    /// from `center`, computed along the path. The result lists the expanded
    /// nodes with their transforms, in order of expansion.
    pub fn ensure_nearby<T: Copy, S: Fn(T, Side) -> T, W: Fn(T) -> bool>(
        &mut self,
        center: NodeId,
        start: T,
        step: S,
        within: W,
    ) -> (expanded: Ghost<Seq<(NodeId, T)>>)
        requires
            old(self).wf(),
            0 <= center.index < old(self).count(),
            forall|t: T, s: Side| #[trigger] step.requires((t, s)),
            forall|t: T| #[trigger] within.requires((t,)),
        ensures
            final(self).wf(),
            final(self).grown_from(old(self)),
            final(self).expansion(expanded@, center, start, step, within),
            forall|n: int| old(self).count() <= n < final(self).count() ==> #[trigger] final(self).near(expanded@, n),
    {
        let mut queue: Vec<(NodeId, T)> = Vec::new();
        queue.push((center, start));
        let mut visited: Vec<bool> = Vec::new();
        let count = self.len();
        while visited.len() < count
            invariant
                visited@.len() <= count,
                forall|x: int| 0 <= x < visited@.len() ==> !(#[trigger] visited@[x]),
            decreases count - visited@.len(),
        {
            visited.push(false);
        }
        visited.set(center.index, true);
        let ghost mut from: Seq<(int, Side)> = seq![(0int, Side::A)];
        let ghost mut slot: Map<int, int> = map![center.index as int => 0int];
        let ghost mut why: Map<int, (int, Side, T)> = Map::empty();
        let ghost mut maker: Map<int, int> = Map::empty();
        let mut head: usize = 0;
        while head < queue.len()
            invariant
                old(self).wf(),
                0 <= center.index < old(self).count(),
                self.wf(),
                self.grown_from(old(self)),
                forall|t: T, s: Side| #[trigger] step.requires((t, s)),
                forall|t: T| #[trigger] within.requires((t,)),
                1 <= queue@.len(),
                head <= queue@.len(),
                queue@[0] == (center, start),
                forall|j: int| 0 <= j < queue@.len() ==> (#[trigger] queue@[j]).0.index < self.count(),
                visited@.len() <= self.count(),
                from.len() == queue@.len(),
                forall|k: int| 1 <= k < queue@.len() ==> #[trigger] self.from_ok(queue@, from, k, step, within),
                forall|x: int| #[trigger] slot.contains_key(x) ==> 0 <= slot[x] < queue@.len() && queue@[slot[x]].0.index == x,
                forall|x: int| #[trigger] why.contains_key(x) ==> self.why_ok(queue@, why, x, step, within),
                forall|x: int| 0 <= x < visited@.len() && #[trigger] visited@[x] ==> slot.contains_key(x) || why.contains_key(x),
                forall|k: int, s: int| 0 <= k < head && 0 <= s < 12 ==> #[trigger] self.seen(queue@[k].0, s, slot, why),
                forall|n: int| old(self).count() <= n < self.count() ==> #[trigger] self.made_by(queue@, maker, n)

            decreases usize::MAX - queue@.len(), queue@.len() - head,
        {
            let (node, transform) = queue[head];
            head = head + 1;
            let ghost qlen = queue@.len();
            let mut i: usize = 0;

            while i < SIDE_COUNT
                invariant
                    old(self).wf(),
                    0 <= center.index < old(self).count(),
                    self.wf(),
                    self.grown_from(old(self)),
                    forall|t: T, s: Side| #[trigger] step.requires((t, s)),
                    forall|t: T| #[trigger] within.requires((t,)),
                    i <= SIDE_COUNT,
                    1 <= head <= qlen <= queue@.len(),
                    queue@[head - 1] == (node, transform),
                    queue@[0] == (center, start),
                    forall|j: int| 0 <= j < queue@.len() ==> (#[trigger] queue@[j]).0.index < self.count(),
                    visited@.len() <= self.count(),
                    from.len() == queue@.len(),
                    forall|k: int| 1 <= k < queue@.len() ==> #[trigger] self.from_ok(queue@, from, k, step, within),
                    forall|x: int| #[trigger] slot.contains_key(x) ==> 0 <= slot[x] < queue@.len() && queue@[slot[x]].0.index == x,
                    forall|x: int| #[trigger] why.contains_key(x) ==> self.why_ok(queue@, why, x, step, within),
                    forall|x: int| 0 <= x < visited@.len() && #[trigger] visited@[x] ==> slot.contains_key(x) || why.contains_key(x),
                    forall|k: int, s: int| 0 <= k < head - 1 && 0 <= s < 12 ==> #[trigger] self.seen(queue@[k].0, s, slot, why),
                    forall|s: int| 0 <= s < i ==> #[trigger] self.seen(node, s, slot, why),
                    forall|n: int| old(self).count() <= n < self.count() ==> #[trigger] self.made_by(queue@, maker, n)
    
                decreases SIDE_COUNT - i,
            {
                let side = Side::from_index(i);
                let ghost before = *self;
                let next = self.ensure_neighbor(node, side);
                proof {
                    lemma_grown_trans(old(self), &before, self);
                    let made = maker;
                    maker = maker.union_prefer_right(Map::new(|n: int| before.count() <= n < self.count(), |n: int| (head - 1) as int));
                    assert forall|n: int| old(self).count() <= n < self.count() implies #[trigger] self.made_by(queue@, maker, n) by {
                        if n < before.count() {
                            assert(before.made_by(queue@, made, n));
                            let m0 = queue@[made[n]].0;
                            assert(before.made_near(n, m0));
                            let ps = before.parent_of(n)->0;
                            assert(before.link(n, ps.spec_index()) is Some);
                            assert(before.node_ok(n));
                            assert(before.link_ok(n, ps.spec_index()));
                            assert(before.depth_of(m0.index as int) == self.depth_of(m0.index as int));
                        } else {
                            assert(self.made_from(n, side, node, before.depth_of(node.index as int)));
                        }
                    }
                    assert forall|k: int| 1 <= k < queue@.len() implies #[trigger] self.from_ok(queue@, from, k, step, within) by {
                        assert(before.from_ok(queue@, from, k, step, within));
                        let j = from[k].0;
                        assert(before.link(queue@[j].0.index as int, from[k].1.spec_index()) is Some);
                    }
                    assert forall|x: int| #[trigger] why.contains_key(x) implies self.why_ok(queue@, why, x, step, within) by {
                        assert(before.why_ok(queue@, why, x, step, within));
                        let j = why[x].0;
                        assert(before.link(queue@[j].0.index as int, why[x].1.spec_index()) is Some);
                    }
                    assert forall|k: int, s: int| 0 <= k < head - 1 && 0 <= s < 12 implies #[trigger] self.seen(queue@[k].0, s, slot, why) by {
                        assert(before.seen(queue@[k].0, s, slot, why));
                        assert(before.link(queue@[k].0.index as int, s) is Some);
                    }
                    assert forall|s: int| 0 <= s < i implies #[trigger] self.seen(node, s, slot, why) by {
                        assert(before.seen(node, s, slot, why));
                        assert(before.link(node.index as int, s) is Some);
                    }
                }
                let count = self.len();
                while visited.len() < count
                    invariant
                        visited@.len() <= count,
                        forall|x: int| 0 <= x < visited@.len() && #[trigger] visited@[x] ==> slot.contains_key(x) || why.contains_key(x),
                    decreases count - visited@.len(),
                {
                    visited.push(false);
                }
                let ghost q1 = queue@;
                let ghost slot1 = slot;
                let ghost why1 = why;
                let ghost was = visited@[next.index as int];
                if !visited[next.index] {
                    visited.set(next.index, true);
                    let moved = step(transform, side);
                    if within(moved) {
                        let ghost q0 = queue@;
                        let ghost f0 = from;
                        proof {
                            slot = slot.insert(next.index as int, queue@.len() as int);
                            from = from.push(((head - 1) as int, side));
                        }
                        queue.push((next, moved));
                        proof {
                            let q = queue@;
                            assert forall|k: int| 1 <= k < q.len() implies #[trigger] self.from_ok(q, from, k, step, within) by {
                                if k < q.len() - 1 {
                                    assert(self.from_ok(q0, f0, k, step, within));
                                }
                            }
                            assert forall|x: int| #[trigger] why.contains_key(x) implies self.why_ok(q, why, x, step, within) by {
                                assert(self.why_ok(q0, why, x, step, within));
                            }
                        }
                    } else {
                        proof {
                            why = why.insert(next.index as int, ((head - 1) as int, side, moved));
                        }
                    }
                }
                proof {
                    assert forall|k: int, s: int| 0 <= k < head - 1 && 0 <= s < 12 implies #[trigger] self.seen(queue@[k].0, s, slot, why) by {
                        assert(self.seen(q1[k].0, s, slot1, why1));
                        assert(queue@[k] == q1[k]);
                    }
                    assert forall|n: int| old(self).count() <= n < self.count() implies #[trigger] self.made_by(queue@, maker, n) by {
                        assert(self.made_by(q1, maker, n));
                        assert(queue@[maker[n]] == q1[maker[n]]);
                    }
                    assert forall|s: int| 0 <= s < i + 1 implies #[trigger] self.seen(node, s, slot, why) by {
                        if s < i {
                            assert(self.seen(node, s, slot1, why1));
                        } else {
                            assert(self.link(node.index as int, s) == Some(next));
                            if was {
                                assert(slot1.contains_key(next.index as int) || why1.contains_key(next.index as int));
                            }
                        }
                    }
                }
                i = i + 1;
            }
            // bounds the queue's length for the decreases clause
            let _queued = queue.len();
        }
        proof {
            let q = queue@;
            assert forall|n: int| old(self).count() <= n < self.count() implies #[trigger] self.near(q, n) by {
                assert(self.made_by(q, maker, n));
                assert(self.made_near(n, q[maker[n]].0));
            }
            assert forall|k: int, s: int|
                0 <= k < q.len() && 0 <= s < 12 implies (#[trigger] self.link(q[k].0.index as int, s)) is Some by {
                assert(self.seen(q[k].0, s, slot, why));
            }
            assert forall|k: int| 1 <= k < q.len() implies #[trigger] self.reached(q, k, step, within) by {
                assert(self.from_ok(q, from, k, step, within));
                let j = from[k].0;
                let s = from[k].1;
                assert(0 <= j < k && self.link(q[j].0.index as int, s.spec_index()) == Some(q[k].0)
                    && step.ensures((q[j].1, s), q[k].1) && within.ensures((q[k].1,), true));
            }
            assert forall|k: int, s: Side| 0 <= k < q.len() implies #[trigger] self.bordered(q, k, s, step, within) by {
                assert(self.seen(q[k].0, s.spec_index(), slot, why));
                let x = self.link(q[k].0.index as int, s.spec_index())->0;
                if slot.contains_key(x.index as int) {
                    assert(q[slot[x.index as int]].0 == x);
                } else {
                    assert(self.why_ok(q, why, x.index as int, step, within));
                    let (j, s2, t) = why[x.index as int];
                    assert(0 <= j < q.len() && self.link(q[j].0.index as int, s2.spec_index()) == Some(x)
                        && step.ensures((q[j].1, s2), t) && within.ensures((t,), false));
                }
            }
        }
        Ghost(queue@)
    }

    /// The link of `n` across `s` exists, and the node it leads to has a
    /// place in the expansion order (`slot`) or a reason to be left out (`why`).
    spec fn seen<T>(&self, n: NodeId, s: int, slot: Map<int, int>, why: Map<int, (int, Side, T)>) -> bool {
        self.link(n.index as int, s) matches Some(x) && (slot.contains_key(x.index as int)
            || why.contains_key(x.index as int))
    }

    /// Entry `k` of `q` was accepted when reached from entry `from[k].0`
    /// across side `from[k].1`.
    spec fn from_ok<T, S: Fn(T, Side) -> T, W: Fn(T) -> bool>(
        &self,
        q: Seq<(NodeId, T)>,
        from: Seq<(int, Side)>,
        k: int,
        step: S,
        within: W,
    ) -> bool {
        let j = from[k].0;
        let s = from[k].1;
        &&& 0 <= j < k
        &&& self.link(q[j].0.index as int, s.spec_index()) == Some(q[k].0)
        &&& step.ensures((q[j].1, s), q[k].1)
        &&& within.ensures((q[k].1,), true)
    }

    /// Node `x` was rejected, with transform `why[x].2`, when reached from
    /// entry `why[x].0` of `q` across side `why[x].1`.
    spec fn why_ok<T, S: Fn(T, Side) -> T, W: Fn(T) -> bool>(
        &self,
        q: Seq<(NodeId, T)>,
        why: Map<int, (int, Side, T)>,
        x: int,
        step: S,
        within: W,
    ) -> bool {
        let j = why[x].0;
        let s = why[x].1;
        let t = why[x].2;
        &&& 0 <= j < q.len()
        &&& self.link(q[j].0.index as int, s.spec_index()) == Some(NodeId { index: x as usize })
        &&& step.ensures((q[j].1, s), t)
        &&& within.ensures((t,), false)
    }

    /// Entry `k` of `q` was reached across a side from an earlier entry, and
    /// `within` accepted the transform that `step` gave it.
    pub open spec fn reached<T, S: Fn(T, Side) -> T, W: Fn(T) -> bool>(
        &self,
        q: Seq<(NodeId, T)>,
        k: int,
        step: S,
        within: W,
    ) -> bool {
        exists|j: int, s: Side|
            0 <= j < k && self.link(q[j].0.index as int, s.spec_index()) == Some(q[k].0)
                && #[trigger] step.ensures((q[j].1, s), q[k].1) && within.ensures((q[k].1,), true)
    }

    /// The neighbor of entry `k` of `q` across `s` was expanded too, or
    /// `within` rejected the transform that `step` gave it from some entry.
    pub open spec fn bordered<T, S: Fn(T, Side) -> T, W: Fn(T) -> bool>(
        &self,
        q: Seq<(NodeId, T)>,
        k: int,
        s: Side,
        step: S,
        within: W,
    ) -> bool {
        let x = self.link(q[k].0.index as int, s.spec_index())->0;
        ||| exists|m: int| 0 <= m < q.len() && (#[trigger] q[m]).0 == x
        ||| exists|j: int, s2: Side, t: T|
            0 <= j < q.len() && self.link(q[j].0.index as int, s2.spec_index()) == Some(x)
                && #[trigger] step.ensures((q[j].1, s2), t) && within.ensures((t,), false)
    }

    /// `q` is a complete expansion from `center`: it starts at `center` with
    /// transform `start`, each entry was reached and accepted, each entry has
    /// all its neighbors, and each of those was expanded or rejected.
    pub open spec fn expansion<T, S: Fn(T, Side) -> T, W: Fn(T) -> bool>(
        &self,
        q: Seq<(NodeId, T)>,
        center: NodeId,
        start: T,
        step: S,
        within: W,
    ) -> bool {
        &&& q.len() >= 1
        &&& q[0] == (center, start)
        &&& forall|k: int| 0 <= k < q.len() ==> 0 <= (#[trigger] q[k]).0.index < self.count()
        &&& forall|k: int, s: int|
            0 <= k < q.len() && 0 <= s < 12 ==> (#[trigger] self.link(q[k].0.index as int, s)) is Some
        &&& forall|k: int| 1 <= k < q.len() ==> #[trigger] self.reached(q, k, step, within)
        &&& forall|k: int, s: Side| 0 <= k < q.len() ==> #[trigger] self.bordered(q, k, s, step, within)
    }
}

/// When the expansion from the root expanded nothing but the root, the graph
/// holds the root and its twelve neighbors, and no other node.
pub proof fn lemma_root_only_expansion<N, C, T, S: Fn(T, Side) -> T, W: Fn(T) -> bool>(
    g: &Graph<N, C>,
    q: Seq<(NodeId, T)>,
    start: T,
    step: S,
    within: W,
)
    requires
        g.wf(),
        g.expansion(q, NodeId { index: 0 }, start, step, within),
        q.len() == 1,
        forall|n: int| 1 <= n < g.count() ==> #[trigger] g.near(q, n),
    ensures
        forall|s: int| 0 <= s < 12 ==> (#[trigger] g.link(0, s)) is Some,
        forall|n: int| 0 <= n < g.count() ==> #[trigger] g.around_root(n),
        g.count() == 13,
{
    assert forall|s: int| 0 <= s < 12 implies (#[trigger] g.link(0, s)) is Some by {
        assert(q[0].0.index == 0);
    }
    assert forall|n: int| 0 <= n < g.count() implies #[trigger] g.around_root(n) by {
        if n != 0 {
        assert(g.near(q, n));
        assert(g.made_near(n, q[0].0));
        assert(g.node_ok(n));
        let ps = g.parent_of(n)->0;
        assert(g.link_ok(n, ps.spec_index()));
        let m = g.link(n, ps.spec_index())->0;
        assert(g.node_ok(m.index as int));
        assert(q[0].0 == NodeId { index: 0 });
        assert(g.node_ok(0));
        assert(g.depth_of(0) == 0);
        assert(m.index == 0);
        assert(g.link(0, ps.spec_index()) == Some(NodeId { index: n as usize }));
        }
    }
    // the neighbors of the root are twelve distinct nodes, and all the others
    let f = |s: int| g.link(0, s)->0.index as int;
    let sides = set_int_range(0, 12);
    let others = set_int_range(1, g.count());
    lemma_int_range(0, 12);
    lemma_int_range(1, g.count());
    assert(g.node_ok(0));
    assert forall|s1: int, s2: int|
        sides.contains(s1) && sides.contains(s2) && #[trigger] f(s1) == #[trigger] f(s2) implies s1 == s2 by {
        assert(g.link_ok(0, s1));
        assert(g.link_ok(0, s2));
        assert(g.links_distinct(0));
        if s1 != s2 {
            assert(g.link(0, s1) != g.link(0, s2));
        }
    }
    assert(injective_on(f, sides));
    assert forall|n: int| sides.map(f).contains(n) <==> others.contains(n) by {
        if others.contains(n) {
            assert(g.around_root(n));
            let s = choose|s: int| 0 <= s < 12 && #[trigger] g.link(0, s) == Some(NodeId { index: n as usize });
            assert(f(s) == n);
            assert(sides.contains(s));
        }
        if sides.map(f).contains(n) {
            let s = choose|s: int| sides.contains(s) && n == f(s);
            assert(g.link_ok(0, s));
        }
    }
    assert(sides.map(f) =~= others);
    lemma_map_size(sides, others, f);
}

/// Whether `q` is an expansion depends on the links alone.
pub proof fn lemma_expansion_same_links<N, C, T, S: Fn(T, Side) -> T, W: Fn(T) -> bool>(
    a: &Graph<N, C>,
    b: &Graph<N, C>,
    q: Seq<(NodeId, T)>,
    center: NodeId,
    start: T,
    step: S,
    within: W,
)
    requires
        a.expansion(q, center, start, step, within),
        b.count() == a.count(),
        forall|n: int, s: int| 0 <= n < a.count() && 0 <= s < 12 ==> #[trigger] b.link(n, s) == a.link(n, s),
    ensures
        b.expansion(q, center, start, step, within),
{
    assert forall|k: int, s: int|
        0 <= k < q.len() && 0 <= s < 12 implies (#[trigger] b.link(q[k].0.index as int, s)) is Some by {
        assert(a.link(q[k].0.index as int, s) is Some);
    }
    assert forall|k: int| 1 <= k < q.len() implies #[trigger] b.reached(q, k, step, within) by {
        assert(a.reached(q, k, step, within));
        let (j, s) = choose|j: int, s: Side|
            0 <= j < k && a.link(q[j].0.index as int, s.spec_index()) == Some(q[k].0)
                && #[trigger] step.ensures((q[j].1, s), q[k].1) && within.ensures((q[k].1,), true);
        assert(b.link(q[j].0.index as int, s.spec_index()) == a.link(q[j].0.index as int, s.spec_index()));
    }
    assert forall|k: int, s: Side| 0 <= k < q.len() implies #[trigger] b.bordered(q, k, s, step, within) by {
        assert(a.bordered(q, k, s, step, within));
        assert(b.link(q[k].0.index as int, s.spec_index()) == a.link(q[k].0.index as int, s.spec_index()));
        let x = a.link(q[k].0.index as int, s.spec_index())->0;
        if !(exists|m: int| 0 <= m < q.len() && (#[trigger] q[m]).0 == x) {
            let (j, s2, t) = choose|j: int, s2: Side, t: T|
                0 <= j < q.len() && a.link(q[j].0.index as int, s2.spec_index()) == Some(x)
                    && #[trigger] step.ensures((q[j].1, s2), t) && within.ensures((t,), false);
            assert(b.link(q[j].0.index as int, s2.spec_index()) == a.link(q[j].0.index as int, s2.spec_index()));
        }
    }
}

/// Well-formedness depends only on depths, parents, links and the fresh
/// list, and on the payload vectors having the right lengths.
proof fn lemma_wf_same_structure<N, C>(a: &Graph<N, C>, b: &Graph<N, C>)
    requires
        a.wf(),
        b.depth@ == a.depth@,
        b.parents@ == a.parents@,
        b.links@ == a.links@,
        b.values@.len() == a.values@.len(),
        b.cubes@.len() == a.cubes@.len(),
        b.fresh_is_tail(),
    ensures
        b.wf(),
{
    assert forall|n: int| 0 <= n < b.count() implies #[trigger] b.node_ok(n) by {
        assert(a.node_ok(n));
        assert forall|s1: int, s2: int|
            0 <= s1 < 12 && 0 <= s2 < 12 && s1 != s2 && (#[trigger] b.link(n, s1)) is Some implies b.link(n, s1)
                != #[trigger] b.link(n, s2) by {
            assert(a.link(n, s1) == b.link(n, s1));
            assert(a.link(n, s2) == b.link(n, s2));
        }
        assert forall|s: int| 0 <= s < 12 implies #[trigger] b.link_ok(n, s) by {
            assert(a.link_ok(n, s));
        }
    }
}

/// Growth is transitive.
proof fn lemma_grown_trans<N, C>(a: &Graph<N, C>, b: &Graph<N, C>, c: &Graph<N, C>)
    requires
        b.grown_from(a),
        c.grown_from(b),
    ensures
        c.grown_from(a),
{
    assert forall|n: int, s: int|
        0 <= n < a.count() && 0 <= s < 12 && (#[trigger] a.link(n, s)) is Some implies c.link(n, s)
        == a.link(n, s) by {
        assert(b.link(n, s) == a.link(n, s));
    }
    assert forall|n: int| a.count() <= n < c.count() implies (#[trigger] c.value_of(n)) is None by {
        if n < b.count() {
            assert(c.value_of(n) == b.value_of(n));
        }
    }
    assert forall|n: int, v: int|
        a.count() <= n < c.count() && 0 <= v < 20 implies (#[trigger] c.cube_of(n, v)) is None by {
        if n < b.count() {
            assert(c.cube_of(n, v) == b.cube_of(n, v));
        }
    }
    assert forall|n: int, v: int|
        0 <= n < a.count() && 0 <= v < 20 implies #[trigger] c.cube_of(n, v) == a.cube_of(n, v) by {
        assert(c.cube_of(n, v) == b.cube_of(n, v));
    }
    assert(c.fresh_nodes() =~= a.fresh_nodes() + Seq::new(
        (c.count() - a.count()) as nat,
        |k: int| NodeId { index: (a.count() + k) as usize },
    ));
}

/// Crossing a side and then the same side again leads back: for every
/// materialized node `n` and side `s`, the neighbor across `s` of the neighbor
/// across `s` is `n`.
pub proof fn lemma_neighbor_involution<N, C>(g: &Graph<N, C>, n: int, s: Side)
    requires
        g.wf(),
        0 <= n < g.count(),
        g.link(n, s.spec_index()) is Some,
    ensures
        0 <= g.link(n, s.spec_index())->0.index < g.count(),
        g.link(g.link(n, s.spec_index())->0.index as int, s.spec_index()) == Some(
            NodeId { index: n as usize },
        ),
{
    assert(g.node_ok(n));
    assert(g.link_ok(n, s.spec_index()));
}

/// Appends `k` empty slots to `v`.
fn push_empty<T>(v: &mut Vec<Option<T>>, k: usize)
    ensures
        final(v)@ == old(v)@ + Seq::new(k as nat, |i: int| None::<T>),
{
    let mut i: usize = 0;
    while i < k
        invariant
            i <= k,
            v@ == old(v)@ + Seq::new(i as nat, |j: int| None::<T>),
        decreases k - i,
    {
        v.push(None);
        i = i + 1;
        assert(v@ =~= old(v)@ + Seq::new(i as nat, |j: int| None::<T>));
    }
}

} // verus!
