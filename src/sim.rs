//! Populating freshly materialized cells: solidity of each node and voxel
//! content of each of its cubes.
use vstd::prelude::*;
use crate::dodeca::{Side, Vertex, vertex_sides};
use crate::graph::{Graph, NodeId, lemma_expansion_same_links, lemma_neighbor_involution};
use crate::world::{Material, terrain_grid, terrain_voxels};

verus! {

/// Voxel content of a cube.
pub enum VoxelData {
    /// No data: the whole cube is void.
    Empty,
    /// One material per voxel of the grid, halo included.
    Dense(Vec<Material>),
}

/// The voxel chunk at one vertex of a node.
pub struct Cube {
    /// Slot of the renderer's cache that holds this cube's surface, if any;
    /// never read here.
    pub surface: Option<usize>,
    pub voxels: VoxelData,
}

/// Whether vertex `v` lies on the boundary side `A` of its cell.
pub open spec fn touches_boundary(v: Vertex) -> bool {
    let (x, y, z) = vertex_sides(v.spec_index());
    x == 0 || y == 0 || z == 0
}

/// The content that the cube at vertex `v` receives.
pub open spec fn cube_content_ok(c: Cube, v: Vertex) -> bool {
    &&& c.surface is None
    &&& if touches_boundary(v) {
        c.voxels matches VoxelData::Dense(d) && d@ == terrain_grid()
    } else {
        c.voxels is Empty
    }
}

/// Solidity of a node first reached across `parent` from a node of solidity
/// `parent_solid`: the root is solid, and crossing side `A` flips solidity.
pub open spec fn solidity(parent: Option<Side>, parent_solid: bool) -> bool {
    match parent {
        None => true,
        Some(s) => if s == Side::A {
            !parent_solid
        } else {
            parent_solid
        },
    }
}

/// The node that `n` was first reached from.
pub open spec fn parent_node(g: &Graph<bool, Cube>, n: int) -> int {
    g.link(n, g.parent_of(n)->0.spec_index())->0.index as int
}

/// Node `n` carries the solidity that its parent's solidity gives it.
pub open spec fn solidity_ok(g: &Graph<bool, Cube>, n: int) -> bool {
    g.value_of(n) == Some(solidity(g.parent_of(n), g.value_of(parent_node(g, n))->0))
}

/// Every node but the fresh ones has its solidity.
pub open spec fn settled(g: &Graph<bool, Cube>) -> bool {
    forall|n: int| 0 <= n < g.count() - g.fresh_nodes().len() ==> (#[trigger] g.value_of(n)) is Some
}

/// Every fresh node whose parent is not fresh has a parent with its solidity.
pub open spec fn parents_ready(g: &Graph<bool, Cube>) -> bool {
    forall|n: int|
        g.count() - g.fresh_nodes().len() <= n < g.count() && g.parent_of(n) is Some && parent_node(g, n)
            < g.count() - g.fresh_nodes().len() ==> (#[trigger] g.value_of(parent_node(g, n))) is Some
}

/// Whether the cube at `v` lies on the boundary side `A`.
pub fn contains_border(v: Vertex) -> (r: bool)
    requires
        v.wf(),
    ensures
        r == touches_boundary(v),
{
    let sides = v.canonical_sides();
    let mut i: usize = 0;
    let mut found = false;
    while i < 3
        invariant
            i <= 3,
            found == exists|j: int| 0 <= j < i && (#[trigger] sides[j]).spec_index() == 0,
        decreases 3 - i,
    {
        if sides[i] == Side::A {
            found = true;
        }
        i = i + 1;
    }
    assert(found == (sides[0].spec_index() == 0 || sides[1].spec_index() == 0
        || sides[2].spec_index() == 0));
    found
}

/// Voxel content of the cube at `v`: terrain where the cube touches the
/// boundary side, nothing elsewhere.
pub fn cube_voxels(v: Vertex) -> (r: VoxelData)
    requires
        v.wf(),
    ensures
        if touches_boundary(v) {
            r matches VoxelData::Dense(d) && d@ == terrain_grid()
        } else {
            r is Empty
        },
{
    if contains_border(v) {
        VoxelData::Dense(terrain_voxels())
    } else {
        VoxelData::Empty
    }
}

/// Gives `node` its solidity, from its parent's.
pub fn populate_node(graph: &mut Graph<bool, Cube>, node: NodeId)
    requires
        old(graph).wf(),
        0 <= node.index < old(graph).count(),
        old(graph).parent_of(node.index as int) is Some ==> old(graph).value_of(
            parent_node(old(graph), node.index as int),
        ) is Some,
    ensures
        final(graph).wf(),
        final(graph).same_shape(old(graph)),
        final(graph).value_of(node.index as int) == Some(
            solidity(
                old(graph).parent_of(node.index as int),
                old(graph).value_of(parent_node(old(graph), node.index as int))->0,
            ),
        ),
        forall|n: int|
            0 <= n < old(graph).count() && n != node.index ==> #[trigger] final(graph).value_of(n)
                == old(graph).value_of(n),
        forall|n: int, v: int|
            0 <= n < old(graph).count() && 0 <= v < 20 ==> #[trigger] final(graph).cube_of(n, v)
                == old(graph).cube_of(n, v),
{
    let solid = match graph.parent(node) {
        None => true,
        Some(side) => {
            proof {
                graph.lemma_parent_link(node.index as int);
            }
            let parent = graph.neighbor(node, side).unwrap();
            let parent_solid = *graph.get(parent).as_ref().unwrap();
            if side == Side::A {
                !parent_solid
            } else {
                parent_solid
            }
        },
    };
    graph.set(node, solid);
}

/// Fills the cube at vertex `v` of `node`.
pub fn populate_cube(graph: &mut Graph<bool, Cube>, node: NodeId, v: Vertex)
    requires
        old(graph).wf(),
        0 <= node.index < old(graph).count(),
        v.wf(),
    ensures
        final(graph).wf(),
        final(graph).same_shape(old(graph)),
        final(graph).cube_of(node.index as int, v.spec_index()) matches Some(c) && cube_content_ok(
            c,
            v,
        ),
        forall|n: int| 0 <= n < old(graph).count() ==> #[trigger] final(graph).value_of(n)
            == old(graph).value_of(n),
        forall|n: int, w: int|
            0 <= n < old(graph).count() && 0 <= w < 20 && !(n == node.index && w == v.spec_index())
                ==> #[trigger] final(graph).cube_of(n, w) == old(graph).cube_of(n, w),
{
    let voxels = cube_voxels(v);
    graph.set_cube(node, v, Cube { surface: None, voxels });
}

/// What a cube holds, as a sequence of materials; `None` when empty.
pub open spec fn voxel_view(d: VoxelData) -> Option<Seq<Material>> {
    match d {
        VoxelData::Empty => None,
        VoxelData::Dense(v) => Some(v@),
    }
}

/// Two cubes populated at the same vertex hold identical voxels: content
/// depends on the cube's position in its cell alone.
pub proof fn lemma_population_deterministic(c1: Cube, c2: Cube, v: Vertex)
    requires
        cube_content_ok(c1, v),
        cube_content_ok(c2, v),
    ensures
        voxel_view(c1.voxels) == voxel_view(c2.voxels),
{
}

/// Node `n` and all its cubes are populated by the rules.
pub open spec fn node_populated(g: &Graph<bool, Cube>, n: int) -> bool {
    &&& solidity_ok(g, n)
    &&& forall|v: int|
        0 <= v < 20 ==> ((#[trigger] g.cube_of(n, v)) matches Some(c) && cube_content_ok(
            c,
            Vertex { index: v as u8 },
        ))
}

/// Fills every cube of `node`.
pub fn populate_cubes(graph: &mut Graph<bool, Cube>, node: NodeId)
    requires
        old(graph).wf(),
        0 <= node.index < old(graph).count(),
    ensures
        final(graph).wf(),
        final(graph).same_shape(old(graph)),
        forall|n: int| 0 <= n < old(graph).count() ==> #[trigger] final(graph).value_of(n)
            == old(graph).value_of(n),
        forall|n: int, v: int|
            0 <= n < old(graph).count() && n != node.index && 0 <= v < 20 ==> #[trigger] final(graph).cube_of(n, v)
                == old(graph).cube_of(n, v),
        forall|v: int|
            0 <= v < 20 ==> ((#[trigger] final(graph).cube_of(node.index as int, v)) matches Some(c)
                && cube_content_ok(c, Vertex { index: v as u8 })),
{
    let vertices = graph.cubes_at(node);
    let mut k: usize = 0;
    while k < vertices.len()
        invariant
            old(graph).wf(),
            graph.wf(),
            graph.same_shape(old(graph)),
            0 <= node.index < old(graph).count(),
            vertices@.len() == 20,
            forall|i: int|
                0 <= i < 20 ==> (#[trigger] vertices@[i]).spec_index() == i && vertices@[i].wf(),
            k <= 20,
            forall|n: int| 0 <= n < old(graph).count() ==> #[trigger] graph.value_of(n)
                == old(graph).value_of(n),
            forall|n: int, v: int|
                0 <= n < old(graph).count() && n != node.index && 0 <= v < 20 ==> #[trigger] graph.cube_of(n, v)
                    == old(graph).cube_of(n, v),
            forall|v: int|
                0 <= v < k ==> ((#[trigger] graph.cube_of(node.index as int, v)) matches Some(c)
                    && cube_content_ok(c, Vertex { index: v as u8 })),
        decreases 20 - k,
    {
        let ghost before = *graph;
        let v = vertices[k];
        populate_cube(graph, node, v);
        proof {
            assert(v == Vertex { index: k as u8 });
            assert forall|w: int| 0 <= w < k + 1 implies ((#[trigger] graph.cube_of(node.index as int, w)) matches Some(c)
                && cube_content_ok(c, Vertex { index: w as u8 })) by {
                if w < k {
                    assert(graph.cube_of(node.index as int, w) == before.cube_of(node.index as int, w));
                }
            }
        }
        k = k + 1;
    }
}

/// Populates every fresh node, then every cube of every fresh node, and
/// empties the fresh list.
pub fn populate_fresh_nodes(graph: &mut Graph<bool, Cube>)
    requires
        old(graph).wf(),
        parents_ready(old(graph)),
    ensures
        final(graph).wf(),
        final(graph).count() == old(graph).count(),
        final(graph).fresh_nodes().len() == 0,
        forall|n: int|
            #![trigger final(graph).depth_of(n)]
            #![trigger final(graph).parent_of(n)]
            0 <= n < old(graph).count() ==> final(graph).depth_of(n) == old(graph).depth_of(n)
                && final(graph).parent_of(n) == old(graph).parent_of(n),
        forall|n: int, s: int|
            0 <= n < old(graph).count() && 0 <= s < 12 ==> #[trigger] final(graph).link(n, s)
                == old(graph).link(n, s),
        forall|n: int|
            old(graph).count() - old(graph).fresh_nodes().len() <= n < old(graph).count()
                ==> (#[trigger] final(graph).value_of(n)) is Some,
        forall|n: int|
            0 <= n < old(graph).count() - old(graph).fresh_nodes().len() ==> #[trigger] final(graph).value_of(n) == old(graph).value_of(n),
        forall|n: int, v: int|
            0 <= n < old(graph).count() - old(graph).fresh_nodes().len() && 0 <= v < 20
                ==> #[trigger] final(graph).cube_of(n, v) == old(graph).cube_of(n, v),
        forall|n: int|
            old(graph).count() - old(graph).fresh_nodes().len() <= n < old(graph).count()
                ==> #[trigger] node_populated(final(graph), n),
{
    let total = graph.len();
    let first = graph.fresh_start();
    graph.clear_fresh();
    let mut j = first;
    while j < total
        invariant
            old(graph).wf(),
            parents_ready(old(graph)),
            graph.wf(),
            first as int == old(graph).count() - old(graph).fresh_nodes().len(),
            first <= j <= total,
            total as int == old(graph).count(),
            graph.count() == old(graph).count(),
            graph.fresh_nodes().len() == 0,
            forall|n: int|
                #![trigger graph.depth_of(n)]
                #![trigger graph.parent_of(n)]
                0 <= n < old(graph).count() ==> graph.depth_of(n) == old(graph).depth_of(n)
                    && graph.parent_of(n) == old(graph).parent_of(n),
            forall|n: int, s: int|
                0 <= n < old(graph).count() && 0 <= s < 12 ==> #[trigger] graph.link(n, s)
                    == old(graph).link(n, s),
            forall|n: int| 0 <= n < first ==> #[trigger] graph.value_of(n) == old(graph).value_of(n),
            forall|n: int| first <= n < j ==> (#[trigger] graph.value_of(n)) is Some,
            forall|n: int| first <= n < j ==> #[trigger] solidity_ok(graph, n),
            forall|n: int, v: int|
                0 <= n < old(graph).count() && 0 <= v < 20 ==> #[trigger] graph.cube_of(n, v)
                    == old(graph).cube_of(n, v),
        decreases total - j,
    {
        let ghost before = *graph;
        let node = NodeId { index: j };
        proof {
            if graph.parent_of(j as int) is Some {
                graph.lemma_parent_link(j as int);
                let ps = graph.parent_of(j as int)->0;
                assert(graph.link(j as int, ps.spec_index()) == old(graph).link(j as int, ps.spec_index()));
                let p = parent_node(graph, j as int);
                if p < first {
                    assert(parent_node(old(graph), j as int) == p);
                    assert(old(graph).value_of(p) is Some);
                }
            }
        }
        populate_node(graph, node);
        proof {
            assert forall|n: int| first <= n < j + 1 implies #[trigger] solidity_ok(graph, n) by {
                if n < j {
                    assert(solidity_ok(&before, n));
                    if before.parent_of(n) is Some {
                        before.lemma_parent_link(n);
                    }
                }
            }
        }
        j = j + 1;
    }
    let mut j = first;
    while j < total
        invariant
            old(graph).wf(),
            graph.wf(),
            first as int == old(graph).count() - old(graph).fresh_nodes().len(),
            first <= j <= total,
            total as int == old(graph).count(),
            graph.count() == old(graph).count(),
            graph.fresh_nodes().len() == 0,
            forall|n: int|
                #![trigger graph.depth_of(n)]
                #![trigger graph.parent_of(n)]
                0 <= n < old(graph).count() ==> graph.depth_of(n) == old(graph).depth_of(n)
                    && graph.parent_of(n) == old(graph).parent_of(n),
            forall|n: int, s: int|
                0 <= n < old(graph).count() && 0 <= s < 12 ==> #[trigger] graph.link(n, s)
                    == old(graph).link(n, s),
            forall|n: int| 0 <= n < first ==> #[trigger] graph.value_of(n) == old(graph).value_of(n),
            forall|n: int| first <= n < total ==> (#[trigger] graph.value_of(n)) is Some,
            forall|n: int| first <= n < total ==> #[trigger] solidity_ok(graph, n),
            forall|n: int, v: int|
                0 <= n < first && 0 <= v < 20 ==> #[trigger] graph.cube_of(n, v) == old(graph).cube_of(n, v),
            forall|n: int| first <= n < j ==> #[trigger] node_populated(graph, n),
        decreases total - j,
    {
        let node = NodeId { index: j };
        let ghost before = *graph;
        populate_cubes(graph, node);
        proof {
            assert forall|n: int| first <= n < total implies #[trigger] solidity_ok(graph, n) by {
                assert(solidity_ok(&before, n));
                if before.parent_of(n) is Some {
                    before.lemma_parent_link(n);
                }
            }
            assert forall|n: int| first <= n < j + 1 implies #[trigger] node_populated(graph, n) by {
                if n < j {
                    assert(node_populated(&before, n));
                    assert forall|w: int| 0 <= w < 20 implies ((#[trigger] graph.cube_of(n, w)) matches Some(c)
                        && cube_content_ok(c, Vertex { index: w as u8 })) by {
                        assert(graph.cube_of(n, w) == before.cube_of(n, w));
                    }
                } else {
                    assert(solidity_ok(&before, n));
                    if before.parent_of(n) is Some {
                        before.lemma_parent_link(n);
                    }
                }
            }
        }
        j = j + 1;
    }
}

/// Every link of `g` leads back across the same side.
pub open spec fn links_return(g: &Graph<bool, Cube>) -> bool {
    forall|n: int, s: Side|
        0 <= n < g.count() && (#[trigger] g.link(n, s.spec_index())) is Some ==> g.link(
            g.link(n, s.spec_index())->0.index as int,
            s.spec_index(),
        ) == Some(NodeId { index: n as usize })
}

/// Materializes the cells around `center` (see `Graph::ensure_nearby`) and
/// populates every node and cube that this creates. The result lists the
/// expanded nodes with their transforms, in order of expansion.
pub fn expand<T: Copy, S: Fn(T, Side) -> T, W: Fn(T) -> bool>(
    graph: &mut Graph<bool, Cube>,
    center: NodeId,
    start: T,
    step: S,
    within: W,
) -> (expanded: Ghost<Seq<(NodeId, T)>>)
    requires
        old(graph).wf(),
        settled(old(graph)),
        0 <= center.index < old(graph).count(),
        forall|t: T, s: Side| #[trigger] step.requires((t, s)),
        forall|t: T| #[trigger] within.requires((t,)),
    ensures
        final(graph).wf(),
        final(graph).count() >= old(graph).count(),
        final(graph).fresh_nodes().len() == 0,
        final(graph).expansion(expanded@, center, start, step, within),
        links_return(final(graph)),
        forall|n: int| old(graph).count() <= n < final(graph).count() ==> #[trigger] final(graph).near(expanded@, n),
        forall|n: int|
            #![trigger final(graph).depth_of(n)]
            #![trigger final(graph).parent_of(n)]
            0 <= n < old(graph).count() ==> final(graph).depth_of(n) == old(graph).depth_of(n)
                && final(graph).parent_of(n) == old(graph).parent_of(n),
        forall|n: int, s: int|
            0 <= n < old(graph).count() && 0 <= s < 12 && (#[trigger] old(graph).link(n, s)) is Some
                ==> final(graph).link(n, s) == old(graph).link(n, s),
        forall|n: int| 0 <= n < final(graph).count() ==> (#[trigger] final(graph).value_of(n)) is Some,
        forall|n: int|
            0 <= n < old(graph).count() - old(graph).fresh_nodes().len() ==> #[trigger] final(graph).value_of(n)
                == old(graph).value_of(n),
        forall|n: int, v: int|
            0 <= n < old(graph).count() - old(graph).fresh_nodes().len() && 0 <= v < 20
                ==> #[trigger] final(graph).cube_of(n, v) == old(graph).cube_of(n, v),
        forall|n: int|
            old(graph).count() - old(graph).fresh_nodes().len() <= n < final(graph).count()
                ==> #[trigger] node_populated(final(graph), n),
{
    let expanded = graph.ensure_nearby(center, start, step, within);
    let ghost grown = *graph;
    proof {
        assert forall|n: int| 0 <= n < grown.count() - grown.fresh_nodes().len() implies (
        #[trigger] grown.value_of(n)) is Some by {
            assert(grown.value_of(n) == old(graph).value_of(n));
        }
    }
    populate_fresh_nodes(graph);
    proof {
        assert forall|n: int, s: int|
            0 <= n < old(graph).count() && 0 <= s < 12 && (#[trigger] old(graph).link(n, s)) is Some
                implies graph.link(n, s) == old(graph).link(n, s) by {
            assert(grown.link(n, s) == old(graph).link(n, s));
        }
        assert forall|n: int| 0 <= n < old(graph).count() implies graph.depth_of(n) == old(graph).depth_of(n)
            && graph.parent_of(n) == old(graph).parent_of(n) by {
            assert(grown.depth_of(n) == old(graph).depth_of(n));
            assert(grown.parent_of(n) == old(graph).parent_of(n));
        }
        assert forall|n: int|
            0 <= n < old(graph).count() - old(graph).fresh_nodes().len() implies #[trigger] graph.value_of(n)
                == old(graph).value_of(n) by {
            assert(grown.value_of(n) == old(graph).value_of(n));
        }
        assert forall|n: int, v: int|
            0 <= n < old(graph).count() - old(graph).fresh_nodes().len() && 0 <= v < 20
                implies #[trigger] graph.cube_of(n, v) == old(graph).cube_of(n, v) by {
            assert(grown.cube_of(n, v) == old(graph).cube_of(n, v));
        }
        lemma_expansion_same_links(&grown, graph, expanded@, center, start, step, within);
        assert forall|n: int, s: Side|
            0 <= n < graph.count() && (#[trigger] graph.link(n, s.spec_index())) is Some implies graph.link(
                graph.link(n, s.spec_index())->0.index as int,
                s.spec_index(),
            ) == Some(NodeId { index: n as usize }) by {
            lemma_neighbor_involution(graph, n, s);
        }
        assert forall|n: int| old(graph).count() <= n < graph.count() implies #[trigger] graph.near(expanded@, n) by {
            assert(grown.near(expanded@, n));
            let k = choose|k: int| 0 <= k < expanded@.len() && #[trigger] grown.made_near(n, expanded@[k].0);
            let ps = grown.parent_of(n)->0;
            grown.lemma_parent_link(n);
            assert(grown.link(n, ps.spec_index()) is Some);
            let m = grown.link(n, ps.spec_index())->0;
            assert(graph.link(n, ps.spec_index()) == grown.link(n, ps.spec_index()));
            assert(graph.depth_of(m.index as int) == grown.depth_of(m.index as int));
            assert(graph.depth_of(expanded@[k].0.index as int) == grown.depth_of(expanded@[k].0.index as int));
            assert(graph.made_near(n, expanded@[k].0));
        }
    }
    expanded
}

/// A world around the root: the root is solid and its cubes are filled, the
/// cells around it are materialized as `expand` does from the root, and every
/// node is populated.
pub fn new_world<T: Copy, S: Fn(T, Side) -> T, W: Fn(T) -> bool>(start: T, step: S, within: W) -> (r:
    Graph<bool, Cube>)
    requires
        forall|t: T, s: Side| #[trigger] step.requires((t, s)),
        forall|t: T| #[trigger] within.requires((t,)),
    ensures
        r.wf(),
        r.fresh_nodes().len() == 0,
        r.value_of(0) == Some(true),
        r.parent_of(0) is None,
        links_return(&r),
        exists|e: Seq<(NodeId, T)>|
            r.expansion(e, NodeId { index: 0 }, start, step, within) && forall|n: int|
                1 <= n < r.count() ==> #[trigger] r.near(e, n),
        forall|n: int| 0 <= n < r.count() ==> (#[trigger] r.value_of(n)) is Some,
        forall|n: int| 0 <= n < r.count() ==> #[trigger] node_populated(&r, n),
{
    let mut graph: Graph<bool, Cube> = Graph::new();
    let root = NodeId::root();
    populate_node(&mut graph, root);
    populate_cubes(&mut graph, root);
    let ghost seeded = graph;
    let expanded = expand(&mut graph, root, start, step, within);
    assert(graph.expansion(expanded@, root, start, step, within));
    assert(forall|n: int| 1 <= n < graph.count() ==> #[trigger] graph.near(expanded@, n));
    assert(node_populated(&graph, 0)) by {
        assert(node_populated(&seeded, 0));
        assert forall|w: int| 0 <= w < 20 implies ((#[trigger] graph.cube_of(0, w)) matches Some(c)
            && cube_content_ok(c, Vertex { index: w as u8 })) by {
            assert(graph.cube_of(0, w) == seeded.cube_of(0, w));
        }
    }
    graph
}

} // verus!
