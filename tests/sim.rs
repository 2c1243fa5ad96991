use hypermine::dodeca::{Side, Vertex, SIDE_COUNT, VERTEX_COUNT};
use hypermine::graph::{Graph, NodeId};
use hypermine::sim::{
    contains_border, cube_voxels, expand, new_world, populate_cube, populate_fresh_nodes,
    populate_node, Cube, VoxelData,
};
use hypermine::world::terrain_voxels;

fn hops(d: u32, _s: Side) -> u32 {
    d + 1
}

fn dense_count(g: &Graph<bool, Cube>, n: NodeId) -> usize {
    g.cubes_at(n)
        .into_iter()
        .filter(|&v| matches!(g.get_cube(n, v), Some(Cube { voxels: VoxelData::Dense(_), .. })))
        .count()
}

#[test]
fn border_vertices() {
    let n = (0..VERTEX_COUNT).filter(|&i| contains_border(Vertex::from_index(i))).count();
    assert_eq!(n, 5);
    assert!(contains_border(Vertex::from_index(0)));
    assert!(!contains_border(Vertex::from_index(19)));
}

#[test]
fn cube_content_is_deterministic() {
    for i in 0..VERTEX_COUNT {
        let v = Vertex::from_index(i);
        match (cube_voxels(v), cube_voxels(v)) {
            (VoxelData::Dense(a), VoxelData::Dense(b)) => {
                assert_eq!(a, b);
                assert_eq!(a, terrain_voxels());
            }
            (VoxelData::Empty, VoxelData::Empty) => {}
            _ => panic!("content differs"),
        }
    }
}

#[test]
fn solidity_flips_across_boundary() {
    let mut g: Graph<bool, Cube> = Graph::new();
    let root = NodeId::root();
    populate_node(&mut g, root);
    assert_eq!(g.get(root), &Some(true));
    let a = g.ensure_neighbor(root, Side::A);
    let b = g.ensure_neighbor(root, Side::B);
    let ag = g.ensure_neighbor(a, Side::G);
    populate_node(&mut g, a);
    populate_node(&mut g, b);
    populate_node(&mut g, ag);
    assert_eq!(g.get(a), &Some(false));
    assert_eq!(g.get(b), &Some(true));
    assert_eq!(g.get(ag), &Some(false));
    let gga = g.ensure_neighbor(ag, Side::A);
    populate_node(&mut g, gga);
    assert_eq!(g.get(gga), &Some(true));
}

#[test]
fn populate_cube_fills_border_cubes() {
    let mut g: Graph<bool, Cube> = Graph::new();
    let root = NodeId::root();
    populate_cube(&mut g, root, Vertex::from_index(0));
    populate_cube(&mut g, root, Vertex::from_index(19));
    match g.get_cube(root, Vertex::from_index(0)) {
        Some(Cube { surface: None, voxels: VoxelData::Dense(d) }) => assert_eq!(d, &terrain_voxels()),
        _ => panic!("expected dense content"),
    }
    assert!(matches!(
        g.get_cube(root, Vertex::from_index(19)),
        Some(Cube { surface: None, voxels: VoxelData::Empty })
    ));
}

#[test]
fn populate_fresh_nodes_clears_fresh() {
    let mut g: Graph<bool, Cube> = Graph::new();
    let root = NodeId::root();
    populate_node(&mut g, root);
    g.ensure_nearby(root, 0u32, hops, |d: u32| d == 0);
    assert_eq!(g.fresh().len(), 12);
    populate_fresh_nodes(&mut g);
    assert!(g.fresh().is_empty());
    for i in 1..g.len() {
        let n = NodeId { index: i };
        assert!(g.get(n).is_some());
        assert_eq!(dense_count(&g, n), 5);
    }
}

#[test]
fn new_world_materializes_root_and_neighbors() {
    let g = new_world(0u32, hops, |d: u32| d == 0);
    let root = NodeId::root();
    assert_eq!(g.len(), 1 + SIDE_COUNT);
    assert!(g.fresh().is_empty());
    assert_eq!(g.get(root), &Some(true));
    for i in 0..SIDE_COUNT {
        let s = Side::from_index(i);
        let n = g.neighbor(root, s).unwrap();
        assert_eq!(g.get(n), &Some(s != Side::A));
        assert_eq!(dense_count(&g, n), 5);
    }
    assert_eq!(dense_count(&g, root), 5);
    for v in g.cubes_at(root) {
        assert!(g.get_cube(root, v).is_some());
    }
}

#[test]
fn crossing_one_boundary_expands_once() {
    let mut g = new_world(0u32, hops, |d: u32| d == 0);
    let b = g.neighbor(NodeId::root(), Side::B).unwrap();
    expand(&mut g, b, 0u32, hops, |d: u32| d == 0);
    // the same radius from the new reference, starting from nothing
    let mut h: Graph<bool, Cube> = Graph::new();
    h.ensure_nearby(NodeId::root(), 0u32, hops, |d: u32| d == 0);
    let hb = h.neighbor(NodeId::root(), Side::B).unwrap();
    h.ensure_nearby(hb, 0u32, hops, |d: u32| d == 0);
    assert_eq!(g.len(), h.len());
    assert_eq!(g.len(), 24);
    assert!(g.fresh().is_empty());
    for i in 0..g.len() {
        assert!(g.get(NodeId { index: i }).is_some());
    }
    // a second step inside the same cell adds nothing
    expand(&mut g, b, 0u32, hops, |d: u32| d == 0);
    assert_eq!(g.len(), 24);
}

#[test]
fn populate_fresh_nodes_on_bare_graph_does_nothing() {
    let mut g: Graph<bool, Cube> = Graph::new();
    populate_fresh_nodes(&mut g);
    assert_eq!(g.len(), 1);
    assert_eq!(g.get(NodeId::root()), &None);
    assert!(g.fresh().is_empty());
}

#[test]
fn populate_fresh_nodes_ignores_unrelated_nodes() {
    // the root is solid; B's neighbor across G is created but left without
    // solidity, and only the nodes made afterwards are populated
    let mut g: Graph<bool, Cube> = Graph::new();
    let root = NodeId::root();
    populate_node(&mut g, root);
    let b = g.ensure_neighbor(root, Side::B);
    populate_node(&mut g, b);
    let bc = g.ensure_neighbor(b, Side::G);
    g.clear_fresh();
    let a = g.ensure_neighbor(root, Side::A);
    populate_fresh_nodes(&mut g);
    assert_eq!(g.get(a), &Some(false));
    assert_eq!(g.get(bc), &None);
    assert_eq!(dense_count(&g, a), 5);
}
