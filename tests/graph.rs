use hypermine::dodeca::{Side, SIDE_COUNT};
use hypermine::graph::{Graph, NodeId};

fn sides() -> Vec<Side> {
    (0..SIDE_COUNT).map(Side::from_index).collect()
}

fn hops(d: u32, _s: Side) -> u32 {
    d + 1
}

#[test]
fn new_graph_holds_root() {
    let g: Graph<bool, ()> = Graph::new();
    assert_eq!(g.len(), 1);
    assert_eq!(g.parent(NodeId::root()), None);
    assert_eq!(g.length(NodeId::root()), 0);
    assert!(g.fresh().is_empty());
    for s in sides() {
        assert_eq!(g.neighbor(NodeId::root(), s), None);
    }
}

#[test]
fn ensure_neighbor_is_idempotent() {
    let mut g: Graph<bool, ()> = Graph::new();
    let root = NodeId::root();
    let a = g.ensure_neighbor(root, Side::A);
    assert_eq!(g.len(), 2);
    assert_eq!(g.ensure_neighbor(root, Side::A), a);
    assert_eq!(g.len(), 2);
    assert_eq!(g.ensure_neighbor(a, Side::A), root);
    assert_eq!(g.parent(a), Some(Side::A));
    assert_eq!(g.length(a), 1);
    assert_eq!(g.fresh(), &vec![a]);
}

#[test]
fn adjacent_sides_commute() {
    let mut g: Graph<bool, ()> = Graph::new();
    let root = NodeId::root();
    let a = g.ensure_neighbor(root, Side::A);
    let b = g.ensure_neighbor(root, Side::B);
    let ab = g.ensure_neighbor(a, Side::B);
    assert_eq!(g.ensure_neighbor(b, Side::A), ab);
    assert_eq!(g.length(ab), 2);
    // A and G share no edge: the two paths lead to different cells
    let gg = g.ensure_neighbor(root, Side::G);
    let ag = g.ensure_neighbor(a, Side::G);
    let ga = g.ensure_neighbor(gg, Side::A);
    assert_ne!(ag, ga);
}

#[test]
fn neighbor_of_neighbor_returns() {
    let mut g: Graph<bool, ()> = Graph::new();
    g.ensure_nearby(NodeId::root(), 0u32, hops, |d: u32| d <= 1);
    for i in 0..g.len() {
        let n = NodeId { index: i };
        for s in sides() {
            if let Some(m) = g.neighbor(n, s) {
                assert_eq!(g.neighbor(m, s), Some(n));
                let (dn, dm) = (g.length(n), g.length(m));
                assert!(dn + 1 == dm || dm + 1 == dn);
            }
        }
    }
}

#[test]
fn nearby_within_zero_hops() {
    let mut g: Graph<bool, ()> = Graph::new();
    g.ensure_nearby(NodeId::root(), 0u32, hops, |d: u32| d == 0);
    assert_eq!(g.len(), 13);
    assert_eq!(g.fresh().len(), 12);
    for s in sides() {
        assert!(g.neighbor(NodeId::root(), s).is_some());
    }
}

#[test]
fn nearby_within_one_hop() {
    // 1 root, 12 cells one step away, and 102 distinct cells two steps away:
    // 72 ordered pairs of sides that share no edge, and 30 unordered pairs
    // that do (those commute).
    let mut g: Graph<bool, ()> = Graph::new();
    g.ensure_nearby(NodeId::root(), 0u32, hops, |d: u32| d <= 1);
    assert_eq!(g.len(), 115);
    let deep = (0..g.len()).filter(|&i| g.length(NodeId { index: i }) == 2).count();
    assert_eq!(deep, 102);
}

#[test]
fn nearby_twice_adds_nothing() {
    let mut g: Graph<bool, ()> = Graph::new();
    g.ensure_nearby(NodeId::root(), 0u32, hops, |d: u32| d <= 1);
    g.clear_fresh();
    g.ensure_nearby(NodeId::root(), 0u32, hops, |d: u32| d <= 1);
    assert_eq!(g.len(), 115);
    assert!(g.fresh().is_empty());
}

#[test]
fn payloads_are_stored() {
    let mut g: Graph<u32, u8> = Graph::new();
    let root = NodeId::root();
    let b = g.ensure_neighbor(root, Side::B);
    g.set(b, 7);
    assert_eq!(g.get(b), &Some(7));
    assert_eq!(g.get(root), &None);
    let cubes = g.cubes_at(b);
    assert_eq!(cubes.len(), 20);
    g.set_cube(b, cubes[3], 9);
    assert_eq!(g.get_cube(b, cubes[3]), &Some(9));
    assert_eq!(g.get_cube(b, cubes[4]), &None);
    assert_eq!(g.get_cube(root, cubes[3]), &None);
}

#[test]
fn squares_close_around_every_edge() {
    let mut g: Graph<bool, ()> = Graph::new();
    g.ensure_nearby(NodeId::root(), 0u32, hops, |d: u32| d <= 1);
    let mut closed = 0;
    for i in 0..g.len() {
        let n = NodeId { index: i };
        for s in sides() {
            for t in sides() {
                if !s.adjacent_to(t) {
                    continue;
                }
                let st = g.neighbor(n, s).and_then(|a| g.neighbor(a, t));
                let ts = g.neighbor(n, t).and_then(|b| g.neighbor(b, s));
                if let (Some(x), Some(y)) = (st, ts) {
                    assert_eq!(x, y);
                    closed += 1;
                }
            }
        }
    }
    assert!(closed > 0);
}
