use hypermine::dodeca::{Side, Vertex, SIDE_COUNT, VERTEX_COUNT};

fn all_sides() -> Vec<Side> {
    (0..SIDE_COUNT).map(Side::from_index).collect()
}

#[test]
fn side_index_round_trip() {
    for i in 0..SIDE_COUNT {
        assert_eq!(Side::from_index(i).index(), i);
    }
    assert_eq!(Side::A.index(), 0);
    assert_eq!(Side::L.index(), 11);
}

#[test]
fn every_side_touches_five_others() {
    for a in all_sides() {
        assert!(!a.adjacent_to(a));
        let n = all_sides().into_iter().filter(|&b| a.adjacent_to(b)).count();
        assert_eq!(n, 5);
        for b in all_sides() {
            assert_eq!(a.adjacent_to(b), b.adjacent_to(a));
        }
    }
}

#[test]
fn top_face_touches_upper_ring() {
    assert!(Side::A.adjacent_to(Side::B));
    assert!(Side::A.adjacent_to(Side::F));
    assert!(!Side::A.adjacent_to(Side::G));
    assert!(!Side::A.adjacent_to(Side::L));
    assert!(Side::B.adjacent_to(Side::G));
    assert!(Side::B.adjacent_to(Side::H));
    assert!(!Side::B.adjacent_to(Side::I));
    assert!(Side::L.adjacent_to(Side::K));
}

#[test]
fn vertex_sides_are_distinct_and_adjacent() {
    let mut seen = Vec::new();
    for i in 0..VERTEX_COUNT {
        let v = Vertex::from_index(i);
        assert_eq!(v.index(), i);
        let [x, y, z] = v.canonical_sides();
        assert!(x != y && y != z && x != z);
        assert!(x.adjacent_to(y) && y.adjacent_to(z) && x.adjacent_to(z));
        let mut key = vec![x.index(), y.index(), z.index()];
        key.sort();
        assert!(!seen.contains(&key));
        seen.push(key);
    }
    for s in all_sides() {
        let n = (0..VERTEX_COUNT)
            .filter(|&i| Vertex::from_index(i).canonical_sides().contains(&s))
            .count();
        assert_eq!(n, 5);
    }
}
