use hypermine::dodeca::{Side, SIDE_COUNT};
use hypermine::graph::NodeId;
use hypermine::sim::{expand, new_world};
use nalgebra as na;

fn mip(a: &na::Vector4<f64>, b: &na::Vector4<f64>) -> f64 {
    a.x * b.x + a.y * b.y + a.z * b.z - a.w * b.w
}

fn origin() -> na::Vector4<f64> {
    na::Vector4::new(0.0, 0.0, 0.0, 1.0)
}

/// Unit normal of the plane of `side` of a right-angled dodecahedron centred
/// at the origin, with sides numbered as the library numbers them.
fn normal(side: Side) -> na::Vector4<f64> {
    let i = side.index();
    let c = 1.0 / 5f64.sqrt();
    let s = (1.0 - c * c).sqrt();
    let step = std::f64::consts::PI * 2.0 / 5.0;
    let u = match i {
        0 => na::Vector3::new(0.0, 0.0, 1.0),
        11 => na::Vector3::new(0.0, 0.0, -1.0),
        1..=5 => {
            let a = step * (i - 1) as f64;
            na::Vector3::new(s * a.cos(), s * a.sin(), c)
        }
        _ => {
            let a = step * (i - 6) as f64 - step / 2.0;
            na::Vector3::new(s * a.cos(), s * a.sin(), -c)
        }
    };
    let r = (1.0 / 5f64.sqrt()).sqrt().atanh();
    let u = u * r.cosh();
    na::Vector4::new(u.x, u.y, u.z, r.sinh())
}

fn reflection(side: Side) -> na::Matrix4<f64> {
    let n = normal(side);
    let i31 = na::Matrix4::from_diagonal(&na::Vector4::new(1.0, 1.0, 1.0, -1.0));
    na::Matrix4::identity() - (n * n.transpose() * i31) * (2.0 / mip(&n, &n))
}

fn across(m: na::Matrix4<f64>, side: Side) -> na::Matrix4<f64> {
    m * reflection(side)
}

fn within(radius: f64) -> impl Fn(na::Matrix4<f64>) -> bool {
    move |m: na::Matrix4<f64>| {
        let p = m * origin();
        let c = -mip(&p, &origin());
        c.max(1.0).acosh() <= radius
    }
}

#[test]
fn adjacent_faces_meet_at_right_angles() {
    for i in 0..SIDE_COUNT {
        let a = Side::from_index(i);
        assert!((mip(&normal(a), &normal(a)) - 1.0).abs() < 1e-9);
        for j in 0..SIDE_COUNT {
            let b = Side::from_index(j);
            if a.adjacent_to(b) {
                assert!(mip(&normal(a), &normal(b)).abs() < 1e-9);
            } else if a != b {
                assert!(mip(&normal(a), &normal(b)).abs() > 1.0);
            }
        }
    }
}

#[test]
fn view_distance_one_reaches_root_and_neighbors() {
    let g = new_world(na::Matrix4::identity(), across, within(1.0));
    assert_eq!(g.len(), 1 + SIDE_COUNT);
    for i in 0..SIDE_COUNT {
        assert!(g.neighbor(NodeId::root(), Side::from_index(i)).is_some());
    }
}

#[test]
fn view_distance_one_after_crossing() {
    let mut g = new_world(na::Matrix4::identity(), across, within(1.0));
    let c = g.neighbor(NodeId::root(), Side::C).unwrap();
    expand(&mut g, c, na::Matrix4::identity(), across, within(1.0));
    assert_eq!(g.len(), 1 + SIDE_COUNT + (SIDE_COUNT - 1));
    assert!(g.fresh().is_empty());
}

#[test]
fn larger_view_distance_reaches_further() {
    let g = new_world(na::Matrix4::identity(), across, within(2.0));
    // every neighbor of the root lies within 2 and is expanded in turn
    assert_eq!(g.len(), 115);
}
