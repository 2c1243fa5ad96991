//! Combinatorics of the dodecahedron that tiles the honeycomb: its twelve
//! sides (faces) and twenty vertices.
//!
//! Sides are laid out as a top face `A`, an upper ring `B..F`, a lower ring
//! `G..K` and a bottom face `L`. Upper face `i` of the ring touches lower faces
//! `i` and `i + 1` (indices taken modulo five).
use vstd::prelude::*;

verus! {

/// Number of sides of a cell.
pub const SIDE_COUNT: usize = 12;

/// Number of vertices of a cell.
pub const VERTEX_COUNT: usize = 20;

/// One face of a dodecahedral cell; crossing it leads to the adjacent cell.
#[derive(Clone, Copy, Debug, PartialEq, Eq, Structural, Hash)]
pub enum Side {
    A,
    B,
    C,
    D,
    E,
    F,
    G,
    H,
    I,
    J,
    K,
    L,
}

/// Position of an index of the upper ring (`1..=5`) or lower ring (`6..=10`)
/// within its ring.
pub open spec fn ring_pos(i: int) -> int {
    if 1 <= i <= 5 {
        i - 1
    } else {
        i - 6
    }
}

pub open spec fn is_upper(i: int) -> bool {
    1 <= i <= 5
}

pub open spec fn is_lower(i: int) -> bool {
    6 <= i <= 10
}

/// Two ring positions are next to each other around a ring of five.
pub open spec fn ring_next(p: int, q: int) -> bool {
    q == (p + 1) % 5 || p == (q + 1) % 5
}

/// Whether upper face `u` shares an edge with lower face `d`.
pub open spec fn upper_touches_lower(u: int, d: int) -> bool {
    is_upper(u) && is_lower(d) && (ring_pos(d) == ring_pos(u) || ring_pos(d) == (ring_pos(u) + 1) % 5)
}

/// Whether the faces with indices `a` and `b` share an edge.
pub open spec fn sides_adjacent(a: int, b: int) -> bool {
    ||| (a == 0 && is_upper(b))
    ||| (b == 0 && is_upper(a))
    ||| (a == 11 && is_lower(b))
    ||| (b == 11 && is_lower(a))
    ||| (is_upper(a) && is_upper(b) && ring_next(ring_pos(a), ring_pos(b)))
    ||| (is_lower(a) && is_lower(b) && ring_next(ring_pos(a), ring_pos(b)))
    ||| upper_touches_lower(a, b)
    ||| upper_touches_lower(b, a)
}

impl Side {
    pub open spec fn spec_index(self) -> int {
        match self {
            Side::A => 0,
            Side::B => 1,
            Side::C => 2,
            Side::D => 3,
            Side::E => 4,
            Side::F => 5,
            Side::G => 6,
            Side::H => 7,
            Side::I => 8,
            Side::J => 9,
            Side::K => 10,
            Side::L => 11,
        }
    }

    /// Position of this side in `0..12`.
    pub fn index(self) -> (r: usize)
        ensures
            r as int == self.spec_index(),
            r < SIDE_COUNT,
    {
        match self {
            Side::A => 0,
            Side::B => 1,
            Side::C => 2,
            Side::D => 3,
            Side::E => 4,
            Side::F => 5,
            Side::G => 6,
            Side::H => 7,
            Side::I => 8,
            Side::J => 9,
            Side::K => 10,
            Side::L => 11,
        }
    }

    /// The side at position `i`.
    pub fn from_index(i: usize) -> (r: Side)
        requires
            i < SIDE_COUNT,
        ensures
            r.spec_index() == i as int,
    {
        match i {
            0 => Side::A,
            1 => Side::B,
            2 => Side::C,
            3 => Side::D,
            4 => Side::E,
            5 => Side::F,
            6 => Side::G,
            7 => Side::H,
            8 => Side::I,
            9 => Side::J,
            10 => Side::K,
            _ => Side::L,
        }
    }

    /// Whether `self` and `other` share an edge of the cell.
    pub fn adjacent_to(self, other: Side) -> (r: bool)
        ensures
            r == sides_adjacent(self.spec_index(), other.spec_index()),
    {
        let a = self.index();
        let b = other.index();
        let up_a = 1 <= a && a <= 5;
        let up_b = 1 <= b && b <= 5;
        let low_a = 6 <= a && a <= 10;
        let low_b = 6 <= b && b <= 10;
        let pa: usize = if up_a { a - 1 } else if low_a { a - 6 } else { 0 };
        let pb: usize = if up_b { b - 1 } else if low_b { b - 6 } else { 0 };
        let next = pb == (pa + 1) % 5 || pa == (pb + 1) % 5;
        (a == 0 && up_b) || (b == 0 && up_a) || (a == 11 && low_b) || (b == 11 && low_a)
            || (up_a && up_b && next) || (low_a && low_b && next)
            || (up_a && low_b && (pb == pa || pb == (pa + 1) % 5))
            || (up_b && low_a && (pa == pb || pa == (pb + 1) % 5))
    }
}

/// The three sides that meet at vertex `v` (`0 <= v < 20`): vertices come in
/// four groups of five, around the top face, between the upper ring and the
/// lower ring (two groups), and around the bottom face.
pub open spec fn vertex_sides(v: int) -> (int, int, int) {
    let g = v / 5;
    let k = v % 5;
    let k1 = (k + 1) % 5;
    if g == 0 {
        (0, 1 + k, 1 + k1)
    } else if g == 1 {
        (1 + k, 1 + k1, 6 + k1)
    } else if g == 2 {
        (1 + k, 6 + k, 6 + k1)
    } else {
        (11, 6 + k, 6 + k1)
    }
}

/// A vertex of a cell, with index in `0..20`; the cube of voxels at one corner.
#[derive(Clone, Copy, Debug, PartialEq, Eq, Structural, Hash)]
pub struct Vertex {
    pub index: u8,
}

impl Vertex {
    pub open spec fn spec_index(self) -> int {
        self.index as int
    }

    pub open spec fn wf(self) -> bool {
        self.index < 20
    }

    /// The vertex at position `i`.
    pub fn from_index(i: usize) -> (r: Vertex)
        requires
            i < VERTEX_COUNT,
        ensures
            r.spec_index() == i as int,
            r.wf(),
    {
        Vertex { index: i as u8 }
    }

    /// Position of this vertex in `0..20`.
    pub fn index(self) -> (r: usize)
        ensures
            r as int == self.spec_index(),
    {
        self.index as usize
    }

    /// The three sides of the cell that meet at this vertex.
    pub fn canonical_sides(self) -> (r: [Side; 3])
        requires
            self.wf(),
        ensures
            (r[0].spec_index(), r[1].spec_index(), r[2].spec_index()) == vertex_sides(
                self.spec_index(),
            ),
    {
        let v = self.index as usize;
        let g = v / 5;
        let k = v % 5;
        let k1 = (k + 1) % 5;
        if g == 0 {
            [Side::A, Side::from_index(1 + k), Side::from_index(1 + k1)]
        } else if g == 1 {
            [Side::from_index(1 + k), Side::from_index(1 + k1), Side::from_index(6 + k1)]
        } else if g == 2 {
            [Side::from_index(1 + k), Side::from_index(6 + k), Side::from_index(6 + k1)]
        } else {
            [Side::L, Side::from_index(6 + k), Side::from_index(6 + k1)]
        }
    }
}

/// Adjacency of sides is symmetric, and no side touches itself.
pub proof fn lemma_adjacency_is_symmetric(a: int, b: int)
    requires
        0 <= a < 12,
        0 <= b < 12,
    ensures
        sides_adjacent(a, b) == sides_adjacent(b, a),
        !sides_adjacent(a, a),
{
}

/// The three sides at every vertex are distinct and pairwise adjacent.
pub proof fn lemma_vertex_sides_meet(v: int)
    requires
        0 <= v < 20,
    ensures
        ({
            let (x, y, z) = vertex_sides(v);
            &&& 0 <= x < 12 && 0 <= y < 12 && 0 <= z < 12
            &&& x != y && y != z && x != z
            &&& sides_adjacent(x, y) && sides_adjacent(y, z) && sides_adjacent(x, z)
        }),
{
}

} // verus!
