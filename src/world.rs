//! Voxel materials and the procedural content of a cube.
use vstd::prelude::*;

verus! {

/// Number of voxels along each edge of a cube, halo excluded.
pub const SUBDIVISION_FACTOR: usize = 12;

/// Edge length of a cube's voxel grid: one halo voxel on each end.
pub const GRID_EDGE: usize = 14;

/// Number of voxels in a cube's grid, halo included.
pub const GRID_SIZE: usize = 2744;

#[derive(Clone, Copy, Debug, PartialEq, Eq, Structural, Hash)]
pub enum Material {
    Void,
    Stone,
    Dirt,
    Sand,
}

/// Whether logical coordinate `c` lies on one of the two outer layers.
pub open spec fn on_face(c: int) -> bool {
    c == 0 || c == SUBDIVISION_FACTOR - 1
}

/// The voxel at logical `(x, y, z)` lies on an edge of the cube.
pub open spec fn on_edge(x: int, y: int, z: int) -> bool {
    (on_face(x) && on_face(y)) || (on_face(y) && on_face(z)) || (on_face(z) && on_face(x))
}

/// Half the distance of `c` from the middle of the cube, rounded half away
/// from zero.
pub open spec fn shell_band(c: int) -> int {
    let d = SUBDIVISION_FACTOR / 2 - c;
    let a = if d < 0 { -d } else { d };
    (a + 1) / 2
}

/// The voxel at logical `(x, y, z)` lies in the same band on all three axes,
/// which draws nested shells around the centre.
pub open spec fn in_core(x: int, y: int, z: int) -> bool {
    shell_band(x) == shell_band(y) && shell_band(y) == shell_band(z)
}

/// Material of the voxel at logical coordinates `(x, y, z)`, each in
/// `0..SUBDIVISION_FACTOR`.
pub open spec fn terrain_material(x: int, y: int, z: int) -> Material {
    let e = on_edge(x, y, z);
    let c = in_core(x, y, z);
    if e && !c {
        Material::Stone
    } else if !e && c {
        Material::Sand
    } else if e && c {
        Material::Dirt
    } else {
        Material::Void
    }
}

/// Whether grid coordinate `g` (in `0..GRID_EDGE`) falls in the halo.
pub open spec fn in_halo(g: int) -> bool {
    g == 0 || g == GRID_EDGE - 1
}

/// Grid index of the voxel with grid coordinates `(gx, gy, gz)`.
pub open spec fn grid_index(gx: int, gy: int, gz: int) -> int {
    gx + gy * GRID_EDGE + gz * GRID_EDGE * GRID_EDGE
}

/// Material stored at grid index `i` of a dense cube: void in the halo, and
/// `terrain_material` of logical coordinate `(x, y, z)` at
/// `grid_index(x + 1, y + 1, z + 1)`.
pub open spec fn terrain_voxel(i: int) -> Material {
    let gx = i % (GRID_EDGE as int);
    let gy = (i / (GRID_EDGE as int)) % (GRID_EDGE as int);
    let gz = i / ((GRID_EDGE * GRID_EDGE) as int);
    if in_halo(gx) || in_halo(gy) || in_halo(gz) {
        Material::Void
    } else {
        terrain_material(gx - 1, gy - 1, gz - 1)
    }
}

/// The whole grid of a dense cube.
pub open spec fn terrain_grid() -> Seq<Material> {
    Seq::new(GRID_SIZE as nat, |i: int| terrain_voxel(i))
}

fn face(c: usize) -> (r: bool)
    ensures
        r == on_face(c as int),
{
    c == 0 || c == SUBDIVISION_FACTOR - 1
}

fn band(c: usize) -> (r: usize)
    requires
        c < SUBDIVISION_FACTOR,
    ensures
        r as int == shell_band(c as int),
{
    let half = SUBDIVISION_FACTOR / 2;
    let a = if c <= half { half - c } else { c - half };
    (a + 1) / 2
}

/// Material of the voxel at logical coordinates `(x, y, z)`.
pub fn material_at(x: usize, y: usize, z: usize) -> (r: Material)
    requires
        x < SUBDIVISION_FACTOR,
        y < SUBDIVISION_FACTOR,
        z < SUBDIVISION_FACTOR,
    ensures
        r == terrain_material(x as int, y as int, z as int),
{
    let e = (face(x) && face(y)) || (face(y) && face(z)) || (face(z) && face(x));
    let by = band(y);
    let c = band(x) == by && by == band(z);
    if e && !c {
        Material::Stone
    } else if !e && c {
        Material::Sand
    } else if e && c {
        Material::Dirt
    } else {
        Material::Void
    }
}

/// Fills the voxel grid of a cube that carries terrain: a crust of stone
/// along the cube's edges, sand shells around its centre, dirt where the two
/// meet, and a void halo.
pub fn terrain_voxels() -> (r: Vec<Material>)
    ensures
        r@ == terrain_grid(),
{
    let mut data: Vec<Material> = Vec::new();
    let mut i: usize = 0;
    while i < GRID_SIZE
        invariant
            i <= GRID_SIZE,
            data@ == Seq::new(i as nat, |j: int| terrain_voxel(j)),
        decreases GRID_SIZE - i,
    {
        let gx = i % GRID_EDGE;
        let gy = (i / GRID_EDGE) % GRID_EDGE;
        let gz = i / (GRID_EDGE * GRID_EDGE);
        assert(gz < GRID_EDGE) by (nonlinear_arith)
            requires
                gz == i / 196,
                i < 2744,
        ;
        let m = if gx == 0 || gx == GRID_EDGE - 1 || gy == 0 || gy == GRID_EDGE - 1 || gz == 0 || gz
            == GRID_EDGE - 1 {
            Material::Void
        } else {
            material_at(gx - 1, gy - 1, gz - 1)
        };
        data.push(m);
        i = i + 1;
        assert(data@ =~= Seq::new(i as nat, |j: int| terrain_voxel(j)));
    }
    assert(data@ =~= terrain_grid());
    data
}

/// Logical voxel `(x, y, z)` is stored at grid position `(x + 1, y + 1, z + 1)`,
/// and nothing but void lies in the halo.
pub proof fn lemma_halo_layout(x: int, y: int, z: int)
    requires
        0 <= x < SUBDIVISION_FACTOR,
        0 <= y < SUBDIVISION_FACTOR,
        0 <= z < SUBDIVISION_FACTOR,
    ensures
        0 <= grid_index(x + 1, y + 1, z + 1) < GRID_SIZE,
        terrain_grid()[grid_index(x + 1, y + 1, z + 1)] == terrain_material(x, y, z),
{
    let i = grid_index(x + 1, y + 1, z + 1);
    assert(i % 14 == x + 1 && (i / 14) % 14 == y + 1 && i / 196 == z + 1) by (nonlinear_arith)
        requires
            i == (x + 1) + (y + 1) * 14 + (z + 1) * 14 * 14,
            0 <= x < 12,
            0 <= y < 12,
            0 <= z < 12,
    ;
}

} // verus!
