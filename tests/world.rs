use hypermine::world::{material_at, terrain_voxels, Material, GRID_EDGE, GRID_SIZE, SUBDIVISION_FACTOR};

fn at(data: &[Material], x: usize, y: usize, z: usize) -> Material {
    data[(x + 1) + (y + 1) * GRID_EDGE + (z + 1) * GRID_EDGE * GRID_EDGE]
}

#[test]
fn grid_dimensions() {
    assert_eq!(GRID_EDGE, SUBDIVISION_FACTOR + 2);
    assert_eq!(GRID_SIZE, GRID_EDGE * GRID_EDGE * GRID_EDGE);
    assert_eq!(terrain_voxels().len(), GRID_SIZE);
}

#[test]
fn halo_is_void() {
    let data = terrain_voxels();
    for a in 0..GRID_EDGE {
        for b in 0..GRID_EDGE {
            for &c in &[0, GRID_EDGE - 1] {
                assert_eq!(data[c + a * GRID_EDGE + b * GRID_EDGE * GRID_EDGE], Material::Void);
                assert_eq!(data[a + c * GRID_EDGE + b * GRID_EDGE * GRID_EDGE], Material::Void);
                assert_eq!(data[a + b * GRID_EDGE + c * GRID_EDGE * GRID_EDGE], Material::Void);
            }
        }
    }
}

#[test]
fn materials_at_known_voxels() {
    let data = terrain_voxels();
    // corner: on an edge and in the outermost shell
    assert_eq!(at(&data, 0, 0, 0), Material::Dirt);
    assert_eq!(data[211], Material::Dirt);
    // centre: in the core, away from the edges
    assert_eq!(at(&data, 6, 6, 6), Material::Sand);
    assert_eq!(data[1477], Material::Sand);
    // edge voxel outside the shells
    assert_eq!(at(&data, 0, 0, 5), Material::Stone);
    assert_eq!(data[1191], Material::Stone);
    // interior voxel outside the shells
    assert_eq!(at(&data, 3, 5, 7), Material::Void);
    assert_eq!(material_at(11, 11, 5), Material::Stone);
    assert_eq!(material_at(11, 11, 0), Material::Dirt);
    assert_eq!(material_at(11, 11, 11), Material::Dirt);
    assert_eq!(material_at(5, 5, 5), Material::Sand);
}

#[test]
fn material_at_matches_grid() {
    let data = terrain_voxels();
    for z in 0..SUBDIVISION_FACTOR {
        for y in 0..SUBDIVISION_FACTOR {
            for x in 0..SUBDIVISION_FACTOR {
                assert_eq!(at(&data, x, y, z), material_at(x, y, z));
            }
        }
    }
}

#[test]
fn terrain_is_deterministic() {
    assert_eq!(terrain_voxels(), terrain_voxels());
}
