use island_wfc::bitmap::{Bitmap, HeightMap};
use island_wfc::tileset::make_island_race_tileset;
use island_wfc::types::Bit;
use island_wfc::wfc::WaveFunctionCollapse;
use island_wfc::world::{bitmap_to_voxels, Face, Mesh, Voxel, VoxelPos, WorldDefinition};

#[test]
fn test_height_map_bounds() {
    let mut wfc = WaveFunctionCollapse::new(make_island_race_tileset(), 8, 8, 9);
    let (contradiction, _) = wfc.step_all(false);
    assert!(!contradiction);
    let b = wfc.bitmap();
    let hm = b.compute_height_map(9);
    assert_eq!(hm.bottoms.len(), b.bits.len());
    assert_eq!(hm.tops.len(), b.bits.len());
    for k in 0..b.bits.len() {
        assert!(hm.tops[k] >= 1);
        assert!(hm.bottoms[k] <= 0);
        if b.bits[k] == Bit::Road {
            assert_eq!(hm.tops[k], 1);
        }
        if b.bits[k] == Bit::Space {
            assert_eq!(hm.bottoms[k], 0);
            assert_eq!(hm.tops[k], 1);
        }
    }
}

#[test]
fn test_height_map_determinism() {
    let mut wfc = WaveFunctionCollapse::new(make_island_race_tileset(), 6, 6, 4);
    wfc.step_all(false);
    let b = wfc.bitmap();
    let h1 = b.compute_height_map(17);
    let h2 = b.compute_height_map(17);
    assert_eq!(h1.bottoms, h2.bottoms);
    assert_eq!(h1.tops, h2.tops);
}

#[test]
fn test_height_map_edge_cells() {
    // a 2 x 2 bitmap of solid grass: every cell touches the boundary, so
    // every cell is a rim cell with extents (-1, 1)
    let b = Bitmap { bits: vec![Bit::Grass; 4], width: 2, height: 2 };
    let hm = b.compute_height_map(0);
    assert_eq!(hm.bottoms, vec![-1, -1, -1, -1]);
    assert_eq!(hm.tops, vec![1, 1, 1, 1]);
}

#[test]
fn test_height_map_space_keeps_default() {
    let b = Bitmap { bits: vec![Bit::Space; 6], width: 3, height: 2 };
    let hm = b.compute_height_map(5);
    assert_eq!(hm.bottoms, vec![0; 6]);
    assert_eq!(hm.tops, vec![1; 6]);
}

#[test]
fn test_bitmap_to_voxels_columns() {
    // one grass cell spanning -2..2: two dirt voxels below sea level, two
    // grass voxels above
    let wd = WorldDefinition {
        bitmap: Bitmap { bits: vec![Bit::Grass], width: 1, height: 1 },
        height_map: HeightMap { bottoms: vec![-2], tops: vec![2] },
    };
    let voxels = bitmap_to_voxels(wd);
    assert_eq!(voxels.len(), 4);
    assert_eq!(voxels[0].pos, VoxelPos::new(0, -2, 0));
    assert_eq!(voxels[0].bit, Bit::Dirt);
    assert_eq!(voxels[1].pos, VoxelPos::new(0, -1, 0));
    assert_eq!(voxels[1].bit, Bit::Dirt);
    assert_eq!(voxels[2].pos, VoxelPos::new(0, 0, 0));
    assert_eq!(voxels[2].bit, Bit::Grass);
    assert_eq!(voxels[3].pos, VoxelPos::new(0, 1, 0));
    assert_eq!(voxels[3].bit, Bit::Grass);
}

#[test]
fn test_bitmap_to_voxels_skips_space() {
    let wd = WorldDefinition {
        bitmap: Bitmap { bits: vec![Bit::Space, Bit::Road], width: 2, height: 1 },
        height_map: HeightMap { bottoms: vec![0, -1], tops: vec![1, 1] },
    };
    let voxels = bitmap_to_voxels(wd);
    // the space column yields nothing; the road column has one dirt and one
    // road voxel
    assert_eq!(voxels.len(), 2);
    assert_eq!(voxels[0].pos, VoxelPos::new(1, -1, 0));
    assert_eq!(voxels[0].bit, Bit::Dirt);
    assert_eq!(voxels[1].pos, VoxelPos::new(1, 0, 0));
    assert_eq!(voxels[1].bit, Bit::Road);
}

#[test]
fn test_voxel_pos_neighbor() {
    let p = VoxelPos::new(1, 2, 3);
    assert_eq!(p.neighbor(Face::Front), VoxelPos::new(1, 2, 4));
    assert_eq!(p.neighbor(Face::Back), VoxelPos::new(1, 2, 2));
    assert_eq!(p.neighbor(Face::Top), VoxelPos::new(1, 3, 3));
    assert_eq!(p.neighbor(Face::Bottom), VoxelPos::new(1, 1, 3));
    assert_eq!(p.neighbor(Face::Right), VoxelPos::new(2, 2, 3));
    assert_eq!(p.neighbor(Face::Left), VoxelPos::new(0, 2, 3));
}

#[test]
fn test_voxel_and_mesh_new() {
    let v = Voxel::new(VoxelPos::new(4, 5, 6), Bit::Dirt);
    assert_eq!(v.pos, VoxelPos::new(4, 5, 6));
    assert_eq!(v.bit, Bit::Dirt);
    let m = Mesh::new(12, 36);
    assert_eq!(m.vertex_offset, 12);
    assert_eq!(m.num_vertices, 36);
}

#[test]
fn test_world_of_generated_run() {
    let mut wfc = WaveFunctionCollapse::new(make_island_race_tileset(), 5, 5, 42);
    // guarantee some road exists before collapsing the rest
    wfc.collapse_xy_to_tile(2, 2, "road_end").unwrap();
    let (contradiction, _) = wfc.step_all(false);
    assert!(!contradiction);
    let bitmap = wfc.bitmap();
    let height_map = bitmap.compute_height_map(42);
    let n = bitmap.bits.len();
    let wd = WorldDefinition { bitmap, height_map };
    let voxels = bitmap_to_voxels(wd);
    // the forced road tile alone fills sixteen bitmap cells
    assert!(voxels.len() >= 16);
    assert!(voxels.len() <= n * 64);
    for v in &voxels {
        assert!(v.pos.x >= 0 && v.pos.z >= 0);
        assert!(v.pos.y >= -64 && v.pos.y <= 64);
    }
}
