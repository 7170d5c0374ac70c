use island_wfc::declarative::{build_tileset, NeighborRule, TileDef, TilesetError};
use island_wfc::tileset::{
    edges_match, get_edge, island_edge, make_island_race_tileset, pure_grass, pure_space,
    road_straight, road_turn, symmetric_sides,
};
use island_wfc::types::{BaseTile, Bit, Symmetry};

fn def_sym(name: &str, tile: BaseTile, symmetry: Symmetry, weight: u32) -> TileDef {
    TileDef { name: name.to_owned(), tile, symmetry, weight }
}

fn plain_rule(left: &str, right: &str) -> NeighborRule {
    NeighborRule {
        left: left.to_owned(),
        left_rotation: 0,
        right: right.to_owned(),
        right_rotation: 0,
    }
}

#[test]
fn test_get_edge_values() {
    let t = road_turn();
    // road_turn rows: GRRG / GRRR / GRRR / GGGG
    // top edge, read right to left
    assert_eq!(get_edge(&t, 0), vec![Bit::Grass, Bit::Road, Bit::Road, Bit::Grass]);
    // left edge, top to bottom
    assert_eq!(get_edge(&t, 1), vec![Bit::Grass, Bit::Grass, Bit::Grass, Bit::Grass]);
    // bottom edge, left to right
    assert_eq!(get_edge(&t, 2), vec![Bit::Grass, Bit::Grass, Bit::Grass, Bit::Grass]);
    // right edge, bottom to top
    assert_eq!(get_edge(&t, 3), vec![Bit::Grass, Bit::Road, Bit::Road, Bit::Grass]);
}

#[test]
fn test_edges_match_examples() {
    let grass = pure_grass();
    let space = pure_space();
    let road = road_straight();
    // identical uniform edges mirror each other
    assert!(edges_match(&grass, 0, &grass, 2));
    // grass does not meet open space
    assert!(!edges_match(&grass, 0, &space, 2));
    // a road end meets a road end: G R R G reversed is G R R G
    assert!(edges_match(&road, 0, &road, 2));
    // matching is symmetric
    for s1 in 0..4 {
        for s2 in 0..4 {
            assert_eq!(
                edges_match(&road, s1, &grass, s2),
                edges_match(&grass, s2, &road, s1)
            );
        }
    }
}

#[test]
fn test_island_tileset_catalog() {
    let t = make_island_race_tileset();
    assert_eq!(t.tile_names.len(), 8);
    assert_eq!(t.tile_names[0], "road_straight");
    assert_eq!(t.tile_names[3], "pure_space");
    assert_eq!(t.tile_weights, vec![100, 50, 1, 1000, 200, 100, 100, 100]);
    assert_eq!(t.tiles.len(), 8);
    assert_eq!(t.allowed_neighbors.len(), 32);
    for row in &t.allowed_neighbors {
        assert_eq!(row.len(), 4);
        for col in row {
            assert_eq!(col.len(), 32);
        }
    }
    // pure_space beside pure_space is allowed on every side and rotation
    for s in 0..4 {
        assert!(t.allowed_neighbors[3 * 4][s][3 * 4]);
    }
    // pure_space never sits beside pure_grass: their edges cannot match
    for r1 in 0..4 {
        for s in 0..4 {
            for r2 in 0..4 {
                assert!(!t.allowed_neighbors[3 * 4 + r1][s][4 * 4 + r2]);
            }
        }
    }
}

#[test]
fn test_symmetric_sides_classes() {
    assert_eq!(symmetric_sides(Symmetry::X, 0), vec![0, 1, 2, 3]);
    assert_eq!(symmetric_sides(Symmetry::I, 0), vec![0, 2]);
    assert_eq!(symmetric_sides(Symmetry::I, 1), vec![1, 3]);
    assert_eq!(symmetric_sides(Symmetry::Slash, 2), vec![0, 2]);
    assert_eq!(symmetric_sides(Symmetry::T, 0), vec![0]);
    assert_eq!(symmetric_sides(Symmetry::T, 1), vec![1, 3]);
    assert_eq!(symmetric_sides(Symmetry::T, 3), vec![1, 3]);
    assert_eq!(symmetric_sides(Symmetry::L, 0), vec![0, 3]);
    assert_eq!(symmetric_sides(Symmetry::L, 2), vec![1, 2]);
    assert_eq!(symmetric_sides(Symmetry::NoSymmetry, 2), vec![2]);
}

#[test]
fn test_build_tileset_error_empty_catalog() {
    let defs: Vec<TileDef> = Vec::new();
    let rules: Vec<NeighborRule> = Vec::new();
    assert_eq!(build_tileset(&defs, &rules).err(), Some(TilesetError::EmptyCatalog));
}

#[test]
fn test_build_tileset_error_bad_weight() {
    let defs = vec![def_sym("a", pure_grass(), Symmetry::X, 0)];
    let rules: Vec<NeighborRule> = Vec::new();
    assert_eq!(build_tileset(&defs, &rules).err(), Some(TilesetError::BadWeight));
}

#[test]
fn test_build_tileset_error_bad_pattern_size() {
    let defs = vec![def_sym(
        "a",
        BaseTile { bitmap: vec![Bit::Grass; 15] },
        Symmetry::X,
        1,
    )];
    let rules: Vec<NeighborRule> = Vec::new();
    assert_eq!(build_tileset(&defs, &rules).err(), Some(TilesetError::BadPatternSize));
}

#[test]
fn test_build_tileset_error_duplicate_name() {
    let defs = vec![
        def_sym("a", pure_grass(), Symmetry::X, 1),
        def_sym("a", pure_space(), Symmetry::X, 1),
    ];
    let rules: Vec<NeighborRule> = Vec::new();
    assert_eq!(build_tileset(&defs, &rules).err(), Some(TilesetError::DuplicateTileName));
}

#[test]
fn test_build_tileset_error_bad_rotation() {
    let defs = vec![def_sym("a", pure_grass(), Symmetry::X, 1)];
    let rules = vec![NeighborRule {
        left: "a".to_owned(),
        left_rotation: 4,
        right: "a".to_owned(),
        right_rotation: 0,
    }];
    assert_eq!(build_tileset(&defs, &rules).err(), Some(TilesetError::BadRotation));
}

#[test]
fn test_build_tileset_error_unknown_name() {
    let defs = vec![def_sym("a", pure_grass(), Symmetry::X, 1)];
    let rules = vec![plain_rule("a", "zzz")];
    assert_eq!(build_tileset(&defs, &rules).err(), Some(TilesetError::UnknownTileName));
}

#[test]
fn test_build_tileset_expands_symmetry() {
    // one authored rule between two fully symmetric tiles allows them beside
    // each other on every side and rotation, in both orders
    let defs = vec![
        def_sym("a", pure_grass(), Symmetry::X, 1),
        def_sym("b", pure_space(), Symmetry::X, 1),
    ];
    let rules = vec![plain_rule("a", "b")];
    let t = build_tileset(&defs, &rules).unwrap();
    for r1 in 0..4 {
        for s in 0..4 {
            for r2 in 0..4 {
                assert!(t.allowed_neighbors[r1][s][4 + r2]);
                assert!(t.allowed_neighbors[4 + r2][s][r1]);
                // but the rule says nothing about a tile beside itself
                assert!(!t.allowed_neighbors[r1][s][r2]);
            }
        }
    }
}

#[test]
fn test_island_edge_has_16_cells() {
    let t = island_edge();
    assert_eq!(t.bitmap.len(), 16);
}
