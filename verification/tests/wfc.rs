use island_wfc::declarative::{build_tileset, NeighborRule, TileDef, TilesetError};
use island_wfc::tileset::{make_island_race_tileset, pure_grass, pure_space, road_straight};
use island_wfc::types::{Bit, Symmetry, Tileset};
use island_wfc::wfc::{SolveError, WaveFunctionCollapse, WaveTile};

fn def(name: &str, tile: island_wfc::types::BaseTile, weight: u32) -> TileDef {
    TileDef { name: name.to_owned(), tile, symmetry: Symmetry::X, weight }
}

fn rule(left: &str, right: &str) -> NeighborRule {
    NeighborRule {
        left: left.to_owned(),
        left_rotation: 0,
        right: right.to_owned(),
        right_rotation: 0,
    }
}

/// A tileset of three tiles that are mutually compatible on every side.
fn compatible_tileset(w_space: u32, w_grass: u32, w_road: u32) -> Tileset {
    let defs = vec![
        def("pure_space", pure_space(), w_space),
        def("pure_grass", pure_grass(), w_grass),
        def("road_straight", road_straight(), w_road),
    ];
    let names = ["pure_space", "pure_grass", "road_straight"];
    let mut rules = Vec::new();
    for a in names {
        for b in names {
            rules.push(rule(a, b));
        }
    }
    build_tileset(&defs, &rules).unwrap()
}

#[test]
fn test_determinism_two_runs() {
    // two independent full runs from the same inputs give byte-identical
    // bitmaps
    let mut first = WaveFunctionCollapse::new(make_island_race_tileset(), 8, 8, 42);
    let mut second = WaveFunctionCollapse::new(make_island_race_tileset(), 8, 8, 42);
    let (c1, _) = first.step_all(false);
    let (c2, _) = second.step_all(false);
    assert_eq!(c1, c2);
    let b1 = first.bitmap();
    let b2 = second.bitmap();
    assert_eq!(b1.width, b2.width);
    assert_eq!(b1.height, b2.height);
    assert_eq!(b1.bits, b2.bits);
}

#[test]
fn test_determinism_different_seeds_differ() {
    let mut first = WaveFunctionCollapse::new(make_island_race_tileset(), 8, 8, 1);
    let mut second = WaveFunctionCollapse::new(make_island_race_tileset(), 8, 8, 2);
    first.step_all(false);
    second.step_all(false);
    // not a guarantee in principle, but these seeds do diverge, which shows
    // the seed actually feeds the run
    assert_ne!(first.bitmap().bits, second.bitmap().bits);
}

#[test]
fn test_adjacency_consistency() {
    let mut wfc = WaveFunctionCollapse::new(make_island_race_tileset(), 8, 8, 7);
    let (contradiction, _) = wfc.step_all(false);
    assert!(!contradiction);
    let w = wfc.wave.width;
    let h = wfc.wave.height;
    for y in 0..h {
        for x in 0..w {
            let id = match &wfc.wave.tiles[y * w + x] {
                WaveTile::Observed(i) => *i,
                WaveTile::Unobserved(_) => panic!("cell not collapsed"),
            };
            // side 3 faces the cell to the right, side 2 the cell below
            if x + 1 < w {
                let rid = match &wfc.wave.tiles[y * w + x + 1] {
                    WaveTile::Observed(i) => *i,
                    WaveTile::Unobserved(_) => panic!("cell not collapsed"),
                };
                assert!(wfc.is_allowed(id, rid, 3));
                assert!(wfc.is_allowed(rid, id, 1));
            }
            if y + 1 < h {
                let bid = match &wfc.wave.tiles[(y + 1) * w + x] {
                    WaveTile::Observed(i) => *i,
                    WaveTile::Unobserved(_) => panic!("cell not collapsed"),
                };
                assert!(wfc.is_allowed(id, bid, 2));
                assert!(wfc.is_allowed(bid, id, 0));
            }
        }
    }
}

fn admissible_sets(wfc: &WaveFunctionCollapse) -> Vec<Vec<usize>> {
    wfc.wave.tiles.iter().map(|t| t.possible_options()).collect()
}

#[test]
fn test_entropy_monotonicity() {
    let mut wfc = WaveFunctionCollapse::new(make_island_race_tileset(), 6, 6, 3);
    for _ in 0..10 {
        let before = admissible_sets(&wfc);
        if wfc.step().is_err() {
            break;
        }
        let after = admissible_sets(&wfc);
        for (b, a) in before.iter().zip(after.iter()) {
            for id in a {
                assert!(b.contains(id), "admissible set grew at some cell");
            }
        }
    }
}

#[test]
fn test_weight_proportionality_statistics() {
    // single-cell collapses from a uniform superposition: frequencies follow
    // the configured weights 1 : 2 : 7
    let mut counts = [0u32; 3];
    let runs = 10_000u64;
    for seed in 0..runs {
        let t = compatible_tileset(1, 2, 7);
        let mut wfc = WaveFunctionCollapse::new(t, 1, 1, seed);
        wfc.step().unwrap();
        match &wfc.wave.tiles[0] {
            WaveTile::Observed(i) => counts[i / 4] += 1,
            WaveTile::Unobserved(_) => panic!("cell not collapsed"),
        }
    }
    let total = runs as f64;
    let freq: Vec<f64> = counts.iter().map(|c| *c as f64 / total).collect();
    assert!((freq[0] - 0.1).abs() < 0.03, "pure_space frequency {}", freq[0]);
    assert!((freq[1] - 0.2).abs() < 0.03, "pure_grass frequency {}", freq[1]);
    assert!((freq[2] - 0.7).abs() < 0.03, "road_straight frequency {}", freq[2]);
}

fn assert_table_symmetric(t: &Tileset) {
    let n = t.tile_names.len() * 4;
    for i in 0..n {
        for s in 0..4 {
            for j in 0..n {
                let opp = if s < 2 { s + 2 } else { s - 2 };
                assert_eq!(
                    t.allowed_neighbors[i][s][j],
                    t.allowed_neighbors[j][opp][i],
                    "table not symmetric at {} {} {}",
                    i,
                    s,
                    j
                );
            }
        }
    }
}

#[test]
fn test_symmetry_table_island() {
    let t = make_island_race_tileset();
    assert_table_symmetric(&t);
}

#[test]
fn test_symmetry_table_declarative() {
    let defs = vec![
        TileDef {
            name: "a".to_owned(),
            tile: road_straight(),
            symmetry: Symmetry::I,
            weight: 1,
        },
        TileDef {
            name: "b".to_owned(),
            tile: pure_grass(),
            symmetry: Symmetry::T,
            weight: 2,
        },
        TileDef {
            name: "c".to_owned(),
            tile: pure_space(),
            symmetry: Symmetry::L,
            weight: 3,
        },
    ];
    let rules = vec![rule("a", "b"), rule("b", "c"), rule("a", "a")];
    let t = build_tileset(&defs, &rules).unwrap();
    assert_table_symmetric(&t);
}

#[test]
fn test_scenario_compatible_tileset() {
    // pure_space (10), pure_grass (2), road_straight (1), all mutually
    // compatible: a 5 x 5 run at seed 42 collapses fully
    let t = compatible_tileset(10, 2, 1);
    let mut wfc = WaveFunctionCollapse::new(t, 5, 5, 42);
    let (contradiction, _) = wfc.step_all(false);
    assert!(!contradiction);
    let b = wfc.bitmap();
    assert_eq!(b.width, 20);
    assert_eq!(b.height, 20);
    assert_eq!(b.bits.len(), 400);
    for bit in &b.bits {
        assert_ne!(*bit, Bit::Empty);
    }
}

#[test]
fn test_scenario_incompatible_tileset() {
    // two tiles that share no compatible side: on a 2 x 1 grid the first
    // collapse empties the second cell and the run reports a contradiction
    let defs = vec![def("a", pure_grass(), 1), def("b", pure_space(), 1)];
    let rules: Vec<NeighborRule> = Vec::new();
    let t = build_tileset(&defs, &rules).unwrap();
    let mut wfc = WaveFunctionCollapse::new(t, 2, 1, 0);
    let (contradiction, _) = wfc.step_all(false);
    assert!(contradiction);
    let empty_cells = wfc
        .wave
        .tiles
        .iter()
        .filter(|t| match t {
            WaveTile::Unobserved(bits) => bits.iter().all(|b| !*b),
            WaveTile::Observed(_) => false,
        })
        .count();
    assert_eq!(empty_cells, 1);
}

#[test]
fn test_step_errors() {
    let t = compatible_tileset(1, 1, 1);
    let mut wfc = WaveFunctionCollapse::new(t, 1, 1, 5);
    assert!(wfc.step().is_ok());
    assert_eq!(wfc.step(), Err(SolveError::Exhausted));

    let defs = vec![def("a", pure_grass(), 1), def("b", pure_space(), 1)];
    let rules: Vec<NeighborRule> = Vec::new();
    let t2 = build_tileset(&defs, &rules).unwrap();
    let mut wfc2 = WaveFunctionCollapse::new(t2, 2, 1, 0);
    assert!(wfc2.step().is_ok());
    assert_eq!(wfc2.step(), Err(SolveError::Contradiction));
}

#[test]
fn test_collapse_xy_to_tile() {
    let mut wfc = WaveFunctionCollapse::new(make_island_race_tileset(), 8, 8, 11);
    assert!(wfc.collapse_xy_to_tile(5, 5, "road_end").is_ok());
    match &wfc.wave.tiles[5 * 8 + 5] {
        WaveTile::Observed(i) => assert_eq!(i / 4, 2), // road_end is the third base tile
        WaveTile::Unobserved(_) => panic!("pre-seed did not collapse the cell"),
    }
    let (contradiction, _) = wfc.step_all(false);
    assert!(!contradiction);
}

#[test]
fn test_collapse_xy_unknown_name() {
    let mut wfc = WaveFunctionCollapse::new(make_island_race_tileset(), 8, 8, 11);
    assert_eq!(
        wfc.collapse_xy_to_tile(0, 0, "no_such_tile"),
        Err(TilesetError::UnknownTileName)
    );
}

#[test]
fn test_step_all_snapshots() {
    let t = compatible_tileset(10, 2, 1);
    let mut wfc = WaveFunctionCollapse::new(t, 3, 3, 1);
    let (contradiction, snapshots) = wfc.step_all(true);
    assert!(!contradiction);
    assert_eq!(snapshots.len(), 9);
    for s in &snapshots {
        assert_eq!(s.width, 12);
        assert_eq!(s.height, 12);
        assert_eq!(s.bits.len(), 144);
    }
    assert_eq!(snapshots.last().unwrap().bits, wfc.bitmap().bits);
}

#[test]
fn test_snapshots_do_not_affect_outcome() {
    // capturing per-step snapshots must not change the generated world
    let mut with_snaps = WaveFunctionCollapse::new(make_island_race_tileset(), 6, 6, 13);
    let mut without = WaveFunctionCollapse::new(make_island_race_tileset(), 6, 6, 13);
    let (c1, snaps) = with_snaps.step_all(true);
    let (c2, none) = without.step_all(false);
    assert_eq!(c1, c2);
    assert!(none.is_empty());
    assert!(!snaps.is_empty());
    assert_eq!(with_snaps.bitmap().bits, without.bitmap().bits);
}

#[test]
fn test_bitmap_of_fresh_wave_is_empty() {
    let wfc = WaveFunctionCollapse::new(make_island_race_tileset(), 3, 2, 0);
    let b = wfc.bitmap();
    assert_eq!(b.width, 12);
    assert_eq!(b.height, 8);
    for bit in &b.bits {
        assert_eq!(*bit, Bit::Empty);
    }
}

#[test]
fn test_bitmap_stamps_collapsed_cell() {
    let defs = vec![def("pure_grass", pure_grass(), 1)];
    let rules = vec![rule("pure_grass", "pure_grass")];
    let t = build_tileset(&defs, &rules).unwrap();
    let mut wfc = WaveFunctionCollapse::new(t, 1, 1, 3);
    wfc.collapse_xy_to_tile(0, 0, "pure_grass").unwrap();
    let b = wfc.bitmap();
    assert_eq!(b.width, 4);
    assert_eq!(b.height, 4);
    for bit in &b.bits {
        assert_eq!(*bit, Bit::Grass);
    }
}
