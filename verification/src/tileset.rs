use vstd::prelude::*;

use crate::types::{num_ids, opp_side, rot_side, side_equiv, table_at, table_symmetric, BaseTile, Bit, Symmetry, Tileset};

verus! {

/// Exec mirror of `opp_side`.
pub fn opp_side_ex(s: usize) -> (r: usize)
    requires
        s < 4,
    ensures
        r == opp_side(s as int),
{
    if s < 2 {
        s + 2
    } else {
        s - 2
    }
}

/// Exec mirror of `rot_side`.
pub fn rot_side_ex(s: usize, r: usize) -> (o: usize)
    requires
        s < 4,
        r < 4,
    ensures
        o == rot_side(s as int, r as int),
        o < 4,
{
    if s >= r {
        s - r
    } else {
        s + 4 - r
    }
}

/// Exec mirror of `side_equiv`.
pub fn sides_equivalent(sym: Symmetry, a: usize, b: usize) -> (r: bool)
    requires
        a < 4,
        b < 4,
    ensures
        r == side_equiv(sym, a as int, b as int),
{
    match sym {
        Symmetry::X => true,
        Symmetry::L => a == b || a + b == 3,
        Symmetry::I => a == b || a + 2 == b || b + 2 == a,
        Symmetry::T => a == b || (a == 1 && b == 3) || (a == 3 && b == 1),
        Symmetry::Slash => a == b || a + 2 == b || b + 2 == a,
        Symmetry::NoSymmetry => a == b,
    }
}

/// The set of sides equivalent to `side` under `sym`, in ascending order.
pub fn symmetric_sides(sym: Symmetry, side: usize) -> (r: Vec<usize>)
    requires
        side < 4,
    ensures
        forall|k: int|
            0 <= k < r@.len() ==> #[trigger] r@[k] < 4 && side_equiv(sym, side as int, r@[k] as int),
        forall|b: int|
            0 <= b < 4 && side_equiv(sym, side as int, b) ==> exists|k: int|
                0 <= k < r@.len() && r@[k] == b,
{
    let mut r: Vec<usize> = Vec::new();
    for b in 0..4usize
        invariant
            side < 4,
            forall|k: int|
                0 <= k < r@.len() ==> #[trigger] r@[k] < b && side_equiv(
                    sym,
                    side as int,
                    r@[k] as int,
                ),
            forall|c: int|
                0 <= c < b && side_equiv(sym, side as int, c) ==> exists|k: int|
                    0 <= k < r@.len() && r@[k] == c,
    {
        let ghost r0 = r@;
        let eqv = sides_equivalent(sym, side, b);
        if eqv {
            r.push(b);
            assert(r@[r@.len() - 1] == b);
        }
        proof {
            assert forall|c: int|
                0 <= c < b + 1 && side_equiv(sym, side as int, c) implies exists|k: int|
                0 <= k < r@.len() && r@[k] == c by {
                if c == b {
                    assert(r@[r@.len() - 1] == b);
                } else {
                    let k = choose|k: int| 0 <= k < r0.len() && r0[k] == c;
                    assert(r@[k] == c);
                }
            }
        }
    }
    r
}

/// The `k`-th cell of the edge of pattern `p` on side `side`, read
/// counter-clockwise around the tile.
pub open spec fn edge_bit(p: Seq<Bit>, side: int, k: int) -> Bit {
    if side == 0 {
        p[3 - k]
    } else if side == 1 {
        p[k * 4]
    } else if side == 2 {
        p[12 + k]
    } else {
        p[(3 - k) * 4 + 3]
    }
}

/// Two edges fit together exactly when, read in the fixed counter-clockwise
/// direction around each tile, they are mirror images of one another.
pub open spec fn edges_match_spec(p1: Seq<Bit>, s1: int, p2: Seq<Bit>, s2: int) -> bool {
    forall|k: int| 0 <= k < 4 ==> edge_bit(p1, s1, k) == edge_bit(p2, s2, 3 - k)
}

/// Matching edges is a symmetric relation.
pub proof fn lemma_edges_match_sym(p1: Seq<Bit>, s1: int, p2: Seq<Bit>, s2: int)
    ensures
        edges_match_spec(p1, s1, p2, s2) == edges_match_spec(p2, s2, p1, s1),
{
    if edges_match_spec(p1, s1, p2, s2) {
        assert forall|k: int| 0 <= k < 4 implies edge_bit(p2, s2, k) == edge_bit(p1, s1, 3 - k) by {
            assert(edge_bit(p1, s1, 3 - k) == edge_bit(p2, s2, 3 - (3 - k)));
        }
    }
    if edges_match_spec(p2, s2, p1, s1) {
        assert forall|k: int| 0 <= k < 4 implies edge_bit(p1, s1, k) == edge_bit(p2, s2, 3 - k) by {
            assert(edge_bit(p2, s2, 3 - k) == edge_bit(p1, s1, 3 - (3 - k)));
        }
    }
}

/// Each edge is read in the counter-clockwise direction around the tile.
pub fn get_edge(tile: &BaseTile, side: usize) -> (r: Vec<Bit>)
    requires
        tile.wf(),
        side < 4,
    ensures
        r@.len() == 4,
        forall|k: int| 0 <= k < 4 ==> #[trigger] r@[k] == edge_bit(tile.bitmap@, side as int, k),
{
    let mut r: Vec<Bit> = Vec::new();
    if side == 0 {
        // top: right to left
        r.push(tile.bitmap[3]);
        r.push(tile.bitmap[2]);
        r.push(tile.bitmap[1]);
        r.push(tile.bitmap[0]);
    } else if side == 1 {
        // left: top to bottom
        r.push(tile.bitmap[0]);
        r.push(tile.bitmap[4]);
        r.push(tile.bitmap[8]);
        r.push(tile.bitmap[12]);
    } else if side == 2 {
        // bottom: left to right
        r.push(tile.bitmap[12]);
        r.push(tile.bitmap[13]);
        r.push(tile.bitmap[14]);
        r.push(tile.bitmap[15]);
    } else {
        // right: bottom to top
        r.push(tile.bitmap[15]);
        r.push(tile.bitmap[11]);
        r.push(tile.bitmap[7]);
        r.push(tile.bitmap[3]);
    }
    r
}

/// Whether the edge of `tile1` on `side1` can sit against the edge of
/// `tile2` on `side2`.
pub fn edges_match(tile1: &BaseTile, side1: usize, tile2: &BaseTile, side2: usize) -> (r: bool)
    requires
        tile1.wf(),
        tile2.wf(),
        side1 < 4,
        side2 < 4,
    ensures
        r == edges_match_spec(tile1.bitmap@, side1 as int, tile2.bitmap@, side2 as int),
{
    let bits1 = get_edge(tile1, side1);
    let bits2 = get_edge(tile2, side2);
    let r = bits1[0] == bits2[3] && bits1[1] == bits2[2] && bits1[2] == bits2[1] && bits1[3]
        == bits2[0];
    proof {
        if r {
            assert forall|k: int| 0 <= k < 4 implies edge_bit(tile1.bitmap@, side1 as int, k)
                == edge_bit(tile2.bitmap@, side2 as int, 3 - k) by {
                assert(bits1@[k] == edge_bit(tile1.bitmap@, side1 as int, k));
                assert(bits2@[3 - k] == edge_bit(tile2.bitmap@, side2 as int, 3 - k));
            }
        }
    }
    r
}

/// Whether identity `j` may sit on side `s` of identity `i` when adjacency
/// is decided by matching the adjoining rotated edges of the two patterns.
pub open spec fn proc_allows(tiles: Seq<BaseTile>, i: int, s: int, j: int) -> bool {
    edges_match_spec(
        tiles[i / 4].bitmap@,
        rot_side(s, i % 4),
        tiles[j / 4].bitmap@,
        rot_side(opp_side(s), j % 4),
    )
}

/// Build the full rotation-aware adjacency table by edge matching: entry
/// `[i][s][j]` is set exactly when the adjoining edges of the rotated
/// patterns read as mirror images.
pub fn build_edge_table(tiles: &Vec<BaseTile>) -> (table: Vec<Vec<Vec<bool>>>)
    requires
        1 <= tiles@.len() < 0x10000000,
        forall|k: int| 0 <= k < tiles@.len() ==> (#[trigger] tiles@[k]).wf(),
    ensures
        table@.len() == tiles@.len() * 4,
        forall|i: int|
            0 <= i < table@.len() ==> (#[trigger] table@[i])@.len() == 4,
        forall|i: int, s: int|
            0 <= i < table@.len() && 0 <= s < 4 ==> (#[trigger] table@[i]@[s])@.len() == tiles@.len()
                * 4,
        forall|i: int, s: int, j: int|
            0 <= i < table@.len() && 0 <= s < 4 && 0 <= j < table@.len() ==> #[trigger] table@[i]@[s]@[j]
                == proc_allows(tiles@, i, s, j),
{
    let n_ids = tiles.len() * 4;
    let mut table: Vec<Vec<Vec<bool>>> = Vec::new();
    for i in 0..n_ids
        invariant
            n_ids == tiles@.len() * 4,
            1 <= tiles@.len() < 0x10000000,
            forall|k: int| 0 <= k < tiles@.len() ==> (#[trigger] tiles@[k]).wf(),
            table@.len() == i,
            forall|a: int| 0 <= a < i ==> (#[trigger] table@[a])@.len() == 4,
            forall|a: int, s: int|
                0 <= a < i && 0 <= s < 4 ==> (#[trigger] table@[a]@[s])@.len() == n_ids,
            forall|a: int, s: int, j: int|
                0 <= a < i && 0 <= s < 4 && 0 <= j < n_ids ==> #[trigger] table@[a]@[s]@[j]
                    == proc_allows(tiles@, a, s, j),
    {
        let mut row: Vec<Vec<bool>> = Vec::new();
        for s in 0..4usize
            invariant
                n_ids == tiles@.len() * 4,
                1 <= tiles@.len() < 0x10000000,
                forall|k: int| 0 <= k < tiles@.len() ==> (#[trigger] tiles@[k]).wf(),
                i < n_ids,
                row@.len() == s,
                forall|b: int| 0 <= b < s ==> (#[trigger] row@[b])@.len() == n_ids,
                forall|b: int, j: int|
                    0 <= b < s && 0 <= j < n_ids ==> #[trigger] row@[b]@[j] == proc_allows(
                        tiles@,
                        i as int,
                        b,
                        j,
                    ),
        {
            let mut col: Vec<bool> = Vec::new();
            for j in 0..n_ids
                invariant
                    n_ids == tiles@.len() * 4,
                    1 <= tiles@.len() < 0x10000000,
                    forall|k: int| 0 <= k < tiles@.len() ==> (#[trigger] tiles@[k]).wf(),
                    i < n_ids,
                    s < 4,
                    col@.len() == j,
                    forall|c: int|
                        0 <= c < j ==> #[trigger] col@[c] == proc_allows(tiles@, i as int, s as int, c),
            {
                assert(i / 4 < tiles@.len() && j / 4 < tiles@.len()) by {
                    assert(i < tiles@.len() * 4 && j < tiles@.len() * 4);
                };
                let b = edges_match(
                    &tiles[i / 4],
                    rot_side_ex(s, i % 4),
                    &tiles[j / 4],
                    rot_side_ex(opp_side_ex(s), j % 4),
                );
                col.push(b);
            }
            row.push(col);
        }
        table.push(row);
    }
    table
}


/// The pattern of a straight road segment.
pub open spec fn road_straight_pattern() -> Seq<Bit> {
    let g = Bit::Grass;
    let r = Bit::Road;
    seq![g, r, r, g, g, r, r, g, g, r, r, g, g, r, r, g]
}

/// The pattern of a road corner.
pub open spec fn road_turn_pattern() -> Seq<Bit> {
    let g = Bit::Grass;
    let r = Bit::Road;
    seq![g, r, r, g, g, r, r, r, g, r, r, r, g, g, g, g]
}

/// The pattern of a road dead end.
pub open spec fn road_end_pattern() -> Seq<Bit> {
    let g = Bit::Grass;
    let r = Bit::Road;
    seq![g, g, g, g, g, r, r, g, g, r, r, g, g, r, r, g]
}

/// The pattern of open space.
pub open spec fn pure_space_pattern() -> Seq<Bit> {
    let s = Bit::Space;
    seq![s, s, s, s, s, s, s, s, s, s, s, s, s, s, s, s]
}

/// The pattern of plain grass.
pub open spec fn pure_grass_pattern() -> Seq<Bit> {
    let g = Bit::Grass;
    seq![g, g, g, g, g, g, g, g, g, g, g, g, g, g, g, g]
}

/// The pattern of a straight island edge, grass fading to space.
pub open spec fn island_edge_pattern() -> Seq<Bit> {
    let g = Bit::Grass;
    let d = Bit::Dirt;
    let s = Bit::Space;
    seq![g, g, g, g, g, g, g, g, d, d, d, d, s, s, s, s]
}

/// The pattern of an outer island corner.
pub open spec fn island_corner_pattern() -> Seq<Bit> {
    let g = Bit::Grass;
    let d = Bit::Dirt;
    let s = Bit::Space;
    seq![g, g, d, s, g, g, d, s, d, d, s, s, s, s, s, s]
}

/// The pattern of an inner island corner.
pub open spec fn island_inner_pattern() -> Seq<Bit> {
    let g = Bit::Grass;
    let d = Bit::Dirt;
    let s = Bit::Space;
    seq![g, g, g, g, g, g, g, g, g, g, g, d, g, g, d, s]
}

pub fn road_straight() -> (t: BaseTile)
    ensures
        t.wf(),
        t.bitmap@ == road_straight_pattern(),
{
    let g = Bit::Grass;
    let r = Bit::Road;
    let t = BaseTile { bitmap: vec![g, r, r, g, g, r, r, g, g, r, r, g, g, r, r, g] };
    assert(t.bitmap@ =~= road_straight_pattern());
    t
}

pub fn road_turn() -> (t: BaseTile)
    ensures
        t.wf(),
        t.bitmap@ == road_turn_pattern(),
{
    let g = Bit::Grass;
    let r = Bit::Road;
    let t = BaseTile { bitmap: vec![g, r, r, g, g, r, r, r, g, r, r, r, g, g, g, g] };
    assert(t.bitmap@ =~= road_turn_pattern());
    t
}

pub fn road_end() -> (t: BaseTile)
    ensures
        t.wf(),
        t.bitmap@ == road_end_pattern(),
{
    let g = Bit::Grass;
    let r = Bit::Road;
    let t = BaseTile { bitmap: vec![g, g, g, g, g, r, r, g, g, r, r, g, g, r, r, g] };
    assert(t.bitmap@ =~= road_end_pattern());
    t
}

pub fn pure_space() -> (t: BaseTile)
    ensures
        t.wf(),
        t.bitmap@ == pure_space_pattern(),
{
    let s = Bit::Space;
    let t = BaseTile { bitmap: vec![s, s, s, s, s, s, s, s, s, s, s, s, s, s, s, s] };
    assert(t.bitmap@ =~= pure_space_pattern());
    t
}

pub fn pure_grass() -> (t: BaseTile)
    ensures
        t.wf(),
        t.bitmap@ == pure_grass_pattern(),
{
    let g = Bit::Grass;
    let t = BaseTile { bitmap: vec![g, g, g, g, g, g, g, g, g, g, g, g, g, g, g, g] };
    assert(t.bitmap@ =~= pure_grass_pattern());
    t
}

pub fn island_edge() -> (t: BaseTile)
    ensures
        t.wf(),
        t.bitmap@ == island_edge_pattern(),
{
    let g = Bit::Grass;
    let d = Bit::Dirt;
    let s = Bit::Space;
    let t = BaseTile { bitmap: vec![g, g, g, g, g, g, g, g, d, d, d, d, s, s, s, s] };
    assert(t.bitmap@ =~= island_edge_pattern());
    t
}

pub fn island_corner() -> (t: BaseTile)
    ensures
        t.wf(),
        t.bitmap@ == island_corner_pattern(),
{
    let g = Bit::Grass;
    let d = Bit::Dirt;
    let s = Bit::Space;
    let t = BaseTile { bitmap: vec![g, g, d, s, g, g, d, s, d, d, s, s, s, s, s, s] };
    assert(t.bitmap@ =~= island_corner_pattern());
    t
}

pub fn island_inner() -> (t: BaseTile)
    ensures
        t.wf(),
        t.bitmap@ == island_inner_pattern(),
{
    let g = Bit::Grass;
    let d = Bit::Dirt;
    let s = Bit::Space;
    let t = BaseTile { bitmap: vec![g, g, g, g, g, g, g, g, g, g, g, d, g, g, d, s] };
    assert(t.bitmap@ =~= island_inner_pattern());
    t
}

/// Any table whose entries agree pointwise with `proc_allows` satisfies the
/// adjacency-symmetry invariant: edge matching is a symmetric relation, and
/// swapping the two identities swaps the two rotated sides exactly.
pub proof fn lemma_edge_table_symmetric(t: Tileset)
    requires
        t.wf(),
        forall|i: int, s: int, j: int|
            0 <= i < num_ids(t) && 0 <= s < 4 && 0 <= j < num_ids(t) ==> #[trigger] table_at(
                t,
                i,
                s,
                j,
            ) == proc_allows(t.tiles@, i, s, j),
    ensures
        table_symmetric(t),
{
    assert forall|i: int, s: int, j: int|
        0 <= i < num_ids(t) && 0 <= s < 4 && 0 <= j < num_ids(t) implies #[trigger] table_at(
        t,
        i,
        s,
        j,
    ) == table_at(t, j, opp_side(s), i) by {
        lemma_edges_match_sym(
            t.tiles@[i / 4].bitmap@,
            rot_side(s, i % 4),
            t.tiles@[j / 4].bitmap@,
            rot_side(opp_side(s), j % 4),
        );
        assert(opp_side(opp_side(s)) == s);
        assert(proc_allows(t.tiles@, j, opp_side(s), i) == proc_allows(t.tiles@, i, s, j));
    }
}

/// The fixed island tileset: eight base tiles whose adjacency is derived
/// procedurally by edge matching. Weights are integer multiples of the
/// smallest configured weight step.
pub fn make_island_race_tileset() -> (t: Tileset)
    ensures
        t.wf(),
        t.tile_names@.len() == 8,
        t.tile_names@[0]@ == "road_straight"@,
        t.tile_names@[1]@ == "road_turn"@,
        t.tile_names@[2]@ == "road_end"@,
        t.tile_names@[3]@ == "pure_space"@,
        t.tile_names@[4]@ == "pure_grass"@,
        t.tile_names@[5]@ == "island_edge"@,
        t.tile_names@[6]@ == "island_corner"@,
        t.tile_names@[7]@ == "island_inner"@,
        t.tile_weights@ == seq![100u32, 50, 1, 1000, 200, 100, 100, 100],
        t.tiles@[0].bitmap@ == road_straight_pattern(),
        t.tiles@[1].bitmap@ == road_turn_pattern(),
        t.tiles@[2].bitmap@ == road_end_pattern(),
        t.tiles@[3].bitmap@ == pure_space_pattern(),
        t.tiles@[4].bitmap@ == pure_grass_pattern(),
        t.tiles@[5].bitmap@ == island_edge_pattern(),
        t.tiles@[6].bitmap@ == island_corner_pattern(),
        t.tiles@[7].bitmap@ == island_inner_pattern(),
        forall|i: int, s: int, j: int|
            0 <= i < num_ids(t) && 0 <= s < 4 && 0 <= j < num_ids(t) ==> #[trigger] table_at(
                t,
                i,
                s,
                j,
            ) == proc_allows(t.tiles@, i, s, j),
        table_symmetric(t),
{
    let mut tiles: Vec<BaseTile> = Vec::new();
    tiles.push(road_straight());
    tiles.push(road_turn());
    tiles.push(road_end());
    tiles.push(pure_space());
    tiles.push(pure_grass());
    tiles.push(island_edge());
    tiles.push(island_corner());
    tiles.push(island_inner());

    let mut tile_names: Vec<String> = Vec::new();
    tile_names.push("road_straight".to_owned());
    tile_names.push("road_turn".to_owned());
    tile_names.push("road_end".to_owned());
    tile_names.push("pure_space".to_owned());
    tile_names.push("pure_grass".to_owned());
    tile_names.push("island_edge".to_owned());
    tile_names.push("island_corner".to_owned());
    tile_names.push("island_inner".to_owned());

    let tile_weights: Vec<u32> = vec![100, 50, 1, 1000, 200, 100, 100, 100];
    assert(tile_weights@ =~= seq![100u32, 50, 1, 1000, 200, 100, 100, 100]);

    let allowed_neighbors = build_edge_table(&tiles);

    let t = Tileset { tiles, tile_names, allowed_neighbors, tile_weights };
    proof {
        lemma_edge_table_symmetric(t);
    }
    t
}

} // verus!
