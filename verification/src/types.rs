use vstd::prelude::*;

verus! {

/// Side length of a tile pattern, in bitmap cells.
pub const TILE_SIZE: usize = 4;

/// One terrain category of a bitmap cell.
#[derive(Debug, Clone, Copy, PartialEq, Eq, Structural)]
pub enum Bit {
    Road,
    Space,
    Grass,
    Dirt,
    Empty,
}

/// An immutable base tile pattern: a TILE_SIZE x TILE_SIZE grid of
/// categories, stored row-major as a flat vector of length 16.
#[derive(Debug)]
pub struct BaseTile {
    pub bitmap: Vec<Bit>,
}

impl BaseTile {
    /// A pattern is well formed when it holds exactly TILE_SIZE * TILE_SIZE cells.
    pub open spec fn wf(self) -> bool {
        self.bitmap@.len() == 16
    }
}

/// The category at row `y`, column `x` of a flat row-major pattern.
pub open spec fn tile_bit(p: Seq<Bit>, y: int, x: int) -> Bit {
    p[y * 4 + x]
}

/// A decoded tile identity: which base tile, and how many quarter turns.
pub struct Tile {
    pub base_tile_idx: usize,
    pub rotation: u8,
}

/// How a tile's four sides are interchangeable under rotation.
#[derive(Debug, Clone, Copy, PartialEq, Eq, Structural)]
pub enum Symmetry {
    /// All four sides are equivalent.
    X,
    /// Opposite sides are equivalent in adjacent pairs: top with right, left with bottom.
    L,
    /// Opposite sides are equivalent.
    I,
    /// The two lateral sides are equivalent; top and bottom stand alone.
    T,
    /// Opposite sides are equivalent, as for a diagonal stroke.
    Slash,
    /// Every side stands alone.
    NoSymmetry,
}

/// Whether sides `a` and `b` are interchangeable for symmetry class `sym`.
/// Sides are numbered counter-clockwise: 0 top, 1 left, 2 bottom, 3 right.
pub open spec fn side_equiv(sym: Symmetry, a: int, b: int) -> bool {
    match sym {
        Symmetry::X => true,
        Symmetry::L => a == b || a + b == 3,
        Symmetry::I => a == b || a + 2 == b || b + 2 == a,
        Symmetry::T => a == b || (a == 1 && b == 3) || (a == 3 && b == 1),
        Symmetry::Slash => a == b || a + 2 == b || b + 2 == a,
        Symmetry::NoSymmetry => a == b,
    }
}

/// The side opposite to `s`.
pub open spec fn opp_side(s: int) -> int {
    if s < 2 {
        s + 2
    } else {
        s - 2
    }
}

/// The absolute side `s` of a tile rotated by `r` quarter turns, mapped back
/// to the side index of the unrotated base pattern; equals (s - r) mod 4.
pub open spec fn rot_side(s: int, r: int) -> int {
    if s >= r {
        s - r
    } else {
        s - r + 4
    }
}

/// A tile catalog with per-tile weights and the rotation-aware adjacency
/// table. `tiles[k]` is the pattern named by `tile_names[k]`; identity
/// `k * 4 + r` is that tile rotated by `r` quarter turns. The table is
/// indexed `[identity][side][other identity]`.
#[derive(Debug)]
pub struct Tileset {
    pub tiles: Vec<BaseTile>,
    pub tile_names: Vec<String>,
    pub allowed_neighbors: Vec<Vec<Vec<bool>>>,
    pub tile_weights: Vec<u32>,
}

/// The number of tile identities: four rotations of every base tile.
pub open spec fn num_ids(t: Tileset) -> int {
    t.tile_names@.len() * 4 as int
}

/// Whether identity `j` may sit on side `s` of identity `i`.
pub open spec fn table_at(t: Tileset, i: int, s: int, j: int) -> bool {
    t.allowed_neighbors@[i]@[s]@[j]
}

impl Tileset {
    pub open spec fn wf(self) -> bool {
        &&& self.tiles@.len() == self.tile_names@.len()
        &&& self.tile_weights@.len() == self.tile_names@.len()
        &&& self.tile_names@.len() >= 1
        &&& self.tile_names@.len() < 0x10000000
        &&& forall|k: int|
            0 <= k < self.tiles@.len() ==> (#[trigger] self.tiles@[k]).wf()
        &&& forall|k: int|
            0 <= k < self.tile_weights@.len() ==> #[trigger] self.tile_weights@[k] >= 1
        &&& self.allowed_neighbors@.len() == num_ids(self)
        &&& forall|i: int|
            0 <= i < num_ids(self) ==> (#[trigger] self.allowed_neighbors@[i])@.len() == 4
        &&& forall|i: int, s: int|
            0 <= i < num_ids(self) && 0 <= s < 4 ==> (
            #[trigger] self.allowed_neighbors@[i]@[s])@.len() == num_ids(self)
    }
}

/// The adjacency-table invariant: if `j` is allowed on side `s` of `i`,
/// then `i` is allowed on the opposite side of `j`, and conversely.
pub open spec fn table_symmetric(t: Tileset) -> bool {
    forall|i: int, s: int, j: int|
        0 <= i < num_ids(t) && 0 <= s < 4 && 0 <= j < num_ids(t) ==> #[trigger] table_at(
            t,
            i,
            s,
            j,
        ) == table_at(t, j, opp_side(s), i)
}

} // verus!
