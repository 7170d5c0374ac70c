use vstd::prelude::*;

use crate::tileset::{opp_side_ex, rot_side_ex, sides_equivalent};
use crate::types::{
    num_ids, opp_side, rot_side, side_equiv, table_at, table_symmetric, BaseTile, Bit, Symmetry,
    Tileset,
};

verus! {

/// One entry of a declarative tile catalog: a named pattern with its
/// symmetry class and selection weight.
pub struct TileDef {
    pub name: String,
    pub tile: BaseTile,
    pub symmetry: Symmetry,
    pub weight: u32,
}

/// An authored adjacency rule: the right side (side 3) of `left`, rotated by
/// `left_rotation` quarter turns, touches the left side (side 1) of `right`,
/// rotated by `right_rotation` quarter turns. The rule is bidirectional.
pub struct NeighborRule {
    pub left: String,
    pub left_rotation: u8,
    pub right: String,
    pub right_rotation: u8,
}

/// Why a declarative tileset could not be built. All of these are fatal
/// configuration errors: no partially valid tileset is ever produced.
#[derive(Debug, Clone, Copy, PartialEq, Eq, Structural)]
pub enum TilesetError {
    EmptyCatalog,
    TooManyTiles,
    BadWeight,
    BadPatternSize,
    DuplicateTileName,
    BadRotation,
    UnknownTileName,
}

/// Index of the first catalog entry named `name`, or -1 when there is none.
pub open spec fn find_name(defs: Seq<TileDef>, name: Seq<char>) -> int
    decreases defs.len(),
{
    if defs.len() == 0 {
        -1
    } else if defs[0].name@ == name {
        0
    } else {
        let r = find_name(defs.subrange(1, defs.len() as int), name);
        if r < 0 {
            -1
        } else {
            r + 1
        }
    }
}

pub proof fn lemma_find_name(defs: Seq<TileDef>, name: Seq<char>)
    ensures
        find_name(defs, name) == -1 ==> forall|k: int|
            0 <= k < defs.len() ==> (#[trigger] defs[k]).name@ != name,
        find_name(defs, name) >= 0 ==> {
            let r = find_name(defs, name);
            &&& r < defs.len()
            &&& defs[r].name@ == name
            &&& forall|k: int| 0 <= k < r ==> (#[trigger] defs[k]).name@ != name
        },
    decreases defs.len(),
{
    if defs.len() > 0 && defs[0].name@ != name {
        lemma_find_name(defs.subrange(1, defs.len() as int), name);
        assert forall|k: int| 1 <= k < defs.len() implies defs.subrange(1, defs.len() as int)[k - 1]
            == defs[k] by {}
    }
}

/// Whether a single authored rule, expanded through the symmetry classes of
/// its two tiles and through every pair of rotations, lets identity `j` sit
/// on side `s` of identity `i`.
pub open spec fn rule_allows(defs: Seq<TileDef>, r: NeighborRule, i: int, s: int, j: int) -> bool {
    let a = find_name(defs, r.left@);
    let b = find_name(defs, r.right@);
    let base_a = rot_side(3, r.left_rotation as int);
    let base_b = rot_side(1, r.right_rotation as int);
    ||| (i / 4 == a && j / 4 == b && side_equiv(defs[a].symmetry, base_a, rot_side(s, i % 4))
        && side_equiv(defs[b].symmetry, base_b, rot_side(opp_side(s), j % 4)))
    ||| (i / 4 == b && j / 4 == a && side_equiv(defs[b].symmetry, base_b, rot_side(s, i % 4))
        && side_equiv(defs[a].symmetry, base_a, rot_side(opp_side(s), j % 4)))
}

/// Whether any authored rule lets identity `j` sit on side `s` of identity `i`.
pub open spec fn decl_allows(
    defs: Seq<TileDef>,
    rules: Seq<NeighborRule>,
    i: int,
    s: int,
    j: int,
) -> bool {
    exists|ri: int| 0 <= ri < rules.len() && rule_allows(defs, #[trigger] rules[ri], i, s, j)
}

/// Rule expansion is symmetric: what a rule grants for `(i, s, j)` it grants
/// for `(j, opposite of s, i)` as well, because each rule is marked in both
/// directions.
pub proof fn lemma_decl_allows_symmetric(
    defs: Seq<TileDef>,
    rules: Seq<NeighborRule>,
    i: int,
    s: int,
    j: int,
)
    requires
        0 <= s < 4,
    ensures
        decl_allows(defs, rules, i, s, j) == decl_allows(defs, rules, j, opp_side(s), i),
{
    assert(opp_side(opp_side(s)) == s);
    assert forall|ri: int| 0 <= ri < rules.len() implies (rule_allows(
        defs,
        #[trigger] rules[ri],
        i,
        s,
        j,
    ) == rule_allows(defs, rules[ri], j, opp_side(s), i)) by {}
}

/// The catalog conditions a declarative tileset needs: at least one tile,
/// not more than the table can index, positive weights, full-size patterns,
/// and distinct names.
pub open spec fn catalog_ok(defs: Seq<TileDef>) -> bool {
    &&& 1 <= defs.len() < 0x10000000
    &&& forall|k: int| 0 <= k < defs.len() ==> (#[trigger] defs[k]).weight >= 1
    &&& forall|k: int| 0 <= k < defs.len() ==> (#[trigger] defs[k]).tile.bitmap@.len() == 16
    &&& forall|k: int, l: int|
        0 <= k < defs.len() && 0 <= l < defs.len() && k != l ==> (#[trigger] defs[k]).name@ != (
        #[trigger] defs[l]).name@
}

/// The rule conditions: rotations below four and only known tile names.
pub open spec fn rules_ok(defs: Seq<TileDef>, rules: Seq<NeighborRule>) -> bool {
    &&& forall|k: int|
        0 <= k < rules.len() ==> (#[trigger] rules[k]).left_rotation < 4 && rules[k].right_rotation
            < 4
    &&& forall|k: int|
        0 <= k < rules.len() ==> find_name(defs, (#[trigger] rules[k]).left@) >= 0 && find_name(
            defs,
            rules[k].right@,
        ) >= 0
}

/// The error a declarative build reports, by fixed precedence, or `None`
/// when the configuration is valid.
pub open spec fn build_tileset_error(defs: Seq<TileDef>, rules: Seq<NeighborRule>) -> Option<
    TilesetError,
> {
    if defs.len() == 0 {
        Some(TilesetError::EmptyCatalog)
    } else if defs.len() >= 0x10000000 {
        Some(TilesetError::TooManyTiles)
    } else if exists|k: int| 0 <= k < defs.len() && (#[trigger] defs[k]).weight == 0 {
        Some(TilesetError::BadWeight)
    } else if exists|k: int| 0 <= k < defs.len() && (#[trigger] defs[k]).tile.bitmap@.len() != 16 {
        Some(TilesetError::BadPatternSize)
    } else if exists|k: int, l: int|
        0 <= k < defs.len() && 0 <= l < defs.len() && k != l && (#[trigger] defs[k]).name@ == (
        #[trigger] defs[l]).name@ {
        Some(TilesetError::DuplicateTileName)
    } else if exists|k: int|
        0 <= k < rules.len() && ((#[trigger] rules[k]).left_rotation >= 4 || rules[k].right_rotation
            >= 4) {
        Some(TilesetError::BadRotation)
    } else if exists|k: int|
        0 <= k < rules.len() && (find_name(defs, (#[trigger] rules[k]).left@) < 0 || find_name(
            defs,
            rules[k].right@,
        ) < 0) {
        Some(TilesetError::UnknownTileName)
    } else {
        None
    }
}

/// Index of the first catalog entry named `name`.
pub fn find_name_ex(defs: &Vec<TileDef>, name: &String) -> (r: Option<usize>)
    ensures
        match r {
            Some(a) => a == find_name(defs@, name@) && a < defs@.len(),
            None => find_name(defs@, name@) == -1,
        },
{
    proof {
        lemma_find_name(defs@, name@);
    }
    let n = defs.len();
    for k in 0..n
        invariant
            n == defs@.len(),
            forall|l: int| 0 <= l < k ==> (#[trigger] defs@[l]).name@ != name@,
    {
        let d = &defs[k];
        if d.name.eq(name) {
            proof {
                lemma_find_name(defs@, name@);
            }
            return Some(k);
        }
    }
    None
}

/// A fresh copy of a pattern.
fn copy_tile(t: &BaseTile) -> (r: BaseTile)
    ensures
        r.bitmap@ == t.bitmap@,
{
    let mut bitmap: Vec<Bit> = Vec::new();
    let n = t.bitmap.len();
    for k in 0..n
        invariant
            n == t.bitmap@.len(),
            bitmap@.len() == k,
            forall|l: int| 0 <= l < k ==> #[trigger] bitmap@[l] == t.bitmap@[l],
    {
        bitmap.push(t.bitmap[k]);
    }
    assert(bitmap@ =~= t.bitmap@);
    BaseTile { bitmap }
}

/// Whether any rule allows identity `j` on side `s` of identity `i`, with the
/// rules' tile names already resolved to `ridx`.
fn decl_entry(
    defs: &Vec<TileDef>,
    rules: &Vec<NeighborRule>,
    ridx: &Vec<(usize, usize)>,
    i: usize,
    s: usize,
    j: usize,
) -> (r: bool)
    requires
        1 <= defs@.len() < 0x10000000,
        ridx@.len() == rules@.len(),
        forall|k: int|
            0 <= k < rules@.len() ==> (#[trigger] rules@[k]).left_rotation < 4
                && rules@[k].right_rotation < 4,
        forall|k: int|
            0 <= k < ridx@.len() ==> (#[trigger] ridx@[k]).0 == find_name(defs@, rules@[k].left@)
                && ridx@[k].1 == find_name(defs@, rules@[k].right@) && ridx@[k].0 < defs@.len()
                && ridx@[k].1 < defs@.len(),
        i < defs@.len() * 4,
        s < 4,
        j < defs@.len() * 4,
    ensures
        r == decl_allows(defs@, rules@, i as int, s as int, j as int),
{
    let n_rules = rules.len();
    for k in 0..n_rules
        invariant
            n_rules == rules@.len(),
            1 <= defs@.len() < 0x10000000,
            ridx@.len() == rules@.len(),
            forall|m: int|
                0 <= m < rules@.len() ==> (#[trigger] rules@[m]).left_rotation < 4
                    && rules@[m].right_rotation < 4,
            forall|m: int|
                0 <= m < ridx@.len() ==> (#[trigger] ridx@[m]).0 == find_name(
                    defs@,
                    rules@[m].left@,
                ) && ridx@[m].1 == find_name(defs@, rules@[m].right@) && ridx@[m].0 < defs@.len()
                    && ridx@[m].1 < defs@.len(),
            i < defs@.len() * 4,
            s < 4,
            j < defs@.len() * 4,
            forall|m: int|
                0 <= m < k ==> !rule_allows(defs@, #[trigger] rules@[m], i as int, s as int, j as int),
    {
        let rule = &rules[k];
        let (a, b) = (ridx[k].0, ridx[k].1);
        let base_a = rot_side_ex(3, rule.left_rotation as usize);
        let base_b = rot_side_ex(1, rule.right_rotation as usize);
        let side_i = rot_side_ex(s, i % 4);
        let side_j = rot_side_ex(opp_side_ex(s), j % 4);
        let fwd = i / 4 == a && j / 4 == b && sides_equivalent(defs[a].symmetry, base_a, side_i)
            && sides_equivalent(defs[b].symmetry, base_b, side_j);
        let rev = i / 4 == b && j / 4 == a && sides_equivalent(defs[b].symmetry, base_b, side_i)
            && sides_equivalent(defs[a].symmetry, base_a, side_j);
        if fwd || rev {
            assert(rule_allows(defs@, rules@[k as int], i as int, s as int, j as int));
            return true;
        }
        assert(!rule_allows(defs@, rules@[k as int], i as int, s as int, j as int));
    }
    false
}

/// Build a tileset from a declarative catalog and authored neighbor rules,
/// expanding each rule through the tiles' symmetry classes and all rotation
/// pairs. Fails outright on any configuration error; never yields a
/// partially valid table.
pub fn build_tileset(defs: &Vec<TileDef>, rules: &Vec<NeighborRule>) -> (r: Result<
    Tileset,
    TilesetError,
>)
    ensures
        r is Err <==> build_tileset_error(defs@, rules@) is Some,
        r is Err ==> r->Err_0 == build_tileset_error(defs@, rules@)->Some_0,
        r is Ok ==> ({
            let t = r->Ok_0;
            &&& t.wf()
            &&& catalog_ok(defs@)
            &&& rules_ok(defs@, rules@)
            &&& t.tile_names@.len() == defs@.len()
            &&& forall|k: int|
                0 <= k < defs@.len() ==> (#[trigger] t.tile_names@[k])@ == defs@[k].name@
            &&& forall|k: int|
                0 <= k < defs@.len() ==> (#[trigger] t.tiles@[k]).bitmap@ == defs@[k].tile.bitmap@
            &&& forall|k: int|
                0 <= k < defs@.len() ==> #[trigger] t.tile_weights@[k] == defs@[k].weight
            &&& forall|i: int, s: int, j: int|
                0 <= i < num_ids(t) && 0 <= s < 4 && 0 <= j < num_ids(t) ==> #[trigger] table_at(
                    t,
                    i,
                    s,
                    j,
                ) == decl_allows(defs@, rules@, i, s, j)
            &&& table_symmetric(t)
        }),
{
    let n = defs.len();
    if n == 0 {
        return Err(TilesetError::EmptyCatalog);
    }
    if n >= 0x10000000 {
        return Err(TilesetError::TooManyTiles);
    }
    for k in 0..n
        invariant
            n == defs@.len(),
            1 <= defs@.len() < 0x10000000,
            forall|l: int| 0 <= l < k ==> (#[trigger] defs@[l]).weight >= 1,
    {
        if defs[k].weight == 0 {
            return Err(TilesetError::BadWeight);
        }
    }
    for k in 0..n
        invariant
            n == defs@.len(),
            1 <= defs@.len() < 0x10000000,
            forall|l: int| 0 <= l < defs@.len() ==> (#[trigger] defs@[l]).weight >= 1,
            forall|l: int| 0 <= l < k ==> (#[trigger] defs@[l]).tile.bitmap@.len() == 16,
    {
        if defs[k].tile.bitmap.len() != 16 {
            return Err(TilesetError::BadPatternSize);
        }
    }
    for k in 0..n
        invariant
            n == defs@.len(),
            1 <= defs@.len() < 0x10000000,
            forall|l: int| 0 <= l < defs@.len() ==> (#[trigger] defs@[l]).weight >= 1,
            forall|l: int| 0 <= l < defs@.len() ==> (#[trigger] defs@[l]).tile.bitmap@.len() == 16,
            forall|a: int, b: int|
                0 <= a < k && 0 <= b < a ==> (#[trigger] defs@[a]).name@ != (#[trigger] defs@[b]).name@,
    {
        for l in 0..k
            invariant
                n == defs@.len(),
                1 <= defs@.len() < 0x10000000,
                forall|m: int| 0 <= m < defs@.len() ==> (#[trigger] defs@[m]).weight >= 1,
                forall|m: int| 0 <= m < defs@.len() ==> (#[trigger] defs@[m]).tile.bitmap@.len() == 16,
                k < n,
                forall|a: int, b: int|
                    0 <= a < k && 0 <= b < a ==> (#[trigger] defs@[a]).name@ != (
                    #[trigger] defs@[b]).name@,
                forall|b: int| 0 <= b < l ==> (#[trigger] defs@[b]).name@ != defs@[k as int].name@,
        {
            if defs[k].name.eq(&defs[l].name) {
                proof {
                    assert(defs@[k as int].name@ == defs@[l as int].name@ && k != l);
                }
                return Err(TilesetError::DuplicateTileName);
            }
        }
    }
    proof {
        assert forall|a: int, b: int|
            0 <= a < defs@.len() && 0 <= b < defs@.len() && a != b implies (
        #[trigger] defs@[a]).name@ != (#[trigger] defs@[b]).name@ by {
            if b < a {
                assert(defs@[a].name@ != defs@[b].name@);
            } else {
                assert(defs@[b].name@ != defs@[a].name@);
            }
        }
        assert(catalog_ok(defs@));
    }
    let n_rules = rules.len();
    for k in 0..n_rules
        invariant
            n_rules == rules@.len(),
            catalog_ok(defs@),
            forall|l: int|
                0 <= l < k ==> (#[trigger] rules@[l]).left_rotation < 4 && rules@[l].right_rotation
                    < 4,
    {
        if rules[k].left_rotation >= 4 || rules[k].right_rotation >= 4 {
            return Err(TilesetError::BadRotation);
        }
    }
    let mut ridx: Vec<(usize, usize)> = Vec::new();
    for k in 0..n_rules
        invariant
            n_rules == rules@.len(),
            n == defs@.len(),
            catalog_ok(defs@),
            forall|l: int|
                0 <= l < rules@.len() ==> (#[trigger] rules@[l]).left_rotation < 4
                    && rules@[l].right_rotation < 4,
            ridx@.len() == k,
            forall|m: int|
                0 <= m < k ==> (#[trigger] ridx@[m]).0 == find_name(defs@, rules@[m].left@)
                    && ridx@[m].1 == find_name(defs@, rules@[m].right@) && ridx@[m].0 < defs@.len()
                    && ridx@[m].1 < defs@.len(),
    {
        let a = match find_name_ex(defs, &rules[k].left) {
            Some(a) => a,
            None => {
                proof {
                    assert(find_name(defs@, rules@[k as int].left@) < 0);
                }
                return Err(TilesetError::UnknownTileName);
            },
        };
        let b = match find_name_ex(defs, &rules[k].right) {
            Some(b) => b,
            None => {
                proof {
                    assert(find_name(defs@, rules@[k as int].right@) < 0);
                }
                return Err(TilesetError::UnknownTileName);
            },
        };
        ridx.push((a, b));
    }

    let mut tiles: Vec<BaseTile> = Vec::new();
    let mut tile_names: Vec<String> = Vec::new();
    let mut tile_weights: Vec<u32> = Vec::new();
    for k in 0..n
        invariant
            n == defs@.len(),
            tiles@.len() == k,
            tile_names@.len() == k,
            tile_weights@.len() == k,
            forall|l: int| 0 <= l < k ==> (#[trigger] tiles@[l]).bitmap@ == defs@[l].tile.bitmap@,
            forall|l: int| 0 <= l < k ==> (#[trigger] tile_names@[l])@ == defs@[l].name@,
            forall|l: int| 0 <= l < k ==> #[trigger] tile_weights@[l] == defs@[l].weight,
    {
        let d = &defs[k];
        tiles.push(copy_tile(&d.tile));
        tile_names.push(d.name.clone());
        tile_weights.push(d.weight);
    }

    let n_ids = n * 4;
    let mut table: Vec<Vec<Vec<bool>>> = Vec::new();
    for i in 0..n_ids
        invariant
            n_ids == defs@.len() * 4,
            1 <= defs@.len() < 0x10000000,
            n == defs@.len(),
            n_rules == rules@.len(),
            ridx@.len() == rules@.len(),
            forall|m: int|
                0 <= m < rules@.len() ==> (#[trigger] rules@[m]).left_rotation < 4
                    && rules@[m].right_rotation < 4,
            forall|m: int|
                0 <= m < ridx@.len() ==> (#[trigger] ridx@[m]).0 == find_name(
                    defs@,
                    rules@[m].left@,
                ) && ridx@[m].1 == find_name(defs@, rules@[m].right@) && ridx@[m].0 < defs@.len()
                    && ridx@[m].1 < defs@.len(),
            table@.len() == i,
            forall|a: int| 0 <= a < i ==> (#[trigger] table@[a])@.len() == 4,
            forall|a: int, s: int|
                0 <= a < i && 0 <= s < 4 ==> (#[trigger] table@[a]@[s])@.len() == n_ids,
            forall|a: int, s: int, j: int|
                0 <= a < i && 0 <= s < 4 && 0 <= j < n_ids ==> #[trigger] table@[a]@[s]@[j]
                    == decl_allows(defs@, rules@, a, s, j),
    {
        let mut row: Vec<Vec<bool>> = Vec::new();
        for s in 0..4usize
            invariant
                n_ids == defs@.len() * 4,
                1 <= defs@.len() < 0x10000000,
                n == defs@.len(),
                n_rules == rules@.len(),
                ridx@.len() == rules@.len(),
                forall|m: int|
                    0 <= m < rules@.len() ==> (#[trigger] rules@[m]).left_rotation < 4
                        && rules@[m].right_rotation < 4,
                forall|m: int|
                    0 <= m < ridx@.len() ==> (#[trigger] ridx@[m]).0 == find_name(
                        defs@,
                        rules@[m].left@,
                    ) && ridx@[m].1 == find_name(defs@, rules@[m].right@) && ridx@[m].0
                        < defs@.len() && ridx@[m].1 < defs@.len(),
                i < n_ids,
                row@.len() == s,
                forall|b: int| 0 <= b < s ==> (#[trigger] row@[b])@.len() == n_ids,
                forall|b: int, j: int|
                    0 <= b < s && 0 <= j < n_ids ==> #[trigger] row@[b]@[j] == decl_allows(
                        defs@,
                        rules@,
                        i as int,
                        b,
                        j,
                    ),
        {
            let mut col: Vec<bool> = Vec::new();
            for j in 0..n_ids
                invariant
                    n_ids == defs@.len() * 4,
                    1 <= defs@.len() < 0x10000000,
                    n == defs@.len(),
                    n_rules == rules@.len(),
                    ridx@.len() == rules@.len(),
                    forall|m: int|
                        0 <= m < rules@.len() ==> (#[trigger] rules@[m]).left_rotation < 4
                            && rules@[m].right_rotation < 4,
                    forall|m: int|
                        0 <= m < ridx@.len() ==> (#[trigger] ridx@[m]).0 == find_name(
                            defs@,
                            rules@[m].left@,
                        ) && ridx@[m].1 == find_name(defs@, rules@[m].right@) && ridx@[m].0
                            < defs@.len() && ridx@[m].1 < defs@.len(),
                    i < n_ids,
                    s < 4,
                    col@.len() == j,
                    forall|c: int|
                        0 <= c < j ==> #[trigger] col@[c] == decl_allows(
                            defs@,
                            rules@,
                            i as int,
                            s as int,
                            c,
                        ),
            {
                let b = decl_entry(defs, rules, &ridx, i, s, j);
                col.push(b);
            }
            row.push(col);
        }
        table.push(row);
    }

    let t = Tileset { tiles, tile_names, allowed_neighbors: table, tile_weights };
    proof {
        assert(catalog_ok(defs@));
        assert forall|k: int|
            0 <= k < rules@.len() implies find_name(defs@, (#[trigger] rules@[k]).left@) >= 0
            && find_name(defs@, rules@[k].right@) >= 0 by {
            assert(ridx@[k].0 == find_name(defs@, rules@[k].left@));
            assert(ridx@[k].1 == find_name(defs@, rules@[k].right@));
        }
        assert(rules_ok(defs@, rules@));
        assert(build_tileset_error(defs@, rules@) is None);
        assert(t.wf());
        assert forall|i: int, s: int, j: int|
            0 <= i < num_ids(t) && 0 <= s < 4 && 0 <= j < num_ids(t) implies #[trigger] table_at(
            t,
            i,
            s,
            j,
        ) == table_at(t, j, opp_side(s), i) by {
            lemma_decl_allows_symmetric(defs@, rules@, i, s, j);
        }
    }
    Ok(t)
}

} // verus!
