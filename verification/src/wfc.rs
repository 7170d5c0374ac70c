use vstd::prelude::*;

use crate::bitmap::Bitmap;
use crate::rng::{rng_below, rng_from_seed};
use crate::types::{num_ids, opp_side, table_at, table_symmetric, Bit, Tile, Tileset, TILE_SIZE};

verus! {

/// How many entries of `s` are true.
pub open spec fn count_true(s: Seq<bool>) -> nat
    decreases s.len(),
{
    if s.len() == 0 {
        0
    } else {
        count_true(s.drop_last()) + if s.last() {
            1nat
        } else {
            0nat
        }
    }
}

pub proof fn lemma_count_true_le_len(s: Seq<bool>)
    ensures
        count_true(s) <= s.len(),
    decreases s.len(),
{
    if s.len() > 0 {
        lemma_count_true_le_len(s.drop_last());
    }
}

/// Setting a false entry to true raises the count by one; setting a true
/// entry leaves it unchanged.
pub proof fn lemma_count_true_update(s: Seq<bool>, k: int)
    requires
        0 <= k < s.len(),
    ensures
        count_true(s.update(k, true)) == count_true(s) + if s[k] {
            0nat
        } else {
            1nat
        },
    decreases s.len(),
{
    if k == s.len() - 1 {
        assert(s.update(k, true).drop_last() =~= s.drop_last());
        assert(s.update(k, true).last());
    } else {
        lemma_count_true_update(s.drop_last(), k);
        assert(s.update(k, true).drop_last() =~= s.drop_last().update(k, true));
        assert(s.update(k, true).last() == s.last());
    }
}

/// A sequence with no true entry counts zero, and conversely.
pub proof fn lemma_count_true_zero(s: Seq<bool>)
    ensures
        (count_true(s) == 0) <==> (forall|k: int| 0 <= k < s.len() ==> !s[k]),
    decreases s.len(),
{
    if s.len() > 0 {
        lemma_count_true_zero(s.drop_last());
        if count_true(s) == 0 {
            assert forall|k: int| 0 <= k < s.len() implies !s[k] by {
                if k < s.len() - 1 {
                    assert(s.drop_last()[k] == s[k]);
                }
            }
        }
    }
}

/// One cell of the wave: either collapsed to a single tile identity, or a
/// superposition recorded as one admissibility flag per identity.
#[derive(Debug)]
pub enum WaveTile {
    Observed(usize),
    Unobserved(Vec<bool>),
}

impl WaveTile {
    pub open spec fn wf(self, n_ids: int) -> bool {
        match self {
            WaveTile::Observed(i) => i < n_ids,
            WaveTile::Unobserved(b) => b@.len() == n_ids,
        }
    }

    /// Whether identity `i` is still admissible in this cell.
    pub open spec fn admits(self, i: int) -> bool {
        match self {
            WaveTile::Observed(k) => i == k,
            WaveTile::Unobserved(b) => 0 <= i < b@.len() && b@[i],
        }
    }

    /// The count a collapsed cell reports, so that it is never selected by
    /// the entropy scan.
    pub open spec fn spec_option_count(self) -> nat {
        match self {
            WaveTile::Observed(_) => usize::MAX as nat,
            WaveTile::Unobserved(b) => count_true(b@),
        }
    }

    /// Number of admissible identities; a collapsed cell reports the maximal
    /// count so that it is never selected again.
    pub fn num_possible_options(&self) -> (r: usize)
        ensures
            r == self.spec_option_count(),
    {
        match self {
            WaveTile::Observed(_) => usize::MAX,
            WaveTile::Unobserved(possibilities) => {
                let n = possibilities.len();
                let mut count: usize = 0;
                for k in 0..n
                    invariant
                        n == possibilities@.len(),
                        count == count_true(possibilities@.subrange(0, k as int)),
                        count <= k,
                {
                    proof {
                        assert(possibilities@.subrange(0, k + 1).drop_last() =~= possibilities@
                            .subrange(0, k as int));
                        assert(possibilities@.subrange(0, k + 1).last() == possibilities@[k as int]);
                    }
                    if possibilities[k] {
                        count = count + 1;
                    }
                }
                proof {
                    assert(possibilities@.subrange(0, possibilities@.len() as int) =~= possibilities@);
                }
                count
            },
        }
    }

    /// The admissible identities, in ascending order.
    pub fn possible_options(&self) -> (r: Vec<usize>)
        ensures
            forall|m: int| 0 <= m < r@.len() ==> self.admits(#[trigger] r@[m] as int),
            forall|i: int| self.admits(i) ==> exists|m: int| 0 <= m < r@.len() && r@[m] == i,
            forall|m: int, l: int| 0 <= m < l < r@.len() ==> r@[m] < r@[l],
            r@.len() == (match self {
                WaveTile::Observed(_) => 1nat,
                WaveTile::Unobserved(b) => count_true(b@),
            }),
    {
        match self {
            WaveTile::Observed(i) => {
                let r = vec![*i];
                assert(r@[0] == *i);
                r
            },
            WaveTile::Unobserved(possibilities) => {
                let n = possibilities.len();
                let mut r: Vec<usize> = Vec::new();
                for k in 0..n
                    invariant
                        n == possibilities@.len(),
                        forall|m: int|
                            0 <= m < r@.len() ==> #[trigger] r@[m] < k && possibilities@[r@[m] as int],
                        forall|i: int|
                            0 <= i < k && possibilities@[i] ==> exists|m: int|
                                0 <= m < r@.len() && r@[m] == i,
                        forall|m: int, l: int| 0 <= m < l < r@.len() ==> r@[m] < r@[l],
                        r@.len() == count_true(possibilities@.subrange(0, k as int)),
                {
                    let ghost r0 = r@;
                    proof {
                        assert(possibilities@.subrange(0, k + 1).drop_last() =~= possibilities@
                            .subrange(0, k as int));
                        assert(possibilities@.subrange(0, k + 1).last() == possibilities@[k as int]);
                    }
                    if possibilities[k] {
                        r.push(k);
                        assert(r@[r@.len() - 1] == k);
                    }
                    proof {
                        assert forall|i: int|
                            0 <= i < k + 1 && possibilities@[i] implies exists|m: int|
                            0 <= m < r@.len() && r@[m] == i by {
                            if i == k {
                                assert(r@[r@.len() - 1] == k);
                            } else {
                                let m = choose|m: int| 0 <= m < r0.len() && r0[m] == i;
                                assert(r@[m] == i);
                            }
                        }
                    }
                }
                proof {
                    assert(possibilities@.subrange(0, possibilities@.len() as int) =~= possibilities@);
                    if count_true(possibilities@) != 0 {
                        lemma_count_true_zero(possibilities@);
                    }
                }
                r
            },
        }
    }
}

/// The mutable solver state: one cell per grid position, row-major.
#[derive(Debug)]
pub struct Wave {
    pub tiles: Vec<WaveTile>,
    pub width: usize,
    pub height: usize,
}

impl Wave {
    pub open spec fn wf(self, n_ids: int) -> bool {
        &&& self.tiles@.len() == self.width * self.height
        &&& forall|k: int| 0 <= k < self.tiles@.len() ==> (#[trigger] self.tiles@[k]).wf(n_ids)
    }

    /// The cell at column `x`, row `y`.
    pub open spec fn cell(self, x: int, y: int) -> WaveTile {
        self.tiles@[y * self.width + x]
    }

    pub open spec fn in_grid(self, x: int, y: int) -> bool {
        0 <= x < self.width && 0 <= y < self.height
    }

    pub open spec fn fully_observed(self) -> bool {
        forall|k: int| 0 <= k < self.tiles@.len() ==> (#[trigger] self.tiles@[k]) is Observed
    }

    /// A borrow of the cell at `(x, y)`.
    pub fn get(&self, x: usize, y: usize) -> (r: &WaveTile)
        requires
            x < self.width,
            y < self.height,
            self.tiles@.len() == self.width * self.height,
        ensures
            *r == self.cell(x as int, y as int),
    {
        let n = self.tiles.len();
        proof {
            lemma_grid_index(x as int, y as int, self.width as int, self.height as int);
        }
        &self.tiles[y * self.width + x]
    }
}

/// A grid coordinate maps to a flat index inside the grid's cell vector.
pub proof fn lemma_grid_index(x: int, y: int, w: int, h: int)
    by (nonlinear_arith)
    requires
        0 <= x < w,
        0 <= y < h,
    ensures
        0 <= y * w + x < w * h,
        (y * w + x) / w == y,
        (y * w + x) % w == x,
{
}

/// How many cells of `s` are collapsed.
pub open spec fn count_observed(s: Seq<WaveTile>) -> nat
    decreases s.len(),
{
    if s.len() == 0 {
        0
    } else {
        count_observed(s.drop_last()) + if s.last() is Observed {
            1nat
        } else {
            0nat
        }
    }
}

pub proof fn lemma_count_observed_le_len(s: Seq<WaveTile>)
    ensures
        count_observed(s) <= s.len(),
    decreases s.len(),
{
    if s.len() > 0 {
        lemma_count_observed_le_len(s.drop_last());
    }
}

/// Two cell vectors with the same collapsed flags cell for cell have the
/// same collapsed count.
pub proof fn lemma_count_observed_congruent(s1: Seq<WaveTile>, s2: Seq<WaveTile>)
    requires
        s1.len() == s2.len(),
        forall|k: int| 0 <= k < s1.len() ==> ((#[trigger] s1[k]) is Observed <==> (#[trigger] s2[k]) is Observed),
    ensures
        count_observed(s1) == count_observed(s2),
    decreases s1.len(),
{
    if s1.len() > 0 {
        lemma_count_observed_congruent(s1.drop_last(), s2.drop_last());
    }
}

/// Collapsing one superposed cell raises the collapsed count by one.
pub proof fn lemma_count_observed_update(s: Seq<WaveTile>, k: int, t: WaveTile)
    requires
        0 <= k < s.len(),
        !(s[k] is Observed),
        t is Observed,
    ensures
        count_observed(s.update(k, t)) == count_observed(s) + 1,
    decreases s.len(),
{
    if k == s.len() - 1 {
        assert(s.update(k, t).drop_last() =~= s.drop_last());
    } else {
        lemma_count_observed_update(s.drop_last(), k, t);
        assert(s.update(k, t).drop_last() =~= s.drop_last().update(k, t));
    }
}

/// Column of the neighbor of `(x, y)` on side `s`: side 0 faces the cell
/// above, 1 the cell to the left, 2 below, 3 to the right.
pub open spec fn nb_x(x: int, s: int) -> int {
    if s == 1 {
        x - 1
    } else if s == 3 {
        x + 1
    } else {
        x
    }
}

/// Row of the neighbor of `(x, y)` on side `s`.
pub open spec fn nb_y(y: int, s: int) -> int {
    if s == 0 {
        y - 1
    } else if s == 2 {
        y + 1
    } else {
        y
    }
}

/// When the cell at `(x, y)` is collapsed, everything its neighbor on side
/// `s` still admits must be allowed against the collapsed identity.
pub open spec fn pair_ok(t: Tileset, w: Wave, x: int, y: int, s: int) -> bool {
    w.cell(x, y) is Observed ==> forall|j: int|
        #[trigger] w.cell(nb_x(x, s), nb_y(y, s)).admits(j) ==> table_at(
            t,
            w.cell(x, y)->Observed_0 as int,
            s,
            j,
        )
}

/// Every collapsed cell constrains all its in-grid neighbors.
pub open spec fn observed_consistent(t: Tileset, w: Wave) -> bool {
    forall|x: int, y: int, s: int|
        w.in_grid(x, y) && 0 <= s < 4 && w.in_grid(nb_x(x, s), nb_y(y, s)) ==> #[trigger] pair_ok(
            t,
            w,
            x,
            y,
            s,
        )
}

/// As `observed_consistent`, except that the pairs from the freshly forced
/// cell `(cx, cy)` to its still-superposed neighbors may not yet hold; a
/// propagation pass starting there restores them.
pub open spec fn consistent_except(t: Tileset, w: Wave, cx: int, cy: int) -> bool {
    forall|x: int, y: int, s: int|
        w.in_grid(x, y) && 0 <= s < 4 && w.in_grid(nb_x(x, s), nb_y(y, s)) ==> #[trigger] pair_ok(
            t,
            w,
            x,
            y,
            s,
        ) || (x == cx && y == cy && !(w.cell(nb_x(x, s), nb_y(y, s)) is Observed))
}

/// Whether some identity of `opts` allows `j` on side `s`.
pub open spec fn opts_allow(t: Tileset, opts: Seq<usize>, s: int, j: int) -> bool {
    exists|m: int| 0 <= m < opts.len() && table_at(t, #[trigger] opts[m] as int, s, j)
}

/// One adjacency-table probe.
fn table_lookup(t: &Tileset, i: usize, s: usize, j: usize) -> (r: bool)
    requires
        t.wf(),
        i < num_ids(*t),
        s < 4,
        j < num_ids(*t),
    ensures
        r == table_at(*t, i as int, s as int, j as int),
{
    t.allowed_neighbors[i][s][j]
}

/// Whether any listed identity allows `j` on side `s`.
fn any_opt_allows(t: &Tileset, opts: &Vec<usize>, s: usize, j: usize) -> (r: bool)
    requires
        t.wf(),
        forall|m: int| 0 <= m < opts@.len() ==> #[trigger] opts@[m] < num_ids(*t),
        s < 4,
        j < num_ids(*t),
    ensures
        r == opts_allow(*t, opts@, s as int, j as int),
{
    let n = opts.len();
    for m in 0..n
        invariant
            n == opts@.len(),
            t.wf(),
            forall|l: int| 0 <= l < opts@.len() ==> #[trigger] opts@[l] < num_ids(*t),
            s < 4,
            j < num_ids(*t),
            forall|l: int| 0 <= l < m ==> !table_at(*t, #[trigger] opts@[l] as int, s as int, j as int),
    {
        if table_lookup(t, opts[m], s, j) {
            return true;
        }
    }
    false
}

/// Remove from the cell at `(cx, cy)` every identity that no listed center
/// identity allows on side `side`. A collapsed cell is left untouched.
/// Returns whether anything was removed.
fn prune_one(t: &Tileset, wave: &mut Wave, opts: &Vec<usize>, cx: usize, cy: usize, side: usize) -> (changed:
    bool)
    requires
        t.wf(),
        old(wave).wf(num_ids(*t)),
        cx < old(wave).width,
        cy < old(wave).height,
        side < 4,
        forall|m: int| 0 <= m < opts@.len() ==> #[trigger] opts@[m] < num_ids(*t),
    ensures
        final(wave).width == old(wave).width,
        final(wave).height == old(wave).height,
        final(wave).wf(num_ids(*t)),
        final(wave).tiles@.len() == old(wave).tiles@.len(),
        forall|k: int|
            0 <= k < old(wave).tiles@.len() && k != cy * old(wave).width + cx
                ==> #[trigger] final(wave).tiles@[k] == old(wave).tiles@[k],
        old(wave).tiles@[cy * old(wave).width + cx] is Observed ==> *final(wave) == *old(wave)
            && !changed,
        old(wave).tiles@[cy * old(wave).width + cx] is Unobserved ==> {
            let cidx = cy * old(wave).width + cx;
            let oldcell = old(wave).tiles@[cidx];
            let newcell = final(wave).tiles@[cidx];
            &&& newcell is Unobserved
            &&& newcell->Unobserved_0@.len() == oldcell->Unobserved_0@.len()
            &&& forall|j: int|
                0 <= j < newcell->Unobserved_0@.len() ==> #[trigger] newcell->Unobserved_0@[j] == (
                oldcell->Unobserved_0@[j] && opts_allow(*t, opts@, side as int, j))
            &&& changed == exists|j: int|
                0 <= j < oldcell->Unobserved_0@.len() && #[trigger] oldcell->Unobserved_0@[j]
                    && !opts_allow(*t, opts@, side as int, j)
        },
{
    let n_cells = wave.tiles.len();
    proof {
        lemma_grid_index(cx as int, cy as int, wave.width as int, wave.height as int);
    }
    let cidx = cy * wave.width + cx;
    let (newbits, changed, was_unobserved) = match &wave.tiles[cidx] {
        WaveTile::Observed(_) => (Vec::new(), false, false),
        WaveTile::Unobserved(bits) => {
            let nb = bits.len();
            let mut newbits: Vec<bool> = Vec::new();
            let mut changed = false;
            for j in 0..nb
                invariant
                    t.wf(),
                    forall|m: int| 0 <= m < opts@.len() ==> #[trigger] opts@[m] < num_ids(*t),
                    side < 4,
                    nb == bits@.len(),
                    nb == num_ids(*t),
                    newbits@.len() == j,
                    forall|l: int|
                        0 <= l < j ==> #[trigger] newbits@[l] == (bits@[l] && opts_allow(
                            *t,
                            opts@,
                            side as int,
                            l,
                        )),
                    changed == exists|l: int|
                        0 <= l < j && #[trigger] bits@[l] && !opts_allow(*t, opts@, side as int, l),
            {
                let keep = if bits[j] {
                    let al = any_opt_allows(t, opts, side, j);
                    if !al {
                        changed = true;
                        assert(bits@[j as int] && !opts_allow(*t, opts@, side as int, j as int));
                    }
                    al
                } else {
                    false
                };
                newbits.push(keep);
            }
            (newbits, changed, true)
        },
    };
    if was_unobserved && changed {
        wave.tiles.set(cidx, WaveTile::Unobserved(newbits));
    }
    proof {
        if was_unobserved && !changed {
            let oldcell = old(wave).tiles@[cidx as int];
            assert forall|j: int|
                0 <= j < oldcell->Unobserved_0@.len() implies #[trigger] oldcell->Unobserved_0@[j]
                == (oldcell->Unobserved_0@[j] && opts_allow(*t, opts@, side as int, j)) by {}
        }
    }
    changed
}

/// `pair_ok` depends only on the two cells it mentions.
proof fn lemma_pair_ok_transfer(t: Tileset, w1: Wave, w2: Wave, x: int, y: int, s: int)
    requires
        w1.cell(x, y) == w2.cell(x, y),
        w1.cell(nb_x(x, s), nb_y(y, s)) == w2.cell(nb_x(x, s), nb_y(y, s)),
        pair_ok(t, w1, x, y, s),
    ensures
        pair_ok(t, w2, x, y, s),
{
}

/// When the center cell is collapsed, whatever its option list allows is
/// allowed by the collapsed identity itself.
proof fn lemma_opts_of_observed(t: Tileset, center: WaveTile, opts: Seq<usize>, s: int, j: int)
    requires
        center is Observed,
        forall|m: int| 0 <= m < opts.len() ==> center.admits(#[trigger] opts[m] as int),
        opts_allow(t, opts, s, j),
    ensures
        table_at(t, center->Observed_0 as int, s, j),
{
    let m = choose|m: int| 0 <= m < opts.len() && table_at(t, #[trigger] opts[m] as int, s, j);
    assert(center.admits(opts[m] as int));
}

/// Pruning one superposed cell can only shrink it, which preserves the
/// partially-established consistency of a propagation pass.
proof fn lemma_prune_preserves(
    t: Tileset,
    w_old: Wave,
    w_new: Wave,
    sx: int,
    sy: int,
    start_open: bool,
    cx: int,
    cy: int,
)
    requires
        w_new.width == w_old.width,
        w_new.height == w_old.height,
        w_new.tiles@.len() == w_old.tiles@.len(),
        w_old.tiles@.len() == w_old.width * w_old.height,
        0 <= cx < w_old.width,
        0 <= cy < w_old.height,
        forall|k: int|
            0 <= k < w_old.tiles@.len() && k != cy * w_old.width + cx
                ==> #[trigger] w_new.tiles@[k] == w_old.tiles@[k],
        !(w_old.tiles@[cy * w_old.width + cx] is Observed),
        !(w_new.tiles@[cy * w_old.width + cx] is Observed),
        forall|i: int|
            #[trigger] w_new.tiles@[cy * w_old.width + cx].admits(i) ==> w_old.tiles@[cy
                * w_old.width + cx].admits(i),
        forall|x: int, y: int, s: int|
            w_old.in_grid(x, y) && 0 <= s < 4 && w_old.in_grid(nb_x(x, s), nb_y(y, s))
                ==> #[trigger] pair_ok(t, w_old, x, y, s) || (x == sx && y == sy && start_open && !(
            w_old.cell(nb_x(x, s), nb_y(y, s)) is Observed)),
    ensures
        forall|x: int, y: int, s: int|
            w_new.in_grid(x, y) && 0 <= s < 4 && w_new.in_grid(nb_x(x, s), nb_y(y, s))
                ==> #[trigger] pair_ok(t, w_new, x, y, s) || (x == sx && y == sy && start_open && !(
            w_new.cell(nb_x(x, s), nb_y(y, s)) is Observed)),
{
    let w = w_old.width as int;
    let h = w_old.height as int;
    let cidx = cy * w + cx;
    assert forall|x: int, y: int, s: int|
        w_new.in_grid(x, y) && 0 <= s < 4 && w_new.in_grid(nb_x(x, s), nb_y(y, s)) implies pair_ok(
        t,
        w_new,
        x,
        y,
        s,
    ) || (x == sx && y == sy && start_open && !(w_new.cell(nb_x(x, s), nb_y(y, s)) is Observed)) by {
        let nx = nb_x(x, s);
        let ny = nb_y(y, s);
        lemma_grid_index(x, y, w, h);
        lemma_grid_index(nx, ny, w, h);
        let idx = y * w + x;
        let nidx = ny * w + nx;
        if idx == cidx {
            assert(!(w_new.cell(x, y) is Observed));
            assert(pair_ok(t, w_new, x, y, s));
        } else {
            assert(w_new.cell(x, y) == w_old.cell(x, y));
            if nidx == cidx {
                assert(!(w_new.cell(nx, ny) is Observed));
                if pair_ok(t, w_old, x, y, s) && w_new.cell(x, y) is Observed {
                    assert forall|j: int| #[trigger] w_new.cell(nx, ny).admits(j) implies table_at(
                        t,
                        w_new.cell(x, y)->Observed_0 as int,
                        s,
                        j,
                    ) by {
                        assert(w_new.tiles@[cidx].admits(j));
                        assert(w_old.cell(nx, ny).admits(j));
                    }
                }
            } else {
                assert(w_new.cell(nx, ny) == w_old.cell(nx, ny));
                if pair_ok(t, w_old, x, y, s) {
                    lemma_pair_ok_transfer(t, w_old, w_new, x, y, s);
                }
            }
        }
    }
}

/// Prune the neighbor of the popped cell `(x, y)` on side `side` against the
/// popped cell's admissible options, and enqueue it when it shrank and has
/// not been visited.
#[verifier::rlimit(30)]
fn process_child(
    t: &Tileset,
    wave: &mut Wave,
    opts: &Vec<usize>,
    x: usize,
    y: usize,
    cx: usize,
    cy: usize,
    side: usize,
    visited: &Vec<bool>,
    queue: &mut Vec<(usize, usize)>,
    Ghost(sx): Ghost<int>,
    Ghost(sy): Ghost<int>,
)
    requires
        t.wf(),
        old(wave).wf(num_ids(*t)),
        x < old(wave).width,
        y < old(wave).height,
        cx < old(wave).width,
        cy < old(wave).height,
        side < 4,
        !(cx == x && cy == y),
        cx == nb_x(x as int, side as int),
        cy == nb_y(y as int, side as int),
        visited@.len() == old(wave).tiles@.len(),
        forall|m: int| 0 <= m < opts@.len() ==> #[trigger] opts@[m] < num_ids(*t),
        forall|m: int| 0 <= m < opts@.len() ==> old(wave).cell(x as int, y as int).admits(#[trigger] opts@[m] as int),
        forall|m: int| 0 <= m < old(queue)@.len() ==> (#[trigger] old(queue)@[m]).0 < old(wave).width && old(queue)@[m].1 < old(wave).height,
        consistent_except(*t, *old(wave), sx, sy),
    ensures
        final(wave).width == old(wave).width,
        final(wave).height == old(wave).height,
        final(wave).wf(num_ids(*t)),
        final(wave).tiles@.len() == old(wave).tiles@.len(),
        forall|k: int|
            0 <= k < old(wave).tiles@.len() && k != cy * old(wave).width + cx
                ==> #[trigger] final(wave).tiles@[k] == old(wave).tiles@[k],
        forall|k: int|
            0 <= k < old(wave).tiles@.len() ==> (((#[trigger] final(wave).tiles@[k]) is Observed
                <==> old(wave).tiles@[k] is Observed) && (old(wave).tiles@[k] is Observed
                ==> final(wave).tiles@[k] == old(wave).tiles@[k])),
        forall|k: int, i: int|
            0 <= k < old(wave).tiles@.len() ==> ((#[trigger] final(wave).tiles@[k].admits(i))
                ==> old(wave).tiles@[k].admits(i)),
        final(wave).cell(x as int, y as int) == old(wave).cell(x as int, y as int),
        final(queue)@ == old(queue)@ || final(queue)@ == old(queue)@.push((cx, cy)),
        forall|m: int|
            0 <= m < final(queue)@.len() ==> (#[trigger] final(queue)@[m]).0 < old(wave).width
                && final(queue)@[m].1 < old(wave).height,
        consistent_except(*t, *final(wave), sx, sy),
        observed_consistent(*t, *old(wave)) ==> observed_consistent(*t, *final(wave)),
        old(wave).cell(x as int, y as int) is Observed ==> pair_ok(
            *t,
            *final(wave),
            x as int,
            y as int,
            side as int,
        ),
{
    let n_cells = wave.tiles.len();
    proof {
        lemma_grid_index(cx as int, cy as int, wave.width as int, wave.height as int);
        lemma_grid_index(x as int, y as int, wave.width as int, wave.height as int);
    }
    let cidx = cy * wave.width + cx;
    let ghost wave_b = *wave;
    let changed = prune_one(t, wave, opts, cx, cy, side);
    proof {
        let w = wave_b.width as int;
        let h = wave_b.height as int;
        let cidxg = cy * w + cx;
        if wave_b.tiles@[cidxg] is Observed {
            assert(*wave == wave_b);
        } else {
            lemma_prune_preserves(*t, wave_b, *wave, sx, sy, true, cx as int, cy as int);
            if observed_consistent(*t, wave_b) {
                lemma_prune_preserves(*t, wave_b, *wave, sx, sy, false, cx as int, cy as int);
            }
        }
        // positive fact: the pruned neighbor now only admits what the
        // collapsed center allows
        if wave_b.cell(x as int, y as int) is Observed {
            let center = wave_b.cell(x as int, y as int);
            if wave_b.tiles@[cidxg] is Observed {
                // collapsed neighbor of a collapsed center: already consistent
                assert(pair_ok(*t, *wave, x as int, y as int, side as int));
            } else {
                assert forall|j: int| #[trigger] wave.cell(cx as int, cy as int).admits(j) implies table_at(
                    *t,
                    center->Observed_0 as int,
                    side as int,
                    j,
                ) by {
                    assert(wave.tiles@[cidxg]->Unobserved_0@[j]);
                    lemma_opts_of_observed(*t, center, opts@, side as int, j);
                }
                assert(pair_ok(*t, *wave, x as int, y as int, side as int));
            }
        }
    }
    if changed {
        if !visited[cidx] {
            queue.push((cx, cy));
        }
    }
}

/// If every cell is collapsed, the collapsed count is the length.
pub proof fn lemma_count_observed_full(s: Seq<WaveTile>)
    requires
        count_observed(s) == s.len(),
    ensures
        forall|k: int| 0 <= k < s.len() ==> (#[trigger] s[k]) is Observed,
    decreases s.len(),
{
    if s.len() > 0 {
        lemma_count_observed_le_len(s.drop_last());
        lemma_count_observed_full(s.drop_last());
        assert forall|k: int| 0 <= k < s.len() implies (#[trigger] s[k]) is Observed by {
            if k < s.len() - 1 {
                assert(s.drop_last()[k] == s[k]);
            }
        }
    }
}


/// Constraint propagation: breadth-first from `(sx, sy)`, pruning each
/// visited cell's neighbors against the visited cell's admissible options
/// and enqueueing every neighbor whose superposition shrank. Restores the
/// invariant that every collapsed cell constrains all its neighbors.
fn propagate(t: &Tileset, wave: &mut Wave, sx: usize, sy: usize)
    requires
        t.wf(),
        old(wave).wf(num_ids(*t)),
        sx < old(wave).width,
        sy < old(wave).height,
        consistent_except(*t, *old(wave), sx as int, sy as int),
    ensures
        final(wave).width == old(wave).width,
        final(wave).height == old(wave).height,
        final(wave).wf(num_ids(*t)),
        final(wave).tiles@.len() == old(wave).tiles@.len(),
        forall|k: int|
            0 <= k < old(wave).tiles@.len() ==> (((#[trigger] final(wave).tiles@[k]) is Observed
                <==> old(wave).tiles@[k] is Observed) && (old(wave).tiles@[k] is Observed
                ==> final(wave).tiles@[k] == old(wave).tiles@[k])),
        forall|k: int, i: int|
            0 <= k < old(wave).tiles@.len() ==> ((#[trigger] final(wave).tiles@[k].admits(i))
                ==> old(wave).tiles@[k].admits(i)),
        observed_consistent(*t, *final(wave)),
{
    let w = wave.width;
    let h = wave.height;
    let n_cells = wave.tiles.len();
    let mut visited: Vec<bool> = Vec::new();
    for k in 0..n_cells
        invariant
            visited@.len() == k,
            forall|l: int| 0 <= l < k ==> !(#[trigger] visited@[l]),
    {
        visited.push(false);
    }
    proof {
        lemma_grid_index(sx as int, sy as int, w as int, h as int);
    }
    let sidx = sy * w + sx;
    let mut queue: Vec<(usize, usize)> = Vec::new();
    queue.push((sx, sy));
    proof {
        assert(queue@[0] == (sx, sy));
    }
    let mut head: usize = 0;
    while head < queue.len()
        invariant
            t.wf(),
            wave.width == w,
            wave.height == h,
            w == old(wave).width,
            h == old(wave).height,
            wave.wf(num_ids(*t)),
            wave.tiles@.len() == n_cells,
            n_cells == w * h,
            visited@.len() == n_cells,
            sidx == sy * w + sx,
            sx < w,
            sy < h,
            head <= queue@.len(),
            forall|m: int|
                0 <= m < queue@.len() ==> (#[trigger] queue@[m]).0 < w && queue@[m].1 < h,
            forall|k: int|
                0 <= k < n_cells ==> (((#[trigger] wave.tiles@[k]) is Observed <==> old(
                    wave,
                ).tiles@[k] is Observed) && (old(wave).tiles@[k] is Observed ==> wave.tiles@[k]
                    == old(wave).tiles@[k])),
            forall|k: int, i: int|
                0 <= k < n_cells ==> ((#[trigger] wave.tiles@[k].admits(i)) ==> old(
                    wave,
                ).tiles@[k].admits(i)),
            consistent_except(*t, *wave, sx as int, sy as int),
            visited@[sidx as int] ==> observed_consistent(*t, *wave),
            visited@[sidx as int] || exists|m: int|
                head <= m < queue@.len() && queue@[m] == (sx, sy),
        decreases visited@.len() as int - count_true(visited@) as int, queue@.len() as int - head as int,
    {
        proof {
            lemma_count_true_le_len(visited@);
        }
        let ghost queue0 = queue@;
        let ghost head0 = head as int;
        let (x, y) = queue[head];
        head = head + 1;
        proof {
            lemma_grid_index(x as int, y as int, w as int, h as int);
        }
        let idx = y * w + x;
        if visited[idx] {
            proof {
                lemma_grid_index(sx as int, sy as int, w as int, h as int);
                if !visited@[sidx as int] {
                    let m = choose|m: int|
                        head0 <= m < queue0.len() && queue0[m] == (sx, sy);
                    assert(queue0[head0] == (x, y));
                    assert(m != head0);
                    assert(head <= m < queue@.len() && queue@[m] == (sx, sy));
                }
            }
            continue;
        }
        let ghost visited0 = visited@;
        visited.set(idx, true);
        proof {
            lemma_count_true_update(visited0, idx as int);
            lemma_count_true_le_len(visited@);
        }
        let opts = {
            let c = wave.get(x, y);
            c.possible_options()
        };
        let ghost center = wave.cell(x as int, y as int);
        proof {
            assert forall|m: int| 0 <= m < opts@.len() implies #[trigger] opts@[m] < num_ids(*t) by {
                assert(center.admits(opts@[m] as int));
                assert(center.wf(num_ids(*t)));
            }
        }
        let ghost wave0 = *wave;
        if y > 0 {
            process_child(t, wave, &opts, x, y, x, y - 1, 0, &visited, &mut queue, Ghost(sx as int), Ghost(sy as int));
        }
        let ghost wave1 = *wave;
        if x > 0 {
            process_child(t, wave, &opts, x, y, x - 1, y, 1, &visited, &mut queue, Ghost(sx as int), Ghost(sy as int));
        }
        let ghost wave2 = *wave;
        if y + 1 < h {
            process_child(t, wave, &opts, x, y, x, y + 1, 2, &visited, &mut queue, Ghost(sx as int), Ghost(sy as int));
        }
        let ghost wave3 = *wave;
        if x + 1 < w {
            process_child(t, wave, &opts, x, y, x + 1, y, 3, &visited, &mut queue, Ghost(sx as int), Ghost(sy as int));
        }
        proof {
            let xi = x as int;
            let yi = y as int;
            let wi = w as int;
            let hi = h as int;
            lemma_grid_index(sx as int, sy as int, wi, hi);
            lemma_grid_index(xi, yi, wi, hi);
            assert((yi - 1) * wi == yi * wi - wi) by (nonlinear_arith);
            assert((yi + 1) * wi == yi * wi + wi) by (nonlinear_arith);
            // the popped cell's four sides are now consistent
            assert(wave.cell(xi, yi) == center);
            if center is Observed {
                if yi - 1 >= 0 {
                    lemma_grid_index(xi, yi - 1, wi, hi);
                    let c0 = (yi - 1) * wi + xi;
                    assert(pair_ok(*t, wave1, xi, yi, 0));
                    assert(wave2.cell(xi, yi - 1) == wave1.cell(xi, yi - 1)) by {
                        if xi - 1 >= 0 {
                            assert(c0 != yi * wi + (xi - 1));
                            assert(wave2.tiles@[c0] == wave1.tiles@[c0]);
                        }
                    }
                    assert(wave3.cell(xi, yi - 1) == wave2.cell(xi, yi - 1)) by {
                        if yi + 1 < hi {
                            assert(c0 != (yi + 1) * wi + xi);
                            assert(wave3.tiles@[c0] == wave2.tiles@[c0]);
                        }
                    }
                    assert(wave.cell(xi, yi - 1) == wave3.cell(xi, yi - 1)) by {
                        if xi + 1 < wi {
                            assert(c0 != yi * wi + (xi + 1));
                            assert(wave.tiles@[c0] == wave3.tiles@[c0]);
                        }
                    }
                    lemma_pair_ok_transfer(*t, wave1, *wave, xi, yi, 0);
                }
                if xi - 1 >= 0 {
                    lemma_grid_index(xi - 1, yi, wi, hi);
                    let c1 = yi * wi + (xi - 1);
                    assert(pair_ok(*t, wave2, xi, yi, 1));
                    assert(wave3.cell(xi - 1, yi) == wave2.cell(xi - 1, yi)) by {
                        if yi + 1 < hi {
                            assert(c1 != (yi + 1) * wi + xi);
                            assert(wave3.tiles@[c1] == wave2.tiles@[c1]);
                        }
                    }
                    assert(wave.cell(xi - 1, yi) == wave3.cell(xi - 1, yi)) by {
                        if xi + 1 < wi {
                            assert(c1 != yi * wi + (xi + 1));
                            assert(wave.tiles@[c1] == wave3.tiles@[c1]);
                        }
                    }
                    lemma_pair_ok_transfer(*t, wave2, *wave, xi, yi, 1);
                }
                if yi + 1 < h {
                    lemma_grid_index(xi, yi + 1, wi, hi);
                    let c2 = (yi + 1) * wi + xi;
                    assert(pair_ok(*t, wave3, xi, yi, 2));
                    assert(wave.cell(xi, yi + 1) == wave3.cell(xi, yi + 1)) by {
                        if xi + 1 < wi {
                            assert(c2 != yi * wi + (xi + 1));
                            assert(wave.tiles@[c2] == wave3.tiles@[c2]);
                        }
                    }
                    lemma_pair_ok_transfer(*t, wave3, *wave, xi, yi, 2);
                }
                if xi + 1 < w {
                    lemma_grid_index(xi + 1, yi, wi, hi);
                    assert(pair_ok(*t, *wave, xi, yi, 3));
                }
            }
            assert forall|xx: int, yy: int, ss: int|
                wave.in_grid(xx, yy) && 0 <= ss < 4 && wave.in_grid(nb_x(xx, ss), nb_y(yy, ss))
                    implies #[trigger] pair_ok(*t, *wave, xx, yy, ss) || (xx == sx && yy == sy
                && !(wave.cell(nb_x(xx, ss), nb_y(yy, ss)) is Observed)) by {}
            if visited@[sidx as int] {
                if idx == sidx {
                    // this pass just processed the start cell: every pair is
                    // consistent now
                    assert(x == sx && y == sy);
                    assert forall|xx: int, yy: int, ss: int|
                        wave.in_grid(xx, yy) && 0 <= ss < 4 && wave.in_grid(
                            nb_x(xx, ss),
                            nb_y(yy, ss),
                        ) implies #[trigger] pair_ok(*t, *wave, xx, yy, ss) by {
                        if xx == sx && yy == sy {
                            if wave.cell(xx, yy) is Observed {
                                if ss == 0 {
                                    assert(pair_ok(*t, *wave, xx, yy, 0));
                                } else if ss == 1 {
                                    assert(pair_ok(*t, *wave, xx, yy, 1));
                                } else if ss == 2 {
                                    assert(pair_ok(*t, *wave, xx, yy, 2));
                                } else {
                                    assert(pair_ok(*t, *wave, xx, yy, 3));
                                }
                            }
                        }
                    }
                    assert(observed_consistent(*t, *wave));
                } else {
                    assert(visited0[sidx as int]);
                    assert(observed_consistent(*t, wave0) ==> observed_consistent(*t, *wave));
                }
            }
            if !visited@[sidx as int] {
                assert(!visited0[sidx as int]);
                let m = choose|m: int| head0 <= m < queue0.len() && queue0[m] == (sx, sy);
                assert(queue0[head0] == (x, y));
                assert(m != head0);
                assert(queue0.len() <= queue@.len() && forall|l: int|
                    0 <= l < queue0.len() ==> #[trigger] queue@[l] == queue0[l]);
                assert(head <= m < queue@.len() && queue@[m] == (sx, sy));
            }
        }
    }
    proof {
        if !visited@[sidx as int] {
            let m = choose|m: int| head <= m < queue@.len() && queue@[m] == (sx, sy);
            assert(false);
        }
    }
}


/// A flat cell index decodes to in-grid coordinates.
pub proof fn lemma_index_grid(idx: int, w: int, h: int)
    by (nonlinear_arith)
    requires
        0 <= idx < w * h,
        0 < w,
    ensures
        0 <= idx % w < w,
        0 <= idx / w < h,
        (idx / w) * w + (idx % w) == idx,
{
}

/// Sum of the weights of the first `m` listed identities; the weight of an
/// identity is the weight configured for its base tile.
pub open spec fn cum_weight(t: Tileset, opts: Seq<usize>, m: int) -> int
    decreases m,
{
    if m <= 0 {
        0
    } else {
        cum_weight(t, opts, m - 1) + t.tile_weights@[opts[m - 1] as int / 4]
    }
}

/// Cumulative weights grow by exactly one candidate's weight per step and
/// each step adds at least one: the draws that select a candidate form an
/// interval of exactly its weight. This is the weight-proportionality of the
/// collapse draw: a uniform draw over the total weight selects candidate `m`
/// with probability proportional to its configured weight.
pub proof fn lemma_weight_proportionality(t: Tileset, opts: Seq<usize>, m: int)
    requires
        t.wf(),
        forall|l: int| 0 <= l < opts.len() ==> #[trigger] opts[l] < num_ids(t),
        0 <= m < opts.len(),
    ensures
        cum_weight(t, opts, m + 1) - cum_weight(t, opts, m) == t.tile_weights@[opts[m] as int / 4],
        t.tile_weights@[opts[m] as int / 4] >= 1,
        0 <= cum_weight(t, opts, m),
        cum_weight(t, opts, m + 1) <= cum_weight(t, opts, opts.len() as int),
{
    lemma_cum_weight_mono(t, opts, 0, m);
    lemma_cum_weight_mono(t, opts, m + 1, opts.len() as int);
    assert(opts[m] < num_ids(t));
    assert(opts[m] as int / 4 < t.tile_names@.len()) by (nonlinear_arith)
        requires
            opts[m] < t.tile_names@.len() * 4,
    ;
}

/// Cumulative weights are monotone.
pub proof fn lemma_cum_weight_mono(t: Tileset, opts: Seq<usize>, a: int, b: int)
    requires
        t.wf(),
        forall|l: int| 0 <= l < opts.len() ==> #[trigger] opts[l] < num_ids(t),
        0 <= a <= b <= opts.len(),
    ensures
        cum_weight(t, opts, a) <= cum_weight(t, opts, b),
        cum_weight(t, opts, b) - cum_weight(t, opts, a) >= b - a,
    decreases b - a,
{
    if a < b {
        lemma_cum_weight_mono(t, opts, a, b - 1);
        assert(opts[b - 1] < num_ids(t));
        assert(opts[b - 1] as int / 4 < t.tile_names@.len()) by (nonlinear_arith)
            requires
                opts[b - 1] < t.tile_names@.len() * 4,
        ;
        assert(t.tile_weights@[opts[b - 1] as int / 4] >= 1);
    }
}

/// Cumulative weights stay below the number of candidates times the largest
/// single weight.
proof fn lemma_cum_weight_bound(t: Tileset, opts: Seq<usize>, m: int)
    requires
        t.wf(),
        forall|l: int| 0 <= l < opts.len() ==> #[trigger] opts[l] < num_ids(t),
        0 <= m <= opts.len(),
    ensures
        cum_weight(t, opts, m) <= m * 0xffffffff,
    decreases m,
{
    if m > 0 {
        lemma_cum_weight_bound(t, opts, m - 1);
        assert(opts[m - 1] < num_ids(t));
        assert(opts[m - 1] as int / 4 < t.tile_names@.len()) by (nonlinear_arith)
            requires
                opts[m - 1] < t.tile_names@.len() * 4,
        ;
        assert(t.tile_weights@[opts[m - 1] as int / 4] <= 0xffffffff);
        assert(m * 0xffffffff == (m - 1) * 0xffffffff + 0xffffffff) by (nonlinear_arith);
    }
}

/// The total weight of the listed identities.
fn total_weight(t: &Tileset, opts: &Vec<usize>) -> (total: u64)
    requires
        t.wf(),
        forall|l: int| 0 <= l < opts@.len() ==> #[trigger] opts@[l] < num_ids(*t),
        opts@.len() <= num_ids(*t),
    ensures
        total == cum_weight(*t, opts@, opts@.len() as int),
{
    proof {
        lemma_cum_weight_bound(*t, opts@, opts@.len() as int);
        assert(opts@.len() < 0x40000000);
        assert(opts@.len() * 0xffffffff < 0xffffffffffffffff) by (nonlinear_arith)
            requires
                opts@.len() < 0x40000000,
        ;
    }
    let n = opts.len();
    let mut total: u64 = 0;
    for m in 0..n
        invariant
            n == opts@.len(),
            t.wf(),
            forall|l: int| 0 <= l < opts@.len() ==> #[trigger] opts@[l] < num_ids(*t),
            opts@.len() <= num_ids(*t),
            total == cum_weight(*t, opts@, m as int),
            total <= m * 0xffffffff,
    {
        proof {
            assert(opts@[m as int] < num_ids(*t));
            assert(opts@[m as int] as int / 4 < t.tile_names@.len()) by (nonlinear_arith)
                requires
                    opts@[m as int] < t.tile_names@.len() * 4,
            ;
            assert((m + 1) * 0xffffffff == m * 0xffffffff + 0xffffffff) by (nonlinear_arith);
            assert(m < 0x40000000);
            assert(m * 0xffffffff <= 0x40000000 * 0xffffffff) by (nonlinear_arith)
                requires
                    0 <= m <= 0x40000000,
            ;
        }
        total = total + (t.tile_weights[opts[m] / 4] as u64);
    }
    total
}

/// The candidate whose cumulative-weight interval contains the draw `r`.
fn weighted_index(t: &Tileset, opts: &Vec<usize>, r: u64) -> (m: usize)
    requires
        t.wf(),
        forall|l: int| 0 <= l < opts@.len() ==> #[trigger] opts@[l] < num_ids(*t),
        opts@.len() <= num_ids(*t),
        r < cum_weight(*t, opts@, opts@.len() as int),
    ensures
        m < opts@.len(),
        cum_weight(*t, opts@, m as int) <= r < cum_weight(*t, opts@, m as int + 1),
{
    let n = opts.len();
    let mut acc: u64 = 0;
    for m in 0..n
        invariant
            n == opts@.len(),
            t.wf(),
            forall|l: int| 0 <= l < opts@.len() ==> #[trigger] opts@[l] < num_ids(*t),
            r < cum_weight(*t, opts@, opts@.len() as int),
            opts@.len() <= num_ids(*t),
            acc == cum_weight(*t, opts@, m as int),
            acc <= r,
    {
        proof {
            assert(opts@[m as int] < num_ids(*t));
            assert(opts@[m as int] as int / 4 < t.tile_names@.len()) by (nonlinear_arith)
                requires
                    opts@[m as int] < t.tile_names@.len() * 4,
            ;
            lemma_cum_weight_mono(*t, opts@, m as int + 1, opts@.len() as int);
        }
        let w = t.tile_weights[opts[m] / 4] as u64;
        proof {
            lemma_cum_weight_bound(*t, opts@, m as int);
            assert(m < 0x40000000);
            assert(acc + w < 0xffffffffffffffff) by (nonlinear_arith)
                requires
                    acc <= cum_weight(*t, opts@, m as int) + 0,
                    cum_weight(*t, opts@, m as int) <= m * 0xffffffff,
                    0 <= m < 0x40000000,
                    w <= 0xffffffff,
            ;
        }
        if r < acc + w {
            return m;
        }
        acc = acc + w;
    }
    proof {
        assert(false);
    }
    0
}


/// Whether some superposed cell has run out of admissible identities: the
/// contradiction state of a wave.
pub open spec fn has_empty_cell(w: Wave) -> bool {
    exists|k: int|
        0 <= k < w.tiles@.len() && (#[trigger] w.tiles@[k]) is Unobserved && count_true(
            w.tiles@[k]->Unobserved_0@,
        ) == 0
}

/// The superposed cell at index `k` ties for the fewest admissible
/// identities over all superposed cells.
pub open spec fn is_min_entropy_cell(w: Wave, k: int) -> bool {
    &&& 0 <= k < w.tiles@.len()
    &&& w.tiles@[k] is Unobserved
    &&& forall|l: int|
        0 <= l < w.tiles@.len() && !((#[trigger] w.tiles@[l]) is Observed)
            ==> w.tiles@[l].spec_option_count() >= w.tiles@[k].spec_option_count()
}

/// Why a solver step failed: the wave was already fully collapsed, or some
/// cell has no admissible identity left.
#[derive(Debug, Clone, Copy, PartialEq, Eq, Structural)]
pub enum SolveError {
    Exhausted,
    Contradiction,
}

/// Forcing one superposed cell to a single identity leaves every collapsed
/// pair consistent, except possibly the forced cell against its superposed
/// neighbors; propagation from there restores those.
proof fn lemma_force_consistent(t: Tileset, w_old: Wave, w_new: Wave, idx: int, obs: int)
    requires
        t.wf(),
        table_symmetric(t),
        w_old.wf(num_ids(t)),
        w_new.width == w_old.width,
        w_new.height == w_old.height,
        w_new.tiles@.len() == w_old.tiles@.len(),
        0 <= idx < w_old.tiles@.len(),
        !(w_old.tiles@[idx] is Observed),
        w_new.tiles@[idx] is Observed,
        w_new.tiles@[idx]->Observed_0 == obs,
        0 <= obs < num_ids(t),
        w_old.tiles@[idx].admits(obs) || (forall|k: int|
            0 <= k < w_old.tiles@.len() ==> !((#[trigger] w_old.tiles@[k]) is Observed)),
        forall|k: int|
            0 <= k < w_old.tiles@.len() && k != idx ==> #[trigger] w_new.tiles@[k]
                == w_old.tiles@[k],
        observed_consistent(t, w_old),
    ensures
        consistent_except(t, w_new, idx % w_old.width as int, idx / w_old.width as int),
{
    let w = w_old.width as int;
    let h = w_old.height as int;
    lemma_index_grid(idx, w, h);
    let cx = idx % w;
    let cy = idx / w;
    assert forall|x: int, y: int, s: int|
        w_new.in_grid(x, y) && 0 <= s < 4 && w_new.in_grid(nb_x(x, s), nb_y(y, s)) implies
        #[trigger] pair_ok(t, w_new, x, y, s) || (x == cx && y == cy && !(w_new.cell(
        nb_x(x, s),
        nb_y(y, s),
    ) is Observed)) by {
        let nx = nb_x(x, s);
        let ny = nb_y(y, s);
        lemma_grid_index(x, y, w, h);
        lemma_grid_index(nx, ny, w, h);
        let cellidx = y * w + x;
        let nidx = ny * w + nx;
        if cellidx == idx {
            // the forced cell as center
            assert(x == cx && y == cy);
            if w_new.cell(nx, ny) is Observed {
                // old consistency from the observed neighbor toward this
                // cell, turned around by table symmetry
                assert(w_old.tiles@[idx].admits(obs));
                let os = opp_side(s);
                assert(nb_x(nx, os) == x && nb_y(ny, os) == y);
                assert(pair_ok(t, w_old, nx, ny, os));
                assert(w_old.cell(nx, ny) is Observed);
                let idn = w_old.cell(nx, ny)->Observed_0 as int;
                assert(w_old.cell(x, y).admits(obs));
                assert(table_at(t, idn, os, obs));
                assert(0 <= idn < num_ids(t)) by {
                    assert(w_old.tiles@[nidx].wf(num_ids(t)));
                }
                assert(table_at(t, obs, s, idn)) by {
                    assert(opp_side(os) == s);
                    assert(table_at(t, idn, os, obs) == table_at(t, obs, s, idn));
                }
                assert forall|j: int| #[trigger] w_new.cell(nx, ny).admits(j) implies table_at(
                    t,
                    w_new.cell(x, y)->Observed_0 as int,
                    s,
                    j,
                ) by {
                    assert(j == idn);
                }
                assert(pair_ok(t, w_new, x, y, s));
            }
        } else {
            assert(w_new.cell(x, y) == w_old.cell(x, y));
            if nidx == idx {
                // neighbor is the forced cell: it admits only the forced
                // identity, which the old superposition admitted
                if w_new.cell(x, y) is Observed {
                    assert(w_old.tiles@[cellidx] is Observed);
                    assert(w_old.tiles@[idx].admits(obs));
                    assert(pair_ok(t, w_old, x, y, s));
                    assert(w_old.cell(nx, ny).admits(obs));
                    assert forall|j: int| #[trigger] w_new.cell(nx, ny).admits(j) implies table_at(
                        t,
                        w_new.cell(x, y)->Observed_0 as int,
                        s,
                        j,
                    ) by {
                        assert(j == obs);
                    }
                }
                assert(pair_ok(t, w_new, x, y, s));
            } else {
                assert(w_new.cell(nx, ny) == w_old.cell(nx, ny));
                assert(pair_ok(t, w_old, x, y, s));
                lemma_pair_ok_transfer(t, w_old, w_new, x, y, s);
            }
        }
    }
}

/// The wave function collapse solver: a tileset, the evolving wave, and an
/// owned seeded generator, so that runs are reproducible in isolation.
pub struct WaveFunctionCollapse {
    pub tileset: Tileset,
    pub wave: Wave,
    pub rng: rand::rngs::StdRng,
}

impl WaveFunctionCollapse {
    /// The solver invariant: a well-formed, symmetric tileset; a well-formed
    /// wave small enough to project; and every collapsed cell consistent
    /// with all its neighbors.
    pub open spec fn wf(self) -> bool {
        &&& self.tileset.wf()
        &&& table_symmetric(self.tileset)
        &&& self.wave.wf(num_ids(self.tileset))
        &&& self.wave.tiles@.len() * 16 <= usize::MAX
        &&& self.wave.width * 4 <= usize::MAX
        &&& self.wave.height * 4 <= usize::MAX
        &&& observed_consistent(self.tileset, self.wave)
    }

    /// A fresh solver: every cell superposed over the full universe of tile
    /// identities, and the generator seeded for a reproducible run.
    pub fn new(tileset: Tileset, width: usize, height: usize, seed: u64) -> (r: Self)
        requires
            tileset.wf(),
            table_symmetric(tileset),
            width * height * 16 <= usize::MAX,
            width * 4 <= usize::MAX,
            height * 4 <= usize::MAX,
        ensures
            r.wf(),
            r.tileset == tileset,
            r.wave.width == width,
            r.wave.height == height,
            r.wave.tiles@.len() == width * height,
            forall|k: int| 0 <= k < width * height ==> !((#[trigger] r.wave.tiles@[k]) is Observed),
            forall|k: int, i: int|
                0 <= k < width * height && 0 <= i < num_ids(tileset)
                    ==> #[trigger] r.wave.tiles@[k].admits(i),
    {
        let n_ids = tileset.tile_names.len() * 4;
        let n_cells = width * height;
        let mut tiles: Vec<WaveTile> = Vec::new();
        for k in 0..n_cells
            invariant
                n_ids == num_ids(tileset),
                tiles@.len() == k,
                forall|l: int| 0 <= l < k ==> !((#[trigger] tiles@[l]) is Observed),
                forall|l: int|
                    0 <= l < k ==> (#[trigger] tiles@[l]) is Unobserved
                        && tiles@[l]->Unobserved_0@.len() == n_ids && forall|i: int|
                        0 <= i < n_ids ==> tiles@[l]->Unobserved_0@[i] == true,
        {
            let mut superposition: Vec<bool> = Vec::new();
            for i in 0..n_ids
                invariant
                    superposition@.len() == i,
                    forall|l: int| 0 <= l < i ==> #[trigger] superposition@[l] == true,
            {
                superposition.push(true);
            }
            tiles.push(WaveTile::Unobserved(superposition));
        }
        let rng = rng_from_seed(seed);
        let r = WaveFunctionCollapse { tileset, wave: Wave { tiles, width, height }, rng };
        proof {
            assert forall|k: int, i: int|
                0 <= k < width * height && 0 <= i < num_ids(r.tileset) implies
                #[trigger] r.wave.tiles@[k].admits(i) by {
                assert(r.wave.tiles@[k]->Unobserved_0@[i] == true);
            }
            assert forall|x: int, y: int, s: int|
                r.wave.in_grid(x, y) && 0 <= s < 4 && r.wave.in_grid(nb_x(x, s), nb_y(y, s))
                    implies #[trigger] pair_ok(r.tileset, r.wave, x, y, s) by {
                lemma_grid_index(x, y, width as int, height as int);
                assert(!(r.wave.cell(x, y) is Observed));
            }
        }
        r
    }
}


impl WaveFunctionCollapse {
    /// Whether identity `tile_two_idx` may sit on side `side` of identity
    /// `tile_one_idx`.
    pub fn is_allowed(&self, tile_one_idx: usize, tile_two_idx: usize, side: u8) -> (r: bool)
        requires
            self.tileset.wf(),
            tile_one_idx < num_ids(self.tileset),
            tile_two_idx < num_ids(self.tileset),
            side < 4,
        ensures
            r == table_at(self.tileset, tile_one_idx as int, side as int, tile_two_idx as int),
    {
        table_lookup(&self.tileset, tile_one_idx, side as usize, tile_two_idx)
    }

    /// Decode a flat tile identity into its base tile and rotation.
    pub fn index_to_tile(&self, index: usize) -> (r: Tile)
        requires
            self.tileset.wf(),
            index < num_ids(self.tileset),
        ensures
            r.base_tile_idx == index as int / 4,
            r.rotation == index as int % 4,
            r.base_tile_idx < self.tileset.tile_names@.len(),
            r.rotation < 4,
    {
        proof {
            assert(index as int / 4 < self.tileset.tile_names@.len()) by (nonlinear_arith)
                requires
                    index < self.tileset.tile_names@.len() * 4,
            ;
        }
        let base_index = index / 4;
        let rotation = index % 4;
        Tile { base_tile_idx: base_index, rotation: rotation as u8 }
    }

    /// One solver step: pick a superposed cell of minimal entropy (ties
    /// broken by the seeded generator), collapse it by a weighted draw over
    /// its admissible identities, and propagate the consequences. Fails with
    /// `Exhausted` exactly when the wave is already fully collapsed, and
    /// with `Contradiction` exactly when some superposed cell has no
    /// admissible identity left; in both cases the wave is untouched.
    pub fn step(&mut self) -> (r: Result<(), SolveError>)
        requires
            old(self).wf(),
        ensures
            final(self).wf(),
            final(self).tileset == old(self).tileset,
            final(self).wave.width == old(self).wave.width,
            final(self).wave.height == old(self).wave.height,
            final(self).wave.tiles@.len() == old(self).wave.tiles@.len(),
            forall|k: int, i: int|
                0 <= k < old(self).wave.tiles@.len()
                    ==> ((#[trigger] final(self).wave.tiles@[k].admits(i))
                    ==> old(self).wave.tiles@[k].admits(i)),
            (r is Err && r->Err_0 is Exhausted) <==> old(self).wave.fully_observed(),
            (r is Err && r->Err_0 is Contradiction) <==> (!old(self).wave.fully_observed()
                && has_empty_cell(old(self).wave)),
            r is Err ==> final(self).wave == old(self).wave,
            r is Ok ==> exists|k: int|
                {
                    &&& #[trigger] is_min_entropy_cell(old(self).wave, k)
                    &&& !(old(self).wave.tiles@[k] is Observed)
                    &&& final(self).wave.tiles@[k] is Observed
                    &&& old(self).wave.tiles@[k].admits(
                        final(self).wave.tiles@[k]->Observed_0 as int,
                    )
                    &&& forall|l: int|
                        0 <= l < old(self).wave.tiles@.len() && l != k
                            ==> (((#[trigger] final(self).wave.tiles@[l]) is Observed
                            <==> old(self).wave.tiles@[l] is Observed)
                            && (old(self).wave.tiles@[l] is Observed
                            ==> final(self).wave.tiles@[l] == old(self).wave.tiles@[l]))
                },
            r is Ok ==> count_observed(final(self).wave.tiles@) == count_observed(
                old(self).wave.tiles@,
            ) + 1,
    {
        let n_cells = self.wave.tiles.len();
        let ghost n = num_ids(self.tileset);
        // entropy scan: collect all superposed cells tied for the fewest
        // admissible identities
        let mut best: usize = usize::MAX;
        let mut cands: Vec<usize> = Vec::new();
        for k in 0..n_cells
            invariant
                self.wave.wf(n),
                n == num_ids(self.tileset),
                self.tileset.wf(),
                n_cells == self.wave.tiles@.len(),
                (cands@.len() == 0) <==> (forall|l: int|
                    0 <= l < k ==> (#[trigger] self.wave.tiles@[l]) is Observed),
                forall|m: int|
                    0 <= m < cands@.len() ==> #[trigger] cands@[m] < k && self.wave.tiles@[
                        cands@[m] as int
                    ] is Unobserved && self.wave.tiles@[cands@[m] as int].spec_option_count()
                        == best,
                forall|l: int|
                    0 <= l < k && !((#[trigger] self.wave.tiles@[l]) is Observed)
                        ==> self.wave.tiles@[l].spec_option_count() >= best,
                cands@.len() > 0 ==> best < usize::MAX,
        {
            let is_unobserved = match &self.wave.tiles[k] {
                WaveTile::Observed(_) => false,
                WaveTile::Unobserved(_) => true,
            };
            if is_unobserved {
                let c = self.wave.tiles[k].num_possible_options();
                proof {
                    lemma_count_true_le_len(self.wave.tiles@[k as int]->Unobserved_0@);
                    assert(self.wave.tiles@[k as int].wf(n));
                    assert(num_ids(self.tileset) < 0x40000000);
                }
                if cands.is_empty() || c < best {
                    best = c;
                    cands = Vec::new();
                    cands.push(k);
                    assert(cands@[0] == k);
                } else if c == best {
                    cands.push(k);
                    assert(cands@[cands@.len() - 1] == k);
                }
            }
        }
        if cands.is_empty() {
            proof {
                assert(self.wave.fully_observed());
            }
            return Err(SolveError::Exhausted);
        }
        proof {
            assert(!(self.wave.tiles@[cands@[0] as int] is Observed));
            assert(!self.wave.fully_observed());
        }
        // tie-break uniformly at random among the minimal cells
        let ci = rng_below(&mut self.rng, cands.len() as u64) as usize;
        let idx = cands[ci];
        proof {
            assert(is_min_entropy_cell(self.wave, idx as int));
        }
        let opts = self.wave.tiles[idx].possible_options();
        if opts.is_empty() {
            proof {
                assert(self.wave.tiles@[idx as int] is Unobserved && count_true(
                    self.wave.tiles@[idx as int]->Unobserved_0@,
                ) == 0);
                assert(has_empty_cell(self.wave));
            }
            return Err(SolveError::Contradiction);
        }
        proof {
            // no superposed cell anywhere is empty: the selected cell ties
            // for the minimum and it has at least one option
            assert forall|l: int|
                0 <= l < n_cells && (#[trigger] self.wave.tiles@[l]) is Unobserved && count_true(
                    self.wave.tiles@[l]->Unobserved_0@,
                ) == 0 implies false by {
                assert(self.wave.tiles@[l].spec_option_count() >= best);
                assert(self.wave.tiles@[idx as int].spec_option_count() == best);
                assert(count_true(self.wave.tiles@[idx as int]->Unobserved_0@) != 0);
            }
            assert(!has_empty_cell(self.wave));
            assert forall|m: int| 0 <= m < opts@.len() implies #[trigger] opts@[m] < num_ids(
                self.tileset,
            ) by {
                assert(self.wave.tiles@[idx as int].admits(opts@[m] as int));
                assert(self.wave.tiles@[idx as int].wf(n));
            }
            lemma_count_true_le_len(self.wave.tiles@[idx as int]->Unobserved_0@);
        }
        // weighted collapse over the admissible identities
        let total = total_weight(&self.tileset, &opts);
        proof {
            lemma_cum_weight_mono(self.tileset, opts@, 0, opts@.len() as int);
        }
        let rdraw = rng_below(&mut self.rng, total);
        let mi = weighted_index(&self.tileset, &opts, rdraw);
        let observation = opts[mi];
        let ghost wave_b = self.wave;
        self.wave.tiles.set(idx, WaveTile::Observed(observation));
        proof {
            assert(self.wave.width > 0) by {
                assert(idx < n_cells && n_cells == self.wave.width * self.wave.height);
                assert(self.wave.width * self.wave.height > 0);
                assert(self.wave.width != 0 ==> self.wave.width > 0);
                if self.wave.width == 0 {
                    assert(self.wave.width * self.wave.height == 0) by (nonlinear_arith)
                        requires
                            self.wave.width == 0,
                    ;
                }
            }
            lemma_index_grid(idx as int, self.wave.width as int, self.wave.height as int);
            lemma_force_consistent(
                self.tileset,
                wave_b,
                self.wave,
                idx as int,
                observation as int,
            );
            lemma_count_observed_update(
                wave_b.tiles@,
                idx as int,
                WaveTile::Observed(observation),
            );
        }
        let x = idx % self.wave.width;
        let y = idx / self.wave.width;
        let ghost wave_f = self.wave;
        propagate(&self.tileset, &mut self.wave, x, y);
        proof {
            lemma_count_observed_congruent(wave_f.tiles@, self.wave.tiles@);
            assert(is_min_entropy_cell(wave_b, idx as int));
            assert(self.wave.tiles@[idx as int] is Observed);
            assert(self.wave.tiles@[idx as int] == wave_f.tiles@[idx as int]);
            assert(wave_b.tiles@[idx as int].admits(observation as int));
        }
        Ok(())
    }
}


/// The rotated pattern lookup: the cell of a base pattern that lands at
/// pattern row `ty`, column `tx` after `rot` quarter turns.
pub open spec fn rot_bit(p: Seq<Bit>, rot: int, ty: int, tx: int) -> Bit {
    if rot == 0 {
        p[ty * 4 + tx]
    } else if rot == 1 {
        p[tx * 4 + (3 - ty)]
    } else if rot == 2 {
        p[(3 - ty) * 4 + (3 - tx)]
    } else {
        p[(3 - tx) * 4 + ty]
    }
}

/// The category that the projection writes at bitmap column `x`, row `y`: a
/// collapsed cell stamps its rotated pattern, a superposed cell stays empty.
pub open spec fn wave_bit(t: Tileset, w: Wave, x: int, y: int) -> Bit {
    match w.cell(x / 4, y / 4) {
        WaveTile::Observed(i) => rot_bit(t.tiles@[i as int / 4].bitmap@, i as int % 4, y % 4, x % 4),
        WaveTile::Unobserved(_) => Bit::Empty,
    }
}

/// The full projected bitmap of a wave, as a sequence of categories.
pub open spec fn bitmap_bits(t: Tileset, w: Wave) -> Seq<Bit> {
    Seq::new(
        (w.width * 4 * (w.height * 4)) as nat,
        |l: int| wave_bit(t, w, l % (w.width * 4) as int, l / (w.width * 4) as int),
    )
}

impl WaveFunctionCollapse {
    /// Force the cell at `(x, y)` to the named tile in a rotation drawn from
    /// the generator, then propagate. A pre-seed of a fresh wave: no cell
    /// may be collapsed yet. Fails exactly when no tile has the given name.
    pub fn collapse_xy_to_tile(&mut self, x: usize, y: usize, tile_name: &str) -> (r: Result<
        (),
        crate::declarative::TilesetError,
    >)
        requires
            old(self).wf(),
            x < old(self).wave.width,
            y < old(self).wave.height,
            forall|k: int|
                0 <= k < old(self).wave.tiles@.len() ==> !((#[trigger] old(
                    self,
                ).wave.tiles@[k]) is Observed),
        ensures
            final(self).wf(),
            final(self).tileset == old(self).tileset,
            final(self).wave.width == old(self).wave.width,
            final(self).wave.height == old(self).wave.height,
            final(self).wave.tiles@.len() == old(self).wave.tiles@.len(),
            forall|k: int, i: int|
                0 <= k < old(self).wave.tiles@.len() && k != y * old(self).wave.width + x
                    ==> ((#[trigger] final(self).wave.tiles@[k].admits(i))
                    ==> old(self).wave.tiles@[k].admits(i)),
            (r is Ok) <==> (exists|b: int|
                0 <= b < old(self).tileset.tile_names@.len() && (#[trigger] old(
                    self,
                ).tileset.tile_names@[b])@ == tile_name@),
            r is Err ==> final(self).wave == old(self).wave && r->Err_0 is UnknownTileName,
            r is Ok ==> ({
                let c = final(self).wave.cell(x as int, y as int);
                &&& c is Observed
                &&& c->Observed_0 < num_ids(old(self).tileset)
                &&& old(self).tileset.tile_names@[c->Observed_0 as int / 4]@ == tile_name@
            }),
            r is Ok ==> forall|k: int|
                0 <= k < old(self).wave.tiles@.len() && k != y * old(self).wave.width + x
                    ==> !((#[trigger] final(self).wave.tiles@[k]) is Observed),
    {
        let name_string = tile_name.to_owned();
        let n_names = self.tileset.tile_names.len();
        let mut base_idx: usize = 0;
        let mut found = false;
        for k in 0..n_names
            invariant
                n_names == self.tileset.tile_names@.len(),
                !found ==> forall|l: int|
                    0 <= l < k ==> (#[trigger] self.tileset.tile_names@[l])@ != tile_name@,
                found ==> base_idx < k && self.tileset.tile_names@[base_idx as int]@ == tile_name@,
                name_string@ == tile_name@,
        {
            if !found && self.tileset.tile_names[k].eq(&name_string) {
                found = true;
                base_idx = k;
            }
        }
        if !found {
            return Err(crate::declarative::TilesetError::UnknownTileName);
        }
        let rotation = rng_below(&mut self.rng, 4) as usize;
        let tile_idx = base_idx * 4 + rotation;
        proof {
            assert(base_idx * 4 + rotation < num_ids(self.tileset)) by (nonlinear_arith)
                requires
                    base_idx < self.tileset.tile_names@.len(),
                    rotation < 4,
                    num_ids(self.tileset) == self.tileset.tile_names@.len() * 4,
            ;
            lemma_grid_index(x as int, y as int, self.wave.width as int, self.wave.height as int);
        }
        let idx = y * self.wave.width + x;
        let ghost wave_b = self.wave;
        self.wave.tiles.set(idx, WaveTile::Observed(tile_idx));
        proof {
            lemma_index_grid(idx as int, self.wave.width as int, self.wave.height as int);
            lemma_force_consistent(self.tileset, wave_b, self.wave, idx as int, tile_idx as int);
            assert(idx as int % self.wave.width as int == x as int);
            assert(idx as int / self.wave.width as int == y as int);
        }
        let ghost wave_f = self.wave;
        propagate(&self.tileset, &mut self.wave, x, y);
        proof {
            assert(self.wave.cell(x as int, y as int) == WaveTile::Observed(tile_idx));
            assert(tile_idx as int / 4 == base_idx) by (nonlinear_arith)
                requires
                    tile_idx == base_idx * 4 + rotation,
                    0 <= rotation < 4,
                    0 <= base_idx,
            ;
        }
        Ok(())
    }

    /// Project the wave onto a flat category bitmap: every collapsed cell
    /// stamps its base pattern, rotated by its identity's quarter turns;
    /// superposed cells leave their block empty.
    pub fn bitmap(&self) -> (b: Bitmap)
        requires
            self.wf(),
        ensures
            b.width == self.wave.width * TILE_SIZE,
            b.height == self.wave.height * TILE_SIZE,
            b.wf(),
            forall|x: int, y: int|
                0 <= x < b.width && 0 <= y < b.height ==> #[trigger] b.bits@[y * b.width + x]
                    == wave_bit(self.tileset, self.wave, x, y),
            b.bits@ == bitmap_bits(self.tileset, self.wave),
    {
        let w = self.wave.width;
        let h = self.wave.height;
        proof {
            assert(w * 4 * (h * 4) == w * h * 16) by (nonlinear_arith);
            assert(w * 4 * (h * 4) >= 0) by (nonlinear_arith);
        }
        let bw = w * TILE_SIZE;
        let bh = h * TILE_SIZE;
        proof {
            assert(bw * bh == w * h * 16) by (nonlinear_arith)
                requires
                    bw == w * 4,
                    bh == h * 4,
            ;
        }
        let n_total = bw * bh;
        let mut bits: Vec<Bit> = Vec::new();
        for l in 0..n_total
            invariant
                self.wf(),
                w == self.wave.width,
                h == self.wave.height,
                bw == w * 4,
                bh == h * 4,
                n_total == bw * bh,
                bits@.len() == l,
                forall|k: int|
                    0 <= k < l ==> #[trigger] bits@[k] == wave_bit(
                        self.tileset,
                        self.wave,
                        k % bw as int,
                        k / bw as int,
                    ),
        {
            proof {
                assert(bw > 0) by (nonlinear_arith)
                    requires
                        l < bw * bh,
                        0 <= l,
                        0 <= bw,
                        0 <= bh,
                ;
                lemma_index_grid(l as int, bw as int, bh as int);
            }
            let bx = l % bw;
            let by = l / bw;
            proof {
                assert(bx / 4 < w && by / 4 < h && bx % 4 < 4 && by % 4 < 4) by (nonlinear_arith)
                    requires
                        bx < w * 4,
                        by < h * 4,
                ;
            }
            let sx = bx / TILE_SIZE;
            let sy = by / TILE_SIZE;
            let tx = bx % TILE_SIZE;
            let ty = by % TILE_SIZE;
            let bit = match self.wave.get(sx, sy) {
                WaveTile::Observed(i) => {
                    let ii = *i;
                    proof {
                        lemma_grid_index(
                            sx as int,
                            sy as int,
                            self.wave.width as int,
                            self.wave.height as int,
                        );
                        assert(self.wave.cell(sx as int, sy as int).wf(num_ids(self.tileset)));
                        assert(ii as int / 4 < self.tileset.tile_names@.len()) by (nonlinear_arith)
                            requires
                                ii < self.tileset.tile_names@.len() * 4,
                        ;
                    }
                    let base = ii / 4;
                    let rot = ii % 4;
                    let p = &self.tileset.tiles[base].bitmap;
                    if rot == 0 {
                        p[ty * 4 + tx]
                    } else if rot == 1 {
                        p[tx * 4 + 3 - ty]
                    } else if rot == 2 {
                        p[(3 - ty) * 4 + (3 - tx)]
                    } else {
                        p[(3 - tx) * 4 + ty]
                    }
                },
                WaveTile::Unobserved(_) => Bit::Empty,
            };
            bits.push(bit);
            proof {
                assert(bits@[l as int] == wave_bit(self.tileset, self.wave, bx as int, by as int));
            }
        }
        let b = Bitmap { bits, width: bw, height: bh };
        proof {
            assert forall|x: int, y: int|
                0 <= x < b.width && 0 <= y < b.height implies #[trigger] b.bits@[y * b.width + x]
                == wave_bit(self.tileset, self.wave, x, y) by {
                lemma_grid_index(x, y, bw as int, bh as int);
            }
            assert(b.bits@ =~= bitmap_bits(self.tileset, self.wave));
        }
        b
    }

    /// Run the solver to completion: step at most once per cell, stopping at
    /// the first failure. Returns whether the run hit a contradiction, and,
    /// when asked, a bitmap snapshot taken after every successful step.
    pub fn step_all(&mut self, save_bitmaps: bool) -> (r: (bool, Vec<Bitmap>))
        requires
            old(self).wf(),
        ensures
            final(self).wf(),
            final(self).tileset == old(self).tileset,
            final(self).wave.width == old(self).wave.width,
            final(self).wave.height == old(self).wave.height,
            final(self).wave.tiles@.len() == old(self).wave.tiles@.len(),
            forall|k: int, i: int|
                0 <= k < old(self).wave.tiles@.len()
                    ==> ((#[trigger] final(self).wave.tiles@[k].admits(i))
                    ==> old(self).wave.tiles@[k].admits(i)),
            r.0 == !final(self).wave.fully_observed(),
            r.0 ==> has_empty_cell(final(self).wave),
            !save_bitmaps ==> r.1@.len() == 0,
            save_bitmaps ==> r.1@.len() == count_observed(final(self).wave.tiles@)
                - count_observed(old(self).wave.tiles@),
            forall|m: int|
                0 <= m < r.1@.len() ==> (#[trigger] r.1@[m]).width == old(self).wave.width
                    * TILE_SIZE && r.1@[m].height == old(self).wave.height * TILE_SIZE
                    && r.1@[m].wf(),
            (save_bitmaps && !r.0 && r.1@.len() > 0) ==> r.1@[r.1@.len() - 1].bits@ == bitmap_bits(
                final(self).tileset,
                final(self).wave,
            ),
    {
        let w = self.wave.width;
        let h = self.wave.height;
        let n_cells = self.wave.tiles.len();
        let ghost c0 = count_observed(self.wave.tiles@);
        let mut bitmaps: Vec<Bitmap> = Vec::new();
        for step_i in 0..n_cells
            invariant
                self.wf(),
                self.tileset == old(self).tileset,
                self.wave.width == w,
                self.wave.height == h,
                w == old(self).wave.width,
                h == old(self).wave.height,
                self.wave.tiles@.len() == n_cells,
                n_cells == old(self).wave.tiles@.len(),
                forall|k: int, i: int|
                    0 <= k < n_cells ==> ((#[trigger] self.wave.tiles@[k].admits(i)) ==> old(
                        self,
                    ).wave.tiles@[k].admits(i)),
                count_observed(self.wave.tiles@) == c0 + step_i,
                c0 == count_observed(old(self).wave.tiles@),
                save_bitmaps ==> bitmaps@.len() == step_i,
                !save_bitmaps ==> bitmaps@.len() == 0,
                forall|m: int|
                    0 <= m < bitmaps@.len() ==> (#[trigger] bitmaps@[m]).width == w * TILE_SIZE
                        && bitmaps@[m].height == h * TILE_SIZE && bitmaps@[m].wf(),
                bitmaps@.len() > 0 ==> bitmaps@[bitmaps@.len() - 1].bits@ == bitmap_bits(
                    self.tileset,
                    self.wave,
                ),
        {
            match self.step() {
                Ok(()) => {
                    if save_bitmaps {
                        let snapshot = self.bitmap();
                        bitmaps.push(snapshot);
                    }
                },
                Err(SolveError::Contradiction) => {
                    proof {
                        assert(has_empty_cell(self.wave));
                        let k = choose|k: int|
                            0 <= k < self.wave.tiles@.len() && (
                            #[trigger] self.wave.tiles@[k]) is Unobserved && count_true(
                                self.wave.tiles@[k]->Unobserved_0@,
                            ) == 0;
                        assert(!(self.wave.tiles@[k] is Observed));
                        assert(!self.wave.fully_observed());
                    }
                    return (true, bitmaps);
                },
                Err(SolveError::Exhausted) => {
                    return (false, bitmaps);
                },
            }
        }
        proof {
            lemma_count_observed_le_len(self.wave.tiles@);
            lemma_count_observed_le_len(old(self).wave.tiles@);
            assert(count_observed(self.wave.tiles@) == n_cells);
            lemma_count_observed_full(self.wave.tiles@);
        }
        (false, bitmaps)
    }
}


/// Adjacency consistency: in a well-formed solver state whose wave is fully
/// collapsed, every pair of adjacent cells carries identities that the
/// adjacency table allows on the connecting side, in both directions. The
/// solver's operations all preserve well-formedness, so this holds of every
/// fully collapsed wave a run produces.
pub proof fn lemma_adjacency_consistency(s: WaveFunctionCollapse, x: int, y: int, sd: int)
    requires
        s.wf(),
        s.wave.fully_observed(),
        s.wave.in_grid(x, y),
        0 <= sd < 4,
        s.wave.in_grid(nb_x(x, sd), nb_y(y, sd)),
    ensures
        table_at(
            s.tileset,
            s.wave.cell(x, y)->Observed_0 as int,
            sd,
            s.wave.cell(nb_x(x, sd), nb_y(y, sd))->Observed_0 as int,
        ),
        table_at(
            s.tileset,
            s.wave.cell(nb_x(x, sd), nb_y(y, sd))->Observed_0 as int,
            opp_side(sd),
            s.wave.cell(x, y)->Observed_0 as int,
        ),
{
    let w = s.wave.width as int;
    let h = s.wave.height as int;
    let nx = nb_x(x, sd);
    let ny = nb_y(y, sd);
    lemma_grid_index(x, y, w, h);
    lemma_grid_index(nx, ny, w, h);
    assert(s.wave.cell(x, y) is Observed);
    assert(s.wave.cell(nx, ny) is Observed);
    assert(pair_ok(s.tileset, s.wave, x, y, sd));
    let jd = s.wave.cell(nx, ny)->Observed_0 as int;
    assert(s.wave.cell(nx, ny).admits(jd));
    assert(table_at(s.tileset, s.wave.cell(x, y)->Observed_0 as int, sd, jd));
    assert(s.wave.cell(x, y)->Observed_0 < num_ids(s.tileset)) by {
        assert(s.wave.tiles@[y * w + x].wf(num_ids(s.tileset)));
    }
    assert(jd < num_ids(s.tileset)) by {
        assert(s.wave.tiles@[ny * w + nx].wf(num_ids(s.tileset)));
    }
}

} // verus!
