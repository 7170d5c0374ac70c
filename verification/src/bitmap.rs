use vstd::prelude::*;

use crate::rng::{rng_below, rng_from_seed};
use crate::types::Bit;
use crate::wfc::{count_true, lemma_count_true_le_len, lemma_count_true_update, lemma_count_true_zero, lemma_grid_index, lemma_index_grid};

verus! {

/// A flat row-major grid of terrain categories, the projection of a
/// (partially) collapsed wave.
#[derive(Debug)]
pub struct Bitmap {
    pub bits: Vec<Bit>,
    pub width: usize,
    pub height: usize,
}

/// Per-cell vertical extents derived from a bitmap: each column spans
/// `bottom..top` around sea level.
#[derive(Debug)]
pub struct HeightMap {
    pub bottoms: Vec<i32>,
    pub tops: Vec<i32>,
}

impl Bitmap {
    pub open spec fn wf(self) -> bool {
        self.bits@.len() == self.width * self.height
    }

    /// The category at column `x`, row `y`.
    pub open spec fn bit_at(self, x: int, y: int) -> Bit {
        self.bits@[y * self.width + x]
    }
}

/// A cell takes part in the island body unless it is open space.
pub open spec fn is_island(b: Bit) -> bool {
    b != Bit::Space
}

/// Exec mirror of `is_island`.
pub fn is_island_ex(b: Bit) -> (r: bool)
    ensures
        r == is_island(b),
{
    match b {
        Bit::Space => false,
        _ => true,
    }
}

/// An island cell on the rim of the island: it touches the grid boundary or
/// has a non-island cell on one of its four sides.
pub open spec fn is_edge_cell(bits: Seq<Bit>, w: int, h: int, x: int, y: int) -> bool {
    &&& is_island(bits[y * w + x])
    &&& {
        ||| x == 0
        ||| !is_island(bits[y * w + (x - 1)])
        ||| x == w - 1
        ||| !is_island(bits[y * w + (x + 1)])
        ||| y == 0
        ||| !is_island(bits[(y - 1) * w + x])
        ||| y == h - 1
        ||| !is_island(bits[(y + 1) * w + x])
    }
}


/// Swap two entries of a coordinate list.
fn swap_coords(items: &mut Vec<(usize, usize)>, a: usize, b: usize)
    requires
        a < old(items)@.len(),
        b < old(items)@.len(),
    ensures
        final(items)@.len() == old(items)@.len(),
{
    let va = items[a];
    let vb = items[b];
    items.set(a, vb);
    items.set(b, va);
}

/// Put the four candidate neighbors in an order drawn from the generator.
/// The order feeds the breadth-first extrusion and is part of what makes a
/// run depend only on its seed; no caller relies on which order comes out.
fn shuffle4(rng: &mut rand::rngs::StdRng, items: &mut Vec<(usize, usize)>)
    requires
        old(items)@.len() == 4,
    ensures
        final(items)@.len() == 4,
{
    let j3 = rng_below(rng, 4) as usize;
    swap_coords(items, 3, j3);
    let j2 = rng_below(rng, 3) as usize;
    swap_coords(items, 2, j2);
    let j1 = rng_below(rng, 2) as usize;
    swap_coords(items, 1, j1);
}

impl Bitmap {
    /// Derive per-cell vertical extents from the bitmap: island rim cells
    /// start at depth one below and height one above sea level, and a
    /// breadth-first walk inward lets the floor sink and the surface wander,
    /// with road cells pinned flat. Every column satisfies the bounds
    /// `bottom <= 0 < 1 <= top`; non-island cells keep the default `(0, 1)`,
    /// and rim cells exactly `(-1, 1)`.
    pub fn compute_height_map(&self, seed: u64) -> (hm: HeightMap)
        requires
            self.wf(),
            self.bits@.len() < 0x40000000,
        ensures
            hm.bottoms@.len() == self.bits@.len(),
            hm.tops@.len() == self.bits@.len(),
            forall|k: int|
                0 <= k < self.bits@.len() ==> #[trigger] hm.tops@[k] >= 1 && hm.bottoms@[k] <= 0,
            forall|k: int|
                0 <= k < self.bits@.len() && self.bits@[k] == Bit::Road ==> #[trigger] hm.tops@[k]
                    == 1,
            forall|k: int|
                0 <= k < self.bits@.len() && !is_island(self.bits@[k]) ==> #[trigger] hm.bottoms@[k]
                    == 0 && hm.tops@[k] == 1,
            forall|x: int, y: int|
                0 <= x < self.width && 0 <= y < self.height && is_edge_cell(
                    self.bits@,
                    self.width as int,
                    self.height as int,
                    x,
                    y,
                ) ==> #[trigger] hm.bottoms@[y * self.width + x] == -1 && hm.tops@[y * self.width
                    + x] == 1,
    {
        let w = self.width;
        let h = self.height;
        let n = self.bits.len();
        let mut bottoms: Vec<i32> = Vec::new();
        let mut tops: Vec<i32> = Vec::new();
        let mut visited: Vec<bool> = Vec::new();
        for k in 0..n
            invariant
                bottoms@.len() == k,
                tops@.len() == k,
                visited@.len() == k,
                forall|l: int| 0 <= l < k ==> #[trigger] bottoms@[l] == 0,
                forall|l: int| 0 <= l < k ==> #[trigger] tops@[l] == 1,
                forall|l: int| 0 <= l < k ==> !(#[trigger] visited@[l]),
        {
            bottoms.push(0);
            tops.push(1);
            visited.push(false);
        }
        proof {
            lemma_count_true_zero(visited@);
            lemma_count_true_le_len(visited@);
        }
        let mut rng = rng_from_seed(seed);
        let mut queue: Vec<(usize, usize, i32, i32)> = Vec::new();

        // rim detection: island cells on the boundary or beside open space
        for idx in 0..n
            invariant
                self.wf(),
                w == self.width,
                h == self.height,
                n == self.bits@.len(),
                n < 0x40000000,
                bottoms@.len() == n,
                tops@.len() == n,
                visited@.len() == n,
                forall|l: int| 0 <= l < n ==> #[trigger] tops@[l] == 1,
                forall|l: int|
                    0 <= l < n ==> #[trigger] bottoms@[l] <= 0 && bottoms@[l] >= -1,
                forall|l: int|
                    0 <= l < n && !is_island(#[trigger] self.bits@[l]) ==> bottoms@[l] == 0,
                forall|l: int|
                    0 <= l < n && #[trigger] visited@[l] ==> bottoms@[l] == -1 && tops@[l] == 1,
                forall|l: int|
                    0 <= l < idx && #[trigger] is_edge_cell(
                        self.bits@,
                        w as int,
                        h as int,
                        l % w as int,
                        l / w as int,
                    ) ==> visited@[l],
                forall|m: int|
                    0 <= m < queue@.len() ==> (#[trigger] queue@[m]).0 < w && queue@[m].1 < h
                        && queue@[m].2 == -1 && queue@[m].3 == 1,
                queue@.len() > 0 ==> count_true(visited@) >= 1,
                count_true(visited@) <= n,
        {
            proof {
                assert(w > 0) by (nonlinear_arith)
                    requires
                        idx < n,
                        n == w * h,
                        0 <= w,
                        0 <= h,
                ;
                lemma_index_grid(idx as int, w as int, h as int);
                assert((idx as int / w as int) * w as int + idx as int % w as int == idx);
            }
            let x = idx % w;
            let y = idx / w;
            if is_island_ex(self.bits[idx]) {
                proof {
                    assert((y as int - 1) * w as int == y as int * w as int - w as int) by (
                    nonlinear_arith);
                    assert((y as int + 1) * w as int == y as int * w as int + w as int) by (
                    nonlinear_arith);
                    if x < w - 1 {
                        assert(idx + 1 < n) by (nonlinear_arith)
                            requires
                                idx == y * w + x,
                                x < w - 1,
                                y < h,
                                n == w * h,
                        ;
                    }
                    if y < h - 1 {
                        assert(idx + w < n) by (nonlinear_arith)
                            requires
                                idx == y * w + x,
                                x < w,
                                y < h - 1,
                                n == w * h,
                        ;
                    }
                    if y > 0 {
                        assert(idx >= w) by (nonlinear_arith)
                            requires
                                idx == y * w + x,
                                0 <= x,
                                y >= 1,
                                0 <= w,
                        ;
                    }
                }
                let edge = (x == 0 || !is_island_ex(self.bits[idx - 1])) || (x == w - 1
                    || !is_island_ex(self.bits[idx + 1])) || (y == 0 || !is_island_ex(
                    self.bits[idx - w],
                )) || (y == h - 1 || !is_island_ex(self.bits[idx + w]));
                proof {
                    assert(edge == is_edge_cell(self.bits@, w as int, h as int, x as int, y as int));
                }
                if edge {
                    let ghost visited0 = visited@;
                    visited.set(idx, true);
                    bottoms.set(idx, -1);
                    tops.set(idx, 1);
                    queue.push((x, y, -1, 1));
                    proof {
                        lemma_count_true_update(visited0, idx as int);
                        lemma_count_true_le_len(visited@);
                        assert(visited@[idx as int]);
                        lemma_count_true_zero(visited@);
                    }
                }
            }
        }

        proof {
            assert forall|l: int|
                0 <= l < n && #[trigger] is_edge_cell(
                    self.bits@,
                    w as int,
                    h as int,
                    l % w as int,
                    l / w as int,
                ) implies visited@[l] && bottoms@[l] == -1 && tops@[l] == 1 by {
                assert(visited@[l]);
            }
        }
        // walk inward from the rim
        let mut head: usize = 0;
        while head < queue.len()
            invariant
                self.wf(),
                w == self.width,
                h == self.height,
                n == self.bits@.len(),
                n < 0x40000000,
                bottoms@.len() == n,
                tops@.len() == n,
                visited@.len() == n,
                head <= queue@.len(),
                forall|l: int| 0 <= l < n ==> #[trigger] tops@[l] >= 1,
                forall|l: int| 0 <= l < n ==> #[trigger] bottoms@[l] <= 0,
                forall|l: int|
                    0 <= l < n && (#[trigger] self.bits@[l]) == Bit::Road ==> tops@[l] == 1,
                forall|l: int|
                    0 <= l < n && !is_island(#[trigger] self.bits@[l]) ==> bottoms@[l] == 0
                        && tops@[l] == 1 && !visited@[l],
                forall|l: int|
                    0 <= l < n && #[trigger] is_edge_cell(
                        self.bits@,
                        w as int,
                        h as int,
                        l % w as int,
                        l / w as int,
                    ) ==> visited@[l] && bottoms@[l] == -1 && tops@[l] == 1,
                forall|m: int|
                    0 <= m < queue@.len() ==> (#[trigger] queue@[m]).0 < w && queue@[m].1 < h
                        && queue@[m].2 <= -1 && queue@[m].2 >= -(count_true(visited@) as int)
                        && queue@[m].3 >= 1 && queue@[m].3 <= count_true(visited@) as int,
                count_true(visited@) <= n,
            decreases visited@.len() as int - count_true(visited@) as int, queue@.len() as int - head as int,
        {
            let ghost cnt0 = count_true(visited@);
            let ghost qlen0 = queue@.len();
            let (x, y, bottom, top) = queue[head];
            head = head + 1;
            let mut neighbors: Vec<(usize, usize)> = Vec::new();
            if x > 0 {
                neighbors.push((x - 1, y));
            } else {
                neighbors.push((w, y));
            }
            neighbors.push((x + 1, y));
            if y > 0 {
                neighbors.push((x, y - 1));
            } else {
                neighbors.push((x, h));
            }
            neighbors.push((x, y + 1));
            shuffle4(&mut rng, &mut neighbors);
            for m in 0..4usize
                invariant
                    self.wf(),
                    w == self.width,
                    h == self.height,
                    n == self.bits@.len(),
                    n < 0x40000000,
                    bottoms@.len() == n,
                    tops@.len() == n,
                    visited@.len() == n,
                    neighbors@.len() == 4,
                    bottom <= -1,
                    top >= 1,
                    bottom >= -(count_true(visited@) as int),
                    top <= count_true(visited@) as int,
                    forall|l: int| 0 <= l < n ==> #[trigger] tops@[l] >= 1,
                    forall|l: int| 0 <= l < n ==> #[trigger] bottoms@[l] <= 0,
                    forall|l: int|
                        0 <= l < n && (#[trigger] self.bits@[l]) == Bit::Road ==> tops@[l] == 1,
                    forall|l: int|
                        0 <= l < n && !is_island(#[trigger] self.bits@[l]) ==> bottoms@[l] == 0
                            && tops@[l] == 1 && !visited@[l],
                    forall|l: int|
                        0 <= l < n && #[trigger] is_edge_cell(
                            self.bits@,
                            w as int,
                            h as int,
                            l % w as int,
                            l / w as int,
                        ) ==> visited@[l] && bottoms@[l] == -1 && tops@[l] == 1,
                    forall|q: int|
                        0 <= q < queue@.len() ==> (#[trigger] queue@[q]).0 < w && queue@[q].1 < h
                            && queue@[q].2 <= -1 && queue@[q].2 >= -(count_true(visited@) as int)
                            && queue@[q].3 >= 1 && queue@[q].3 <= count_true(visited@) as int,
                    count_true(visited@) <= n,
                    count_true(visited@) >= cnt0,
                    queue@.len() >= qlen0,
                    count_true(visited@) == cnt0 ==> queue@.len() == qlen0,
                    head <= queue@.len(),
            {
                let (nx, ny) = neighbors[m];
                if nx >= w || ny >= h {
                } else {
                proof {
                    lemma_grid_index(nx as int, ny as int, w as int, h as int);
                }
                let nidx = ny * w + nx;
                if !is_island_ex(self.bits[nidx]) || visited[nidx] {
                } else {
                let ghost visited0 = visited@;
                let ghost bottoms0 = bottoms@;
                let ghost tops0 = tops@;
                visited.set(nidx, true);
                proof {
                    lemma_count_true_update(visited0, nidx as int);
                    lemma_count_true_le_len(visited@);
                }
                let bottom_step: i32 = if rng_below(&mut rng, 10) < 4 {
                    -1
                } else {
                    0
                };
                let new_bottom = bottom + bottom_step;
                bottoms.set(nidx, new_bottom);
                let new_top: i32 = if self.bits[nidx] == Bit::Road {
                    1
                } else {
                    let r = rng_below(&mut rng, 100);
                    let top_step: i32 = if r < 33 {
                        -1
                    } else if r < 66 {
                        0
                    } else {
                        1
                    };
                    let cand = top + top_step;
                    if cand < 1 {
                        1
                    } else {
                        cand
                    }
                };
                tops.set(nidx, new_top);
                queue.push((nx, ny, new_bottom, new_top));
                proof {
                    assert(is_island(self.bits@[nidx as int]));
                    assert(nidx as int % w as int == nx as int && nidx as int / w as int
                        == ny as int);
                    assert(!is_edge_cell(self.bits@, w as int, h as int, nx as int, ny as int)) by {
                        if is_edge_cell(self.bits@, w as int, h as int, nx as int, ny as int) {
                            assert(visited0[nidx as int]);
                        }
                    }
                }
                }
                }
            }
        }
        proof {
            assert forall|x: int, y: int|
                0 <= x < self.width && 0 <= y < self.height && is_edge_cell(
                    self.bits@,
                    self.width as int,
                    self.height as int,
                    x,
                    y,
                ) implies #[trigger] bottoms@[y * self.width + x] == -1 && tops@[y * self.width + x]
                == 1 by {
                lemma_grid_index(x, y, w as int, h as int);
                let l = y * w as int + x;
                assert(l % w as int == x && l / w as int == y);
                assert(visited@[l] && bottoms@[l] == -1 && tops@[l] == 1);
            }
        }
        HeightMap { bottoms, tops }
    }
}
} // verus!
