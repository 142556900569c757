use vstd::prelude::*;
use crate::grid::{Cell, Grid, Resource};

verus! {

/// `x`, capped at the largest `usize`.
pub open spec fn sat(x: int) -> int {
    if x > usize::MAX {
        usize::MAX as int
    } else {
        x
    }
}

/// Crystal left on the first `k` cells.
pub open spec fn crystal_sum(cells: Seq<Cell>, k: int) -> int
    decreases k,
{
    if k <= 0 {
        0
    } else {
        crystal_sum(cells, k - 1) + if cells[k - 1].resource == Resource::Crystal {
            cells[k - 1].resources as int
        } else {
            0
        }
    }
}

/// Friendly units on the first `k` cells.
pub open spec fn ant_sum(cells: Seq<Cell>, k: int) -> int
    decreases k,
{
    if k <= 0 {
        0
    } else {
        ant_sum(cells, k - 1) + cells[k - 1].ants as int
    }
}

/// What one cell adds to the egg-attractiveness total: its eggs divided by
/// one more than its distance from the friendly base; nothing when the base
/// cannot reach it.
pub open spec fn egg_value(c: Cell, dist: Option<usize>) -> int {
    if c.resource == Resource::Egg {
        match dist {
            Some(d) => c.resources as int / (d as int + 1),
            None => 0,
        }
    } else {
        0
    }
}

/// Egg attractiveness of the first `k` cells.
pub open spec fn egg_sum(cells: Seq<Cell>, dist: Seq<Option<usize>>, k: int) -> int
    decreases k,
{
    if k <= 0 {
        0
    } else {
        egg_sum(cells, dist, k - 1) + egg_value(cells[k - 1], dist[k - 1])
    }
}

/// The aggregates of one turn, each capped at the largest `usize`.
#[derive(Copy, Clone, Debug, PartialEq, Eq, Structural)]
pub struct Totals {
    pub crystals: usize,
    pub egg_value: usize,
    pub ants: usize,
}

fn sat_add(a: usize, b: usize) -> (r: usize)
    ensures
        r == sat(a + b),
{
    if a > usize::MAX - b {
        usize::MAX
    } else {
        a + b
    }
}

/// Crystal stock, egg attractiveness and friendly unit count over the whole
/// board, with `friendly` the distances from the friendly base.
pub fn totals(grid: &Grid, friendly: &Vec<Option<usize>>) -> (r: Totals)
    requires
        friendly@.len() == grid.len(),
    ensures
        r.crystals == sat(crystal_sum(grid.cells@, grid.len())),
        r.egg_value == sat(egg_sum(grid.cells@, friendly@, grid.len())),
        r.ants == sat(ant_sum(grid.cells@, grid.len())),
{
    let n = grid.cells.len();
    let mut crystals: usize = 0;
    let mut eggs: usize = 0;
    let mut ants: usize = 0;
    let mut i: usize = 0;
    while i < n
        invariant
            n == grid.len(),
            friendly@.len() == n,
            i <= n,
            crystals == sat(crystal_sum(grid.cells@, i as int)),
            eggs == sat(egg_sum(grid.cells@, friendly@, i as int)),
            ants == sat(ant_sum(grid.cells@, i as int)),
        decreases n - i,
    {
        let c = grid.cells[i];
        proof {
            assert(crystal_sum(grid.cells@, i as int) >= 0) by {
                lemma_sums_nonneg(grid.cells@, friendly@, i as int);
            }
            lemma_sums_nonneg(grid.cells@, friendly@, i as int);
        }
        if c.resource == Resource::Crystal {
            crystals = sat_add(crystals, c.resources);
        }
        if c.resource == Resource::Egg {
            match friendly[i] {
                Some(d) => {
                    let q: u128 = (c.resources as u128) / (d as u128 + 1);
                    assert(q <= c.resources) by (nonlinear_arith)
                        requires
                            q == (c.resources as int) / (d as int + 1),
                            d as int + 1 >= 1,
                            c.resources as int >= 0,
                    ;
                    assert(egg_value(c, friendly@[i as int]) == q as int);
                    eggs = sat_add(eggs, q as usize);
                },
                None => {},
            }
        }
        ants = sat_add(ants, c.ants);
        i = i + 1;
    }
    Totals { crystals, egg_value: eggs, ants }
}

/// The running sums are never negative.
proof fn lemma_sums_nonneg(cells: Seq<Cell>, dist: Seq<Option<usize>>, k: int)
    ensures
        crystal_sum(cells, k) >= 0,
        egg_sum(cells, dist, k) >= 0,
        ant_sum(cells, k) >= 0,
    decreases k,
{
    if k > 0 {
        lemma_sums_nonneg(cells, dist, k - 1);
        match dist[k - 1] {
            Some(d) => {
                assert(cells[k - 1].resources as int / (d as int + 1) >= 0) by (nonlinear_arith)
                    requires cells[k - 1].resources as int >= 0, d as int + 1 > 0;
            },
            None => {},
        }
    }
}

/// The crystal total the game asks for: half of the crystal on the board at
/// the start.
pub fn goal_of(grid: &Grid) -> (r: usize)
    ensures
        r == sat(crystal_sum(grid.cells@, grid.len())) / 2,
{
    let n = grid.cells.len();
    let mut crystals: usize = 0;
    let mut i: usize = 0;
    while i < n
        invariant
            n == grid.len(),
            i <= n,
            crystals == sat(crystal_sum(grid.cells@, i as int)),
        decreases n - i,
    {
        let c = grid.cells[i];
        proof {
            lemma_sums_nonneg(grid.cells@, Seq::empty(), i as int);
        }
        if c.resource == Resource::Crystal {
            crystals = sat_add(crystals, c.resources);
        }
        i = i + 1;
    }
    crystals / 2
}

} // verus!
