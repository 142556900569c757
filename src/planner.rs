use vstd::prelude::*;
use crate::grid::{Cell, Grid, Player, Resource, all_below};
use crate::distance::{Distances, exact, within};
use crate::mode::{Mode, mode_of, select_mode};
use crate::search::{path_views, paths, shortest_walk};
use crate::tracker::{ant_sum, sat, totals};

verus! {

/// The indices of the cells that are `player`'s bases, in increasing order.
pub fn bases_of(grid: &Grid, player: Player) -> (r: Vec<usize>)
    ensures
        forall|i: int| 0 <= i < r@.len() ==> (#[trigger] r@[i] as int) < grid.len(),
        forall|i: int| 0 <= i < r@.len() ==> grid.cells@[#[trigger] r@[i] as int].base == Some(player),
        forall|v: int|
            0 <= v < grid.len() && #[trigger] grid.cells@[v].base == Some(player) ==> r@.contains(v as usize),
        forall|i: int, j: int| 0 <= i < j < r@.len() ==> r@[i] < r@[j],
{
    let n = grid.cells.len();
    let mut r: Vec<usize> = Vec::new();
    let mut v: usize = 0;
    while v < n
        invariant
            n == grid.len(),
            v <= n,
            forall|i: int| 0 <= i < r@.len() ==> (#[trigger] r@[i] as int) < v,
            forall|i: int| 0 <= i < r@.len() ==> grid.cells@[#[trigger] r@[i] as int].base == Some(player),
            forall|w: int|
                0 <= w < v && #[trigger] grid.cells@[w].base == Some(player) ==> r@.contains(w as usize),
            forall|i: int, j: int| 0 <= i < j < r@.len() ==> r@[i] < r@[j],
        decreases n - v,
    {
        if grid.cells[v].base == Some(player) {
            let ghost before = r@;
            r.push(v);
            proof {
                assert forall|w: int|
                    0 <= w < v + 1 && #[trigger] grid.cells@[w].base == Some(player) implies r@.contains(
                    w as usize,
                ) by {
                    if w < v {
                        let i = choose|i: int| 0 <= i < before.len() && before[i] == w as usize;
                        assert(r@[i] == w as usize);
                    } else {
                        assert(r@[r@.len() - 1] == v);
                    }
                }
            }
        }
        v = v + 1;
    }
    r
}

/// A crystal cell the friendly side can hold: no farther from the friendly
/// base than from the enemy base (an unreachable base counts as infinitely far).
pub open spec fn defensible(f: Option<usize>, e: Option<usize>) -> bool {
    match (f, e) {
        (Some(a), Some(b)) => a <= b,
        (Some(_), None) => true,
        (None, Some(_)) => false,
        (None, None) => true,
    }
}

/// `c` is a candidate resource cell in `mode`.
pub open spec fn eligible(c: Cell, f: Option<usize>, e: Option<usize>, mode: Mode) -> bool {
    &&& c.resources > 0
    &&& match mode {
        Mode::Growth => c.resource == Resource::Egg,
        Mode::Balanced => true,
        Mode::Harvest => c.resource == Resource::Crystal && defensible(f, e),
    }
}

/// The sort key of a candidate: its friendly distance, `n` when unreachable.
pub open spec fn key(f: Option<usize>, n: int) -> int {
    match f {
        Some(d) => d as int,
        None => n,
    }
}

/// Cell `a` comes before cell `b`: closer to the friendly base, or as close
/// and of smaller index.
pub open spec fn before(g: Grid, dists: Distances, a: int, b: int) -> bool {
    let ka = key(dists.friendly@[a], g.len());
    let kb = key(dists.friendly@[b], g.len());
    ka < kb || (ka == kb && a < b)
}

fn is_eligible(grid: &Grid, dists: &Distances, v: usize, mode: Mode) -> (r: bool)
    requires
        (v as int) < grid.len(),
        dists.fits(grid.len()),
    ensures
        r == eligible(grid.cells@[v as int], dists.friendly@[v as int], dists.enemy@[v as int], mode),
{
    let c = grid.cells[v];
    if c.resources == 0 {
        return false;
    }
    match mode {
        Mode::Growth => c.resource == Resource::Egg,
        Mode::Balanced => true,
        Mode::Harvest => {
            c.resource == Resource::Crystal && match (dists.friendly[v], dists.enemy[v]) {
                (Some(a), Some(b)) => a <= b,
                (Some(_), None) => true,
                (None, Some(_)) => false,
                (None, None) => true,
            }
        },
    }
}

/// The candidate cells of `mode`, closest to the friendly base first, ties
/// by index.
pub fn candidates(grid: &Grid, dists: &Distances, mode: Mode) -> (r: Vec<usize>)
    requires
        grid.wf(),
        dists.fits(grid.len()),
    ensures
        forall|i: int| 0 <= i < r@.len() ==> (#[trigger] r@[i] as int) < grid.len(),
        forall|v: int|
            0 <= v < grid.len() ==> (r@.contains(v as usize) <==> eligible(
                #[trigger] grid.cells@[v],
                dists.friendly@[v],
                dists.enemy@[v],
                mode,
            )),
        forall|i: int, j: int|
            0 <= i < j < r@.len() ==> before(*grid, *dists, #[trigger] r@[i] as int, #[trigger] r@[j] as int),
{
    let n = grid.cells.len();
    let mut r: Vec<usize> = Vec::new();
    let mut k: usize = 0;
    while k <= n
        invariant
            n == grid.len(),
            grid.wf(),
            dists.fits(n as int),
            k <= n + 1,
            forall|i: int| 0 <= i < r@.len() ==> (#[trigger] r@[i] as int) < n,
            forall|i: int| 0 <= i < r@.len() ==> key(dists.friendly@[#[trigger] r@[i] as int], n as int) < k,
            forall|v: int|
                0 <= v < n ==> (r@.contains(v as usize) <==> eligible(
                    #[trigger] grid.cells@[v],
                    dists.friendly@[v],
                    dists.enemy@[v],
                    mode,
                ) && key(dists.friendly@[v], n as int) < k),
            forall|i: int, j: int|
                0 <= i < j < r@.len() ==> before(*grid, *dists, #[trigger] r@[i] as int, #[trigger] r@[j] as int),
        decreases n + 1 - k,
    {
        let mut v: usize = 0;
        while v < n
            invariant
                n == grid.len(),
                dists.fits(n as int),
                k <= n,
                v <= n,
                forall|i: int| 0 <= i < r@.len() ==> (#[trigger] r@[i] as int) < n,
                forall|i: int|
                    0 <= i < r@.len() ==> {
                        let kk = key(dists.friendly@[#[trigger] r@[i] as int], n as int);
                        kk < k || (kk == k && (r@[i] as int) < v)
                    },
                forall|w: int|
                    0 <= w < n ==> (r@.contains(w as usize) <==> eligible(
                        #[trigger] grid.cells@[w],
                        dists.friendly@[w],
                        dists.enemy@[w],
                        mode,
                    ) && (key(dists.friendly@[w], n as int) < k || (key(dists.friendly@[w], n as int)
                        == k && w < v))),
                forall|i: int, j: int|
                    0 <= i < j < r@.len() ==> before(
                        *grid,
                        *dists,
                        #[trigger] r@[i] as int,
                        #[trigger] r@[j] as int,
                    ),
            decreases n - v,
        {
            let kv: usize = match dists.friendly[v] {
                Some(d) => d,
                None => n,
            };
            if kv == k && is_eligible(grid, dists, v, mode) {
                let ghost old_r = r@;
                r.push(v);
                proof {
                    assert forall|w: int|
                        0 <= w < n implies (r@.contains(w as usize) <==> eligible(
                            #[trigger] grid.cells@[w],
                            dists.friendly@[w],
                            dists.enemy@[w],
                            mode,
                        ) && (key(dists.friendly@[w], n as int) < k || (key(dists.friendly@[w], n as int)
                            == k && w < v + 1))) by {
                        if w != v as int {
                            if old_r.contains(w as usize) {
                                let i = choose|i: int| 0 <= i < old_r.len() && old_r[i] == w as usize;
                                assert(r@[i] == w as usize);
                            }
                            if r@.contains(w as usize) {
                                let i = choose|i: int| 0 <= i < r@.len() && r@[i] == w as usize;
                                assert(old_r[i] == w as usize);
                            }
                        } else {
                            assert(r@[r@.len() - 1] == v);
                        }
                    }
                }
            } else {
                proof {
                    assert forall|w: int|
                        0 <= w < n implies (r@.contains(w as usize) <==> eligible(
                            #[trigger] grid.cells@[w],
                            dists.friendly@[w],
                            dists.enemy@[w],
                            mode,
                        ) && (key(dists.friendly@[w], n as int) < k || (key(dists.friendly@[w], n as int)
                            == k && w < v + 1))) by {
                        if w == v as int && r@.contains(w as usize) {
                            let i = choose|i: int| 0 <= i < r@.len() && r@[i] == w as usize;
                        }
                    }
                }
            }
            v = v + 1;
        }
        k = k + 1;
    }
    proof {
        assert forall|v: int| 0 <= v < n implies key(dists.friendly@[v], n as int) < k by {
            if dists.friendly@[v] is Some {
            }
        }
    }
    r
}

/// Some egg cell still holds eggs.
pub open spec fn eggs_exist(g: Grid) -> bool {
    exists|v: int|
        0 <= v < g.len() && (#[trigger] g.cells@[v]).resource == Resource::Egg && g.cells@[v].resources > 0
}

/// Whether some egg cell still holds eggs.
pub fn has_eggs(grid: &Grid) -> (r: bool)
    ensures
        r == eggs_exist(*grid),
{
    let n = grid.cells.len();
    let mut v: usize = 0;
    while v < n
        invariant
            n == grid.len(),
            v <= n,
            forall|w: int|
                0 <= w < v ==> !((#[trigger] grid.cells@[w]).resource == Resource::Egg
                    && grid.cells@[w].resources > 0),
        decreases n - v,
    {
        let c = grid.cells[v];
        if c.resource == Resource::Egg && c.resources > 0 {
            assert(grid.cells@[v as int] == c);
            return true;
        }
        v = v + 1;
    }
    false
}

/// Crystal still to harvest: the goal less what is harvested, never below 0.
pub open spec fn needed_of(goal: int, harvested: int) -> int {
    if harvested >= goal {
        0
    } else {
        goal - harvested
    }
}

/// Position of the first egg cell in `s` from position `i` on; -1 if none.
pub open spec fn first_egg_from(g: Grid, s: Seq<usize>, i: int) -> int
    decreases s.len() - i,
{
    if i < 0 || i >= s.len() {
        -1
    } else if g.cells@[s[i] as int].resource == Resource::Egg {
        i
    } else {
        first_egg_from(g, s, i + 1)
    }
}

/// The order in which candidates are decided: the first egg cell, if any,
/// moved to the front; the rest kept in order.
pub open spec fn priority_order(g: Grid, s: Seq<usize>) -> Seq<usize> {
    let e = first_egg_from(g, s, 0);
    if e < 0 {
        s
    } else {
        seq![s[e]] + s.remove(e)
    }
}

/// Positions that hold no egg cell can be skipped when looking for the first one.
proof fn lemma_first_egg_skip(g: Grid, s: Seq<usize>, j: int, i: int)
    requires
        0 <= j <= i <= s.len(),
        forall|k: int| j <= k < i ==> g.cells@[#[trigger] s[k] as int].resource != Resource::Egg,
    ensures
        first_egg_from(g, s, j) == first_egg_from(g, s, i),
    decreases i - j,
{
    if j < i {
        lemma_first_egg_skip(g, s, j + 1, i);
    }
}

/// The candidates in deciding order, and whether an egg cell leads.
fn egg_first_order(grid: &Grid, cands: &Vec<usize>) -> (r: (Vec<usize>, bool))
    requires
        forall|i: int| 0 <= i < cands@.len() ==> (#[trigger] cands@[i] as int) < grid.len(),
    ensures
        r.0@ == priority_order(*grid, cands@),
        r.1 == (first_egg_from(*grid, cands@, 0) >= 0),
{
    let len = cands.len();
    let mut e: usize = 0;
    while e < len
        invariant
            len == cands@.len(),
            e <= len,
            forall|i: int| 0 <= i < cands@.len() ==> (#[trigger] cands@[i] as int) < grid.len(),
            forall|k: int| 0 <= k < e ==> grid.cells@[#[trigger] cands@[k] as int].resource != Resource::Egg,
        ensures
            e <= len,
            forall|k: int| 0 <= k < e ==> grid.cells@[#[trigger] cands@[k] as int].resource != Resource::Egg,
            e == len || grid.cells@[cands@[e as int] as int].resource == Resource::Egg,
        decreases len - e,
    {
        if grid.cells[cands[e]].resource == Resource::Egg {
            break;
        }
        e = e + 1;
    }
    assert(e == len || first_egg_from(*grid, cands@, e as int) == e);
    proof {
        lemma_first_egg_skip(*grid, cands@, 0, e as int);
    }
    if e == len {
        let mut order: Vec<usize> = Vec::new();
        let mut i: usize = 0;
        while i < len
            invariant
                len == cands@.len(),
                i <= len,
                order@ == cands@.subrange(0, i as int),
            decreases len - i,
        {
            order.push(cands[i]);
            assert(cands@.subrange(0, i + 1) == cands@.subrange(0, i as int).push(cands@[i as int]));
            i = i + 1;
        }
        assert(cands@.subrange(0, len as int) == cands@);
        return (order, false);
    }
    let mut order: Vec<usize> = Vec::new();
    order.push(cands[e]);
    let mut i: usize = 0;
    while i < len
        invariant
            len == cands@.len(),
            e < len,
            i <= len,
            i <= e ==> order@ == seq![cands@[e as int]] + cands@.subrange(0, i as int),
            i > e ==> order@ == seq![cands@[e as int]] + cands@.subrange(0, e as int) + cands@.subrange(
                e + 1,
                i as int,
            ),
        decreases len - i,
    {
        if i != e {
            order.push(cands[i]);
            if i < e {
                assert(cands@.subrange(0, i + 1) == cands@.subrange(0, i as int).push(cands@[i as int]));
            } else {
                assert(cands@.subrange(e + 1, i + 1) == cands@.subrange(e + 1, i as int).push(
                    cands@[i as int],
                ));
            }
        } else {
            assert(cands@.subrange(e + 1, e + 1) == Seq::<usize>::empty());
        }
        i = i + 1;
    }
    assert(order@ == seq![cands@[e as int]] + cands@.remove(e as int));
    (order, true)
}

/// The outcome of deciding one candidate.
#[derive(Copy, Clone, Debug, PartialEq, Eq, Structural)]
pub struct Decision {
    /// The candidate cell.
    pub cell: usize,
    /// Steps of its shortest connecting path from the claimed set; `None`
    /// when no path reaches it.
    pub cost: Option<usize>,
    /// Whether the budget allowed it.
    pub committed: bool,
    /// The claimed cell its connecting path starts from.
    pub from: usize,
}

/// `p` is the only shortest walk from `before` that has its length and ends
/// where it ends.
pub open spec fn only_shortest(g: Grid, before: Seq<usize>, p: Seq<usize>) -> bool {
    forall|q: Seq<usize>|
        shortest_walk(g, before, q) && q.len() == p.len() && q.last() == p.last() ==> q == p
}

/// How the claimed list grew by committing `cell` at `c` steps from `before`:
/// by the connecting path after its first cell when that path is the only
/// shortest one, else by `cell` alone.
pub open spec fn merged(
    g: Grid,
    before: Seq<usize>,
    after: Seq<usize>,
    cell: usize,
    c: nat,
    from: usize,
) -> bool {
    exists|p: Seq<usize>|
        {
            &&& #[trigger] shortest_walk(g, before, p)
            &&& p.len() == c + 1
            &&& p.last() == cell
            &&& p[0] == from
            &&& if only_shortest(g, before, p) {
                after == before + p.subrange(1, p.len() as int)
            } else {
                after == before.push(cell)
            }
        }
}

/// One decision against the claimed list `before`, which became `after`.
pub open spec fn step_ok(g: Grid, before: Seq<usize>, after: Seq<usize>, d: Decision) -> bool {
    &&& (d.cost is None <==> forall|k: nat| !within(g, before, k, d.cell as int))
    &&& (d.cost matches Some(c) ==> exact(g, before, c as nat, d.cell as int))
    &&& (d.committed ==> merged(g, before, after, d.cell, d.cost->Some_0 as nat, d.from))
    &&& (!d.committed ==> after == before)
}

fn single_mask(n: usize, cell: usize) -> (r: Vec<bool>)
    ensures
        r@.len() == n,
        forall|v: int| 0 <= v < n ==> (#[trigger] r@[v] <==> v == cell),
{
    let mut r: Vec<bool> = Vec::new();
    let mut v: usize = 0;
    while v < n
        invariant
            v <= n,
            r@.len() == v,
            forall|w: int| 0 <= w < v ==> (#[trigger] r@[w] <==> w == cell),
        decreases n - v,
    {
        r.push(v == cell);
        v = v + 1;
    }
    r
}

/// Decides one candidate: finds its shortest connecting paths from the claimed
/// cells and commits it when its cost is below `budget` (at most `budget`
/// when `inclusive`), growing `claimed`.
fn decide(grid: &Grid, claimed: &mut Vec<usize>, cell: usize, budget: usize, inclusive: bool) -> (r:
    Decision)
    requires
        grid.wf(),
        all_below(old(claimed)@, grid.len()),
        (cell as int) < grid.len(),
    ensures
        all_below(final(claimed)@, grid.len()),
        r.cell == cell,
        step_ok(*grid, old(claimed)@, final(claimed)@, r),
        r.committed <==> (r.cost matches Some(c) && if inclusive {
            c <= budget
        } else {
            c < budget
        }),
{
    let n = grid.cells.len();
    let ghost before = claimed@;
    let mask = single_mask(n, cell);
    let ps = paths(grid, claimed, &mask);
    if ps.len() == 0 {
        proof {
            assert forall|k: nat| !within(*grid, before, k, cell as int) by {
                assert(mask@[cell as int]);
            }
        }
        return Decision { cell, cost: None, committed: false, from: cell };
    }
    let p = &ps[0];
    let c = p.len() - 1;
    let from = p[0];
    proof {
        assert(shortest_walk(*grid, before, ps@[0]@));
        assert(mask@[p@.last() as int]);
        assert(exact(*grid, before, c as nat, p@[c as int] as int));
        assert(within(*grid, before, c as nat, cell as int));
        assert(!(forall|k: nat| !within(*grid, before, k, cell as int)));
    }
    let ok = if inclusive {
        c <= budget
    } else {
        c < budget
    };
    if !ok {
        let r = Decision { cell, cost: Some(c), committed: false, from };
        assert(within(*grid, before, c as nat, r.cell as int));
        return r;
    }
    if ps.len() == 1 {
        let mut j: usize = 1;
        proof {
            assert forall|i: int| 0 <= i < p@.len() implies (#[trigger] p@[i] as int) < grid.len() by {
                assert(exact(*grid, before, i as nat, p@[i] as int));
                crate::distance::lemma_within_bounds(*grid, before, i as nat, p@[i] as int);
            }
        }
        while j < p.len()
            invariant
                1 <= j <= p@.len(),
                claimed@ == before + p@.subrange(1, j as int),
                all_below(before, grid.len()),
                forall|i: int| 0 <= i < p@.len() ==> (#[trigger] p@[i] as int) < grid.len(),
            decreases p@.len() - j,
        {
            claimed.push(p[j]);
            assert(p@.subrange(1, j + 1) == p@.subrange(1, j as int).push(p@[j as int]));
            j = j + 1;
        }
        proof {
            assert forall|q: Seq<usize>|
                shortest_walk(*grid, before, q) && q.len() == p@.len() && q.last() == p@.last() implies q
                == p@ by {
                assert(mask@[q.last() as int]);
                assert(path_views(ps@).contains(q));
                let m = choose|m: int| 0 <= m < path_views(ps@).len() && path_views(ps@)[m] == q;
                assert(ps@[m]@ == q);
            }
            assert(merged(*grid, before, claimed@, cell, c as nat, from));
        }
    } else {
        claimed.push(cell);
        proof {
            assert(shortest_walk(*grid, before, ps@[1]@));
            assert(mask@[ps@[1]@.last() as int]);
            assert(path_views(ps@)[0] != path_views(ps@)[1]);
            assert(!only_shortest(*grid, before, p@));
        }
        assert(merged(*grid, before, claimed@, cell, c as nat, from));
    }
    Decision { cell, cost: Some(c), committed: true, from }
}

/// What committing `d` cost: its path's steps, nothing if not committed.
pub open spec fn charge(d: Decision) -> int {
    if d.committed {
        match d.cost {
            Some(c) => c as int,
            None => 0,
        }
    } else {
        0
    }
}

/// Units spent by the first `i` decisions.
pub open spec fn spent(ds: Seq<Decision>, i: int) -> int
    decreases i,
{
    if i <= 0 {
        0
    } else {
        spent(ds, i - 1) + charge(ds[i - 1])
    }
}

/// Decision `i` fits the budget left before it: its cost is below what is
/// left, or at most what is left for a leading egg cell.
pub open spec fn affordable(ds: Seq<Decision>, i: int, units: int, egg_first: bool) -> bool {
    match ds[i].cost {
        Some(c) => if i == 0 && egg_first {
            c <= units - spent(ds, i)
        } else {
            c < units - spent(ds, i)
        },
        None => false,
    }
}

/// Each decision is committed exactly when it is affordable.
pub open spec fn budget_rule(ds: Seq<Decision>, units: int, egg_first: bool) -> bool {
    forall|i: int| 0 <= i < ds.len() ==> (#[trigger] ds[i].committed <==> affordable(ds, i, units, egg_first))
}

/// Under the budget rule, no committed path costs more than the units left
/// at the time it is decided, and all committed paths together, the leading
/// egg cell's included, cost at most the units there were.
pub proof fn lemma_budget_never_exceeded(ds: Seq<Decision>, units: int, egg_first: bool)
    requires
        units >= 0,
        budget_rule(ds, units, egg_first),
    ensures
        forall|i: int|
            0 <= i < ds.len() && #[trigger] ds[i].committed ==> charge(ds[i]) <= units - spent(ds, i),
        0 <= spent(ds, ds.len() as int) <= units,
    decreases ds.len(),
{
    if ds.len() > 0 {
        let init = ds.drop_last();
        assert forall|i: int| 0 <= i <= init.len() implies spent(init, i) == spent(ds, i) by {
            lemma_spent_prefix(ds, init, i);
        }
        assert forall|i: int| 0 <= i < init.len() implies (#[trigger] init[i].committed <==> affordable(
            init,
            i,
            units,
            egg_first,
        )) by {
            assert(init[i] == ds[i]);
            assert(ds[i].committed <==> affordable(ds, i, units, egg_first));
        }
        lemma_budget_never_exceeded(init, units, egg_first);
        let last = ds.len() - 1;
        assert(ds[last].committed <==> affordable(ds, last, units, egg_first));
        assert forall|i: int|
            0 <= i < ds.len() && #[trigger] ds[i].committed implies charge(ds[i]) <= units - spent(ds, i) by {
            if i < last {
                assert(init[i] == ds[i]);
            }
        }
    }
}

/// Spending over a prefix depends only on the prefix.
proof fn lemma_spent_prefix(ds: Seq<Decision>, init: Seq<Decision>, i: int)
    requires
        init.len() <= ds.len(),
        forall|k: int| 0 <= k < init.len() ==> init[k] == ds[k],
        0 <= i <= init.len(),
    ensures
        spent(init, i) == spent(ds, i),
    decreases i,
{
    if i > 0 {
        lemma_spent_prefix(ds, init, i - 1);
        assert(init[i - 1] == ds[i - 1]);
    }
}

/// The result of one turn's planning pass.
pub struct Plan {
    pub mode: Mode,
    /// Total friendly units: the budget the pass started with.
    pub units: usize,
    /// The candidate cells, closest first.
    pub candidates: Vec<usize>,
    /// Whether an egg cell was decided first.
    pub egg_first: bool,
    /// One decision per candidate, in deciding order.
    pub decisions: Vec<Decision>,
    /// The claimed cells: the bases, then what each commitment added.
    pub claimed: Vec<usize>,
    /// Units left.
    pub budget: usize,
    /// The claimed list before each decision, and after the last.
    pub history: Ghost<Seq<Seq<usize>>>,
}

/// Plans one turn: picks the mode, orders the candidates, and commits them
/// greedily while the friendly units last.
pub fn plan_turn(
    grid: &Grid,
    dists: &Distances,
    bases: &Vec<usize>,
    threshold: usize,
    goal: usize,
    harvested: usize,
) -> (plan: Plan)
    requires
        grid.wf(),
        dists.fits(grid.len()),
        all_below(bases@, grid.len()),
    ensures
        plan.units == sat(ant_sum(grid.cells@, grid.len())),
        plan.mode == mode_of(
            needed_of(goal as int, harvested as int),
            plan.units as int,
            threshold as int,
            eggs_exist(*grid),
        ),
        forall|i: int| 0 <= i < plan.candidates@.len() ==> (#[trigger] plan.candidates@[i] as int) < grid.len(),
        forall|v: int|
            0 <= v < grid.len() ==> (plan.candidates@.contains(v as usize) <==> eligible(
                #[trigger] grid.cells@[v],
                dists.friendly@[v],
                dists.enemy@[v],
                plan.mode,
            )),
        forall|i: int, j: int|
            0 <= i < j < plan.candidates@.len() ==> before(
                *grid,
                *dists,
                #[trigger] plan.candidates@[i] as int,
                #[trigger] plan.candidates@[j] as int,
            ),
        plan.egg_first == (first_egg_from(*grid, plan.candidates@, 0) >= 0),
        plan.decisions@.len() == plan.candidates@.len(),
        forall|i: int|
            0 <= i < plan.decisions@.len() ==> (#[trigger] plan.decisions@[i]).cell == priority_order(
                *grid,
                plan.candidates@,
            )[i],
        budget_rule(plan.decisions@, plan.units as int, plan.egg_first),
        plan.budget == plan.units - spent(plan.decisions@, plan.decisions@.len() as int),
        plan.history@.len() == plan.decisions@.len() + 1,
        plan.history@[0] == bases@,
        plan.history@.last() == plan.claimed@,
        forall|i: int|
            0 <= i < plan.decisions@.len() ==> step_ok(
                *grid,
                plan.history@[i],
                plan.history@[i + 1],
                #[trigger] plan.decisions@[i],
            ),
{
    let n = grid.cells.len();
    let units = totals(grid, &dists.friendly).ants;
    let needed: usize = if harvested >= goal {
        0
    } else {
        goal - harvested
    };
    let eggs = has_eggs(grid);
    let mode = select_mode(needed, units, threshold, eggs);
    let cands = candidates(grid, dists, mode);
    let (order, egg_first) = egg_first_order(grid, &cands);
    proof {
        let e = first_egg_from(*grid, cands@, 0);
        if e >= 0 {
            lemma_first_egg_in_range(*grid, cands@, 0);
        }
        assert(order@.len() == cands@.len());
        assert forall|i: int| 0 <= i < order@.len() implies (#[trigger] order@[i] as int) < n by {
            if e >= 0 {
                if i > 0 {
                    assert(order@[i] == cands@.remove(e)[i - 1]);
                    if i - 1 < e {
                        assert(cands@.remove(e)[i - 1] == cands@[i - 1]);
                    } else {
                        assert(cands@.remove(e)[i - 1] == cands@[i]);
                    }
                }
            }
        }
    }
    let mut claimed: Vec<usize> = Vec::new();
    let mut b: usize = 0;
    while b < bases.len()
        invariant
            b <= bases@.len(),
            claimed@ == bases@.subrange(0, b as int),
        decreases bases@.len() - b,
    {
        claimed.push(bases[b]);
        assert(bases@.subrange(0, b + 1) == bases@.subrange(0, b as int).push(bases@[b as int]));
        b = b + 1;
    }
    assert(bases@.subrange(0, b as int) == bases@);
    let mut budget: usize = units;
    let mut decisions: Vec<Decision> = Vec::new();
    let ghost mut history: Seq<Seq<usize>> = seq![claimed@];
    let mut i: usize = 0;
    while i < order.len()
        invariant
            grid.wf(),
            n == grid.len(),
            i <= order@.len(),
            forall|k: int| 0 <= k < order@.len() ==> (#[trigger] order@[k] as int) < n,
            all_below(claimed@, n as int),
            decisions@.len() == i,
            forall|k: int| 0 <= k < i ==> (#[trigger] decisions@[k]).cell == order@[k],
            budget_rule(decisions@, units as int, egg_first),
            budget == units - spent(decisions@, i as int),
            history.len() == i + 1,
            history[0] == bases@,
            history.last() == claimed@,
            forall|k: int|
                0 <= k < i ==> step_ok(*grid, history[k], history[k + 1], #[trigger] decisions@[k]),
        decreases order@.len() - i,
    {
        let inclusive = i == 0 && egg_first;
        let ghost before = claimed@;
        let d = decide(grid, &mut claimed, order[i], budget, inclusive);
        if d.committed {
            budget = budget - d.cost.unwrap();
        }
        let ghost old_ds = decisions@;
        decisions.push(d);
        proof {
            assert(forall|k: int| 0 <= k < old_ds.len() ==> old_ds[k] == decisions@[k]);
            history = history.push(claimed@);
            assert(spent(decisions@, i as int) == spent(old_ds, i as int)) by {
                lemma_spent_prefix(decisions@, old_ds, i as int);
            }
            assert forall|k: int| 0 <= k < i + 1 implies (#[trigger] decisions@[k].committed <==> affordable(
                decisions@,
                k,
                units as int,
                egg_first,
            )) by {
                if k < i {
                    assert(decisions@[k] == old_ds[k]);
                    assert(old_ds[k].committed <==> affordable(old_ds, k, units as int, egg_first));
                    assert(spent(decisions@, k) == spent(old_ds, k)) by {
                        lemma_spent_prefix(decisions@, old_ds, k);
                    }
                }
            }
            assert forall|k: int| 0 <= k < i + 1 implies step_ok(
                *grid,
                history[k],
                history[k + 1],
                #[trigger] decisions@[k],
            ) by {
                if k < i {
                    assert(decisions@[k] == old_ds[k]);
                }
            }
        }
        i = i + 1;
    }
    Plan {
        mode,
        units,
        candidates: cands,
        egg_first,
        decisions,
        claimed,
        budget,
        history: Ghost(history),
    }
}

/// A found egg position lies inside the sequence.
proof fn lemma_first_egg_in_range(g: Grid, s: Seq<usize>, i: int)
    requires
        first_egg_from(g, s, i) >= 0,
    ensures
        i <= first_egg_from(g, s, i) < s.len(),
    decreases s.len() - i,
{
    if 0 <= i < s.len() && g.cells@[s[i] as int].resource != Resource::Egg {
        lemma_first_egg_in_range(g, s, i + 1);
    }
}

/// Strength of every beacon and link the planner asks for.
pub const STRENGTH: usize = 1;

/// An abstract command for the action sink.
#[derive(Copy, Clone, Debug, PartialEq, Eq, Structural)]
pub enum Command {
    /// Do nothing this turn.
    Idle,
    /// Reinforce a cell with the given strength.
    Reinforce(usize, usize),
    /// Reinforce the connection from one cell to another with the given strength.
    Connect(usize, usize, usize),
    /// Show the turn's mode.
    Announce(Mode),
}

/// One link per committed decision among the first `i`, in order.
pub open spec fn links(ds: Seq<Decision>, i: int) -> Seq<Command>
    decreases i,
{
    if i <= 0 {
        Seq::empty()
    } else if ds[i - 1].committed {
        links(ds, i - 1).push(Command::Connect(ds[i - 1].from, ds[i - 1].cell, STRENGTH))
    } else {
        links(ds, i - 1)
    }
}

/// One beacon per base.
pub open spec fn beacons(bases: Seq<usize>) -> Seq<Command> {
    bases.map_values(|b: usize| Command::Reinforce(b, STRENGTH))
}

/// The turn's commands: idle when nothing was committed; else the mode, a
/// beacon on each base, and a link to each committed cell.
pub open spec fn command_list(mode: Mode, bases: Seq<usize>, ds: Seq<Decision>) -> Seq<Command> {
    let l = links(ds, ds.len() as int);
    if l.len() == 0 {
        seq![Command::Idle]
    } else {
        seq![Command::Announce(mode)] + beacons(bases) + l
    }
}

/// Renders a plan as the turn's commands.
pub fn commands(plan: &Plan, bases: &Vec<usize>) -> (r: Vec<Command>)
    ensures
        r@ == command_list(plan.mode, bases@, plan.decisions@),
{
    let ds = &plan.decisions;
    let mut l: Vec<Command> = Vec::new();
    let mut i: usize = 0;
    while i < ds.len()
        invariant
            i <= ds@.len(),
            l@ == links(ds@, i as int),
        decreases ds@.len() - i,
    {
        let d = ds[i];
        if d.committed {
            l.push(Command::Connect(d.from, d.cell, STRENGTH));
        }
        i = i + 1;
    }
    if l.len() == 0 {
        let mut r: Vec<Command> = Vec::new();
        r.push(Command::Idle);
        return r;
    }
    let mut r: Vec<Command> = Vec::new();
    r.push(Command::Announce(plan.mode));
    let mut b: usize = 0;
    while b < bases.len()
        invariant
            b <= bases@.len(),
            r@ == seq![Command::Announce(plan.mode)] + beacons(bases@.subrange(0, b as int)),
        decreases bases@.len() - b,
    {
        r.push(Command::Reinforce(bases[b], STRENGTH));
        assert(beacons(bases@.subrange(0, b + 1)) == beacons(bases@.subrange(0, b as int)).push(
            Command::Reinforce(bases@[b as int], STRENGTH),
        ));
        b = b + 1;
    }
    assert(bases@.subrange(0, b as int) == bases@);
    let mut k: usize = 0;
    while k < l.len()
        invariant
            k <= l@.len(),
            r@ == seq![Command::Announce(plan.mode)] + beacons(bases@) + l@.subrange(0, k as int),
        decreases l@.len() - k,
    {
        r.push(l[k]);
        assert(l@.subrange(0, k + 1) == l@.subrange(0, k as int).push(l@[k as int]));
        k = k + 1;
    }
    assert(l@.subrange(0, k as int) == l@);
    r
}

} // verus!
