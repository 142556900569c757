use vstd::prelude::*;
use vstd::set_lib::{lemma_int_range, lemma_len_subset, set_int_range};
use crate::grid::{Grid, NO_NEIGHBOR, SLOTS, all_below, slot_ok, slots_ok};

verus! {

/// `v` is one of the cells listed in `s`.
pub open spec fn is_seed(s: Seq<usize>, v: int) -> bool {
    exists|i: int| 0 <= i < s.len() && s[i] as int == v
}

/// A walk of at most `k` steps leads from a cell listed in `s` to the cell `v`.
pub open spec fn within(g: Grid, s: Seq<usize>, k: nat, v: int) -> bool
    decreases k,
{
    if k == 0 {
        0 <= v < g.len() && is_seed(s, v)
    } else {
        within(g, s, (k - 1) as nat, v) || exists|u: int|
            within(g, s, (k - 1) as nat, u) && #[trigger] g.edge(u, v)
    }
}

/// The fewest steps from a cell listed in `s` to `v` is exactly `k`.
pub open spec fn exact(g: Grid, s: Seq<usize>, k: nat, v: int) -> bool {
    within(g, s, k, v) && (k == 0 || !within(g, s, (k - 1) as nat, v))
}

/// `f` gives, for each cell, the fewest steps from a cell listed in `s`, and
/// `None` exactly for the cells that no walk from `s` reaches.
pub open spec fn is_distance_field(g: Grid, s: Seq<usize>, f: Seq<Option<usize>>) -> bool {
    &&& f.len() == g.len()
    &&& forall|v: int, k: nat|
        0 <= v < g.len() ==> (f[v] == Some(k as usize) && k <= usize::MAX <==> #[trigger] exact(g, s, k, v))
    &&& forall|v: int|
        0 <= v < g.len() ==> (#[trigger] f[v] is None <==> forall|k: nat| !within(g, s, k, v))
    &&& forall|v: int| 0 <= v < g.len() ==> (#[trigger] f[v] matches Some(k) ==> (k as int) < g.len())
}

/// The cells within `k` steps of `s`.
pub open spec fn reach_set(g: Grid, s: Seq<usize>, k: nat) -> Set<int> {
    Set::new(|v: int| 0 <= v < g.len() && within(g, s, k, v))
}

/// A cell within some number of steps is a cell of the grid.
pub proof fn lemma_within_bounds(g: Grid, s: Seq<usize>, k: nat, v: int)
    requires
        g.wf(),
        within(g, s, k, v),
    ensures
        0 <= v < g.len(),
    decreases k,
{
    if k > 0 {
        if !within(g, s, (k - 1) as nat, v) {
            let u = choose|u: int| within(g, s, (k - 1) as nat, u) && #[trigger] g.edge(u, v);
            let j = choose|j: int| 0 <= j < 6 && #[trigger] g.cells@[u].adj@[j] as int == v;
            assert(slot_ok(g.cells@[u].adj@[j], g.len()));
        } else {
            lemma_within_bounds(g, s, (k - 1) as nat, v);
        }
    }
}

/// Within `j` steps is within any larger number of steps.
pub proof fn lemma_within_mono(g: Grid, s: Seq<usize>, j: nat, k: nat, v: int)
    requires
        j <= k,
        within(g, s, j, v),
    ensures
        within(g, s, k, v),
    decreases k,
{
    if j < k {
        lemma_within_mono(g, s, j, (k - 1) as nat, v);
    }
}

/// The fewest number of steps to a cell is unique.
pub proof fn lemma_exact_unique(g: Grid, s: Seq<usize>, j: nat, k: nat, v: int)
    requires
        exact(g, s, j, v),
        exact(g, s, k, v),
    ensures
        j == k,
{
    if j < k {
        lemma_within_mono(g, s, j, (k - 1) as nat, v);
    }
    if k < j {
        lemma_within_mono(g, s, k, (j - 1) as nat, v);
    }
}

/// A cell one step from a cell within `k` steps is within `k + 1` steps.
pub proof fn lemma_within_step(g: Grid, s: Seq<usize>, k: nat, u: int, v: int)
    requires
        within(g, s, k, u),
        g.edge(u, v),
    ensures
        within(g, s, k + 1, v),
{
    assert(within(g, s, ((k + 1) - 1) as nat, u));
}

/// Once a layer adds nothing, no later one does.
pub proof fn lemma_stable(g: Grid, s: Seq<usize>, d: nat, k: nat, v: int)
    requires
        d <= k,
        forall|w: int| within(g, s, d + 1, w) ==> within(g, s, d, w),
        within(g, s, k, v),
    ensures
        within(g, s, d, v),
    decreases k,
{
    if k > d {
        if within(g, s, (k - 1) as nat, v) {
            lemma_stable(g, s, d, (k - 1) as nat, v);
        } else {
            let u = choose|u: int| within(g, s, (k - 1) as nat, u) && #[trigger] g.edge(u, v);
            lemma_stable(g, s, d, (k - 1) as nat, u);
            lemma_within_step(g, s, d, u, v);
        }
    }
}

/// The cells within `k` steps are a finite set of at most `len` cells.
pub proof fn lemma_reach_set_len(g: Grid, s: Seq<usize>, k: nat)
    ensures
        reach_set(g, s, k).finite(),
        reach_set(g, s, k).len() <= g.len(),
{
    lemma_int_range(0, g.len());
    lemma_len_subset(reach_set(g, s, k), set_int_range(0, g.len()));
}

/// When no cell is at exactly `d` steps, every reachable cell is within `d - 1`.
pub proof fn lemma_no_layer(g: Grid, s: Seq<usize>, d: nat)
    requires
        g.wf(),
        forall|v: int| 0 <= v < g.len() ==> !exact(g, s, d, v),
    ensures
        forall|v: int, k: nat| #[trigger] within(g, s, k, v) ==> d > 0 && within(g, s, (d - 1) as nat, v),
{
    let e: nat = if d == 0 { 0 } else { (d - 1) as nat };
    assert forall|w: int| #[trigger] within(g, s, e + 1, w) implies within(g, s, e, w) by {
        if d == 0 {
            if !within(g, s, 0, w) {
                assert(within(g, s, ((e + 1) - 1) as nat, w) || exists|u: int|
                    within(g, s, ((e + 1) - 1) as nat, u) && #[trigger] g.edge(u, w));
                let u = choose|u: int| within(g, s, 0, u) && #[trigger] g.edge(u, w);
                lemma_within_bounds(g, s, 0, u);
                assert(exact(g, s, 0, u));
            }
        } else {
            assert(e + 1 == d);
            lemma_within_bounds(g, s, d, w);
            assert(!exact(g, s, d, w));
        }
    }
    assert forall|v: int, k: nat| #[trigger] within(g, s, k, v) implies d > 0 && within(
        g,
        s,
        (d - 1) as nat,
        v,
    ) by {
        if k >= e {
            lemma_stable(g, s, e, k, v);
        } else {
            lemma_within_mono(g, s, k, e, v);
        }
        lemma_within_bounds(g, s, e, v);
        if d == 0 {
            assert(exact(g, s, 0, v));
        }
    }
}

/// A non-empty layer at `d + 1` steps holds a cell beyond those within `d`.
pub proof fn lemma_layer_growth(g: Grid, s: Seq<usize>, d: nat, x: int)
    requires
        g.wf(),
        exact(g, s, d + 1, x),
    ensures
        reach_set(g, s, d + 1).len() >= reach_set(g, s, d).len() + 1,
        reach_set(g, s, d + 1).len() <= g.len(),
{
    lemma_reach_set_len(g, s, d);
    lemma_reach_set_len(g, s, d + 1);
    lemma_within_bounds(g, s, d + 1, x);
    assert forall|v: int| reach_set(g, s, d).insert(x).contains(v) implies reach_set(
        g,
        s,
        d + 1,
    ).contains(v) by {
        if v != x {
            lemma_within_mono(g, s, d, d + 1, v);
        }
    }
    lemma_len_subset(reach_set(g, s, d).insert(x), reach_set(g, s, d + 1));
}

/// The first layer is non-empty when some cell is listed.
pub proof fn lemma_first_layer(g: Grid, s: Seq<usize>, x: int)
    requires
        g.wf(),
        exact(g, s, 0, x),
    ensures
        reach_set(g, s, 0).len() >= 1,
        reach_set(g, s, 0).len() <= g.len(),
{
    lemma_reach_set_len(g, s, 0);
    assert(reach_set(g, s, 0).contains(x));
    lemma_len_subset(set![x], reach_set(g, s, 0));
}

/// Advances a breadth-first search by one layer: `frontier` holds the cells
/// at exactly `d` steps, `visited` marks those within `d` steps. Afterwards
/// `visited` marks those within `d + 1` steps, and the result lists those at
/// exactly `d + 1` steps, each once.
pub(crate) fn next_layer(
    g: &Grid,
    frontier: &Vec<usize>,
    visited: &mut Vec<bool>,
    Ghost(s): Ghost<Seq<usize>>,
    Ghost(d): Ghost<nat>,
) -> (next: Vec<usize>)
    requires
        g.wf(),
        old(visited)@.len() == g.len(),
        forall|v: int| 0 <= v < g.len() ==> (old(visited)@[v] <==> within(*g, s, d, v)),
        forall|i: int| 0 <= i < frontier@.len() ==> exact(*g, s, d, #[trigger] frontier@[i] as int),
        forall|v: usize| (v as int) < g.len() && exact(*g, s, d, v as int) ==> #[trigger] frontier@.contains(v),
    ensures
        final(visited)@.len() == g.len(),
        forall|v: int| 0 <= v < g.len() ==> (final(visited)@[v] <==> within(*g, s, d + 1, v)),
        forall|i: int| 0 <= i < next@.len() ==> exact(*g, s, d + 1, #[trigger] next@[i] as int),
        forall|v: usize| (v as int) < g.len() && exact(*g, s, d + 1, v as int) ==> #[trigger] next@.contains(v),
        next@.no_duplicates(),
{
    let n = g.cells.len();
    proof {
        assert forall|i: int| 0 <= i < frontier@.len() implies (#[trigger] frontier@[i] as int) < n by {
            lemma_within_bounds(*g, s, d, frontier@[i] as int);
        }
    }
    let mut next: Vec<usize> = Vec::new();
    let mut i: usize = 0;
    while i < frontier.len()
        invariant
            g.wf(),
            n == g.len(),
            i <= frontier@.len(),
            visited@.len() == n,
            forall|i: int| 0 <= i < frontier@.len() ==> exact(*g, s, d, #[trigger] frontier@[i] as int),
            forall|i: int| 0 <= i < frontier@.len() ==> (#[trigger] frontier@[i] as int) < n,
            forall|v: int| 0 <= v < n && #[trigger] visited@[v] ==> within(*g, s, d + 1, v),
            forall|v: int| 0 <= v < n && within(*g, s, d, v) ==> #[trigger] visited@[v],
            forall|j: int, kk: int|
                0 <= j < i && 0 <= kk < 6 && #[trigger] g.cells@[frontier@[j] as int].adj@[kk]
                    != NO_NEIGHBOR ==> visited@[g.cells@[frontier@[j] as int].adj@[kk] as int],
            forall|m: int| 0 <= m < next@.len() ==> exact(*g, s, d + 1, #[trigger] next@[m] as int),
            forall|m: int| 0 <= m < next@.len() ==> (#[trigger] next@[m] as int) < n,
            forall|m: int| 0 <= m < next@.len() ==> visited@[#[trigger] next@[m] as int],
            forall|v: int|
                0 <= v < n && #[trigger] visited@[v] && !within(*g, s, d, v) ==> next@.contains(
                    v as usize,
                ),
            next@.no_duplicates(),
        decreases frontier@.len() - i,
    {
        let u = frontier[i];
        proof {
            lemma_within_bounds(*g, s, d, u as int);
        }
        let adj = g.cells[u].adj;
        assert(slots_ok(adj@, n as int));
        let mut k: usize = 0;
        while k < SLOTS
            invariant
                g.wf(),
                n == g.len(),
                i < frontier@.len(),
                u == frontier@[i as int],
                (u as int) < n,
                adj == g.cells@[u as int].adj,
                slots_ok(adj@, n as int),
                exact(*g, s, d, u as int),
                forall|i: int| 0 <= i < frontier@.len() ==> (#[trigger] frontier@[i] as int) < n,
                k <= 6,
                visited@.len() == n,
                forall|v: int| 0 <= v < n && #[trigger] visited@[v] ==> within(*g, s, d + 1, v),
                forall|v: int| 0 <= v < n && within(*g, s, d, v) ==> #[trigger] visited@[v],
                forall|j: int, kk: int|
                    0 <= j < i && 0 <= kk < 6 && #[trigger] g.cells@[frontier@[j] as int].adj@[kk]
                        != NO_NEIGHBOR ==> visited@[g.cells@[frontier@[j] as int].adj@[kk] as int],
                forall|kk: int|
                    0 <= kk < k && #[trigger] adj@[kk] != NO_NEIGHBOR ==> visited@[adj@[kk] as int],
                forall|m: int| 0 <= m < next@.len() ==> exact(*g, s, d + 1, #[trigger] next@[m] as int),
                forall|m: int| 0 <= m < next@.len() ==> (#[trigger] next@[m] as int) < n,
                forall|m: int| 0 <= m < next@.len() ==> visited@[#[trigger] next@[m] as int],
                forall|v: int|
                    0 <= v < n && #[trigger] visited@[v] && !within(*g, s, d, v) ==> next@.contains(
                        v as usize,
                    ),
                next@.no_duplicates(),
            decreases 6 - k,
        {
            let a = adj[k];
            assert(slot_ok(adj@[k as int], n as int));
            if a != NO_NEIGHBOR {
                let w = a as usize;
                if !visited[w] {
                    proof {
                        assert(g.edge(u as int, w as int)) by {
                            assert(g.cells@[u as int].adj@[k as int] as int == w as int);
                        }
                        lemma_within_step(*g, s, d, u as int, w as int);
                    }
                    let ghost old_next = next@;
                    visited.set(w, true);
                    next.push(w);
                    proof {
                        assert(next@ == old_next.push(w));
                        assert forall|v: int|
                            0 <= v < n && #[trigger] visited@[v] && !within(
                                *g,
                                s,
                                d,
                                v,
                            ) implies next@.contains(v as usize) by {
                            if v != w as int {
                                assert(old_next.contains(v as usize));
                                let m = choose|m: int|
                                    0 <= m < old_next.len() && old_next[m] == v as usize;
                                assert(next@[m] == v as usize);
                            } else {
                                assert(next@[next@.len() - 1] == w);
                            }
                        }
                    }
                }
            }
            k = k + 1;
        }
        i = i + 1;
    }
    proof {
        assert forall|v: int| 0 <= v < n && within(*g, s, d + 1, v) implies #[trigger] visited@[v] by {
            if !within(*g, s, d, v) {
                let u = choose|u: int| within(*g, s, d, u) && #[trigger] g.edge(u, v);
                lemma_within_bounds(*g, s, d, u);
                if d > 0 && within(*g, s, (d - 1) as nat, u) {
                    lemma_within_step(*g, s, (d - 1) as nat, u, v);
                } else {
                    assert(exact(*g, s, d, u));
                    assert(frontier@.contains(u as usize));
                    let j = choose|j: int| 0 <= j < frontier@.len() && frontier@[j] == u as usize;
                    let kk = choose|kk: int| 0 <= kk < 6 && #[trigger] g.cells@[u].adj@[kk] as int == v;
                    assert(g.cells@[frontier@[j] as int].adj@[kk] != NO_NEIGHBOR);
                }
            }
        }
        assert forall|v: usize|
            (v as int) < g.len() && exact(*g, s, d + 1, v as int) implies #[trigger] next@.contains(v) by {
            assert(visited@[v as int]);
        }
    }
    next
}

/// The marks of the cells listed in `seeds` and the frontier they start:
/// the first breadth-first layer.
pub(crate) fn first_layer(g: &Grid, seeds: &Vec<usize>) -> (r: (Vec<bool>, Vec<usize>))
    requires
        g.wf(),
        all_below(seeds@, g.len()),
    ensures
        r.0@.len() == g.len(),
        forall|v: int| 0 <= v < g.len() ==> (r.0@[v] <==> within(*g, seeds@, 0, v)),
        r.1@ == seeds@,
        forall|i: int| 0 <= i < r.1@.len() ==> exact(*g, seeds@, 0, #[trigger] r.1@[i] as int),
        forall|v: usize|
            (v as int) < g.len() && exact(*g, seeds@, 0, v as int) ==> #[trigger] r.1@.contains(v),
{
    let n = g.cells.len();
    let mut visited: Vec<bool> = Vec::new();
    while visited.len() < n
        invariant
            visited@.len() <= n,
            forall|v: int| 0 <= v < visited@.len() ==> !visited@[v],
        decreases n - visited@.len(),
    {
        visited.push(false);
    }
    let mut frontier: Vec<usize> = Vec::new();
    let mut i: usize = 0;
    while i < seeds.len()
        invariant
            n == g.len(),
            all_below(seeds@, g.len()),
            i <= seeds@.len(),
            visited@.len() == n,
            frontier@ == seeds@.take(i as int),
            forall|v: int| 0 <= v < n ==> (visited@[v] <==> seeds@.take(i as int).contains(v as usize)),
        decreases seeds@.len() - i,
    {
        let x = seeds[i];
        assert((x as int) < n);
        visited.set(x, true);
        frontier.push(x);
        proof {
            let before = seeds@.take(i as int);
            assert(seeds@.take(i + 1) == before.push(x));
            assert forall|v: int| 0 <= v < n implies (visited@[v] <==> before.push(x).contains(
                v as usize,
            )) by {
                if v != x as int && before.push(x).contains(v as usize) {
                    let j = choose|j: int| 0 <= j < before.len() + 1 && before.push(x)[j] == v as usize;
                    assert(before[j] == v as usize);
                }
                if before.contains(v as usize) {
                    let j = choose|j: int| 0 <= j < before.len() && before[j] == v as usize;
                    assert(before.push(x)[j] == v as usize);
                }
                if v == x as int {
                    assert(before.push(x)[before.len() as int] == x);
                }
            }
        }
        i = i + 1;
    }
    assert(seeds@.take(i as int) == seeds@);
    proof {
        assert forall|v: int| 0 <= v < n implies (visited@[v] <==> within(*g, seeds@, 0, v)) by {
            if visited@[v] {
                let j = choose|j: int| 0 <= j < seeds@.len() && seeds@[j] == v as usize;
                assert(seeds@[j] as int == v);
            }
            if within(*g, seeds@, 0, v) {
                let j = choose|j: int| 0 <= j < seeds@.len() && seeds@[j] as int == v;
                assert(seeds@[j] == v as usize);
            }
        }
        assert forall|k: int| 0 <= k < frontier@.len() implies exact(
            *g,
            seeds@,
            0,
            #[trigger] frontier@[k] as int,
        ) by {
            assert(seeds@[k] as int == frontier@[k] as int);
        }
        assert forall|v: usize|
            (v as int) < g.len() && exact(*g, seeds@, 0, v as int) implies #[trigger] frontier@.contains(v) by {
            let j = choose|j: int| 0 <= j < seeds@.len() && seeds@[j] as int == v as int;
            assert(frontier@[j] == v);
        }
    }
    (visited, frontier)
}

/// Multi-source breadth-first flood fill: for each cell, the fewest steps from
/// any cell of `seeds`, or `None` where no walk leads there.
pub fn flood_fill(grid: &Grid, seeds: &Vec<usize>) -> (r: Vec<Option<usize>>)
    requires
        grid.wf(),
        all_below(seeds@, grid.len()),
    ensures
        is_distance_field(*grid, seeds@, r@),
        forall|i: int| 0 <= i < seeds@.len() ==> r@[#[trigger] seeds@[i] as int] == Some(0usize),
{
    let n = grid.cells.len();
    let (mut visited, mut frontier) = first_layer(grid, seeds);
    let mut r: Vec<Option<usize>> = Vec::new();
    while r.len() < n
        invariant
            r@.len() <= n,
            forall|v: int| 0 <= v < r@.len() ==> r@[v] is None,
        decreases n - r@.len(),
    {
        r.push(None);
    }
    let ghost s = seeds@;
    let mut d: usize = 0;
    proof {
        lemma_reach_set_len(*grid, s, 0);
        if frontier@.len() > 0 {
            lemma_first_layer(*grid, s, frontier@[0] as int);
        }
    }
    while frontier.len() > 0
        invariant
            grid.wf(),
            n == grid.len(),
            s == seeds@,
            visited@.len() == n,
            r@.len() == n,
            forall|v: int| 0 <= v < n ==> (visited@[v] <==> within(*grid, s, d as nat, v)),
            forall|i: int| 0 <= i < frontier@.len() ==> exact(*grid, s, d as nat, #[trigger] frontier@[i] as int),
            forall|v: usize|
                (v as int) < n && exact(*grid, s, d as nat, v as int) ==> #[trigger] frontier@.contains(v),
            forall|v: int|
                0 <= v < n ==> match #[trigger] r@[v] {
                    Some(k) => k < d && (k as int) < n && exact(*grid, s, k as nat, v),
                    None => d == 0 || !within(*grid, s, (d - 1) as nat, v),
                },
            frontier@.len() > 0 ==> reach_set(*grid, s, d as nat).len() >= d + 1,
            reach_set(*grid, s, d as nat).len() <= n,
        decreases n - d,
    {
        assert((d as int) < n);
        let mut i: usize = 0;
        while i < frontier.len()
            invariant
                grid.wf(),
                n == grid.len(),
                r@.len() == n,
                i <= frontier@.len(),
                forall|i: int| 0 <= i < frontier@.len() ==> exact(*grid, s, d as nat, #[trigger] frontier@[i] as int),
                forall|v: int|
                    0 <= v < n ==> match #[trigger] r@[v] {
                        Some(k) => k <= d && (k as int) < n && exact(*grid, s, k as nat, v),
                        None => (d == 0 || !within(*grid, s, (d - 1) as nat, v)) && forall|j: int|
                            0 <= j < i ==> frontier@[j] as int != v,
                    },
                (d as int) < n,
            decreases frontier@.len() - i,
        {
            let x = frontier[i];
            proof {
                lemma_within_bounds(*grid, s, d as nat, x as int);
            }
            let ghost old_r = r@;
            r.set(x, Some(d));
            proof {
                assert forall|v: int| 0 <= v < n implies match #[trigger] r@[v] {
                    Some(k) => k <= d && (k as int) < n && exact(*grid, s, k as nat, v),
                    None => (d == 0 || !within(*grid, s, (d - 1) as nat, v)) && forall|j: int|
                        0 <= j < i + 1 ==> frontier@[j] as int != v,
                } by {
                    if v != x as int {
                        assert(r@[v] == old_r[v]);
                        match old_r[v] {
                            Some(k) => {},
                            None => {},
                        }
                    } else {
                        assert(exact(*grid, s, d as nat, frontier@[i as int] as int));
                    }
                }
            }
            i = i + 1;
        }
        proof {
            assert forall|v: int| 0 <= v < n && #[trigger] r@[v] is None implies !within(
                *grid,
                s,
                d as nat,
                v,
            ) by {
                if within(*grid, s, d as nat, v) && (d == 0 || !within(*grid, s, (d - 1) as nat, v)) {
                    assert(frontier@.contains(v as usize));
                }
            }
        }
        let next = next_layer(grid, &frontier, &mut visited, Ghost(s), Ghost(d as nat));
        proof {
            lemma_reach_set_len(*grid, s, (d + 1) as nat);
            if next@.len() > 0 {
                lemma_layer_growth(*grid, s, d as nat, next@[0] as int);
            }
        }
        frontier = next;
        d = d + 1;
    }
    proof {
        assert forall|v: int| 0 <= v < grid.len() implies !exact(*grid, s, d as nat, v) by {
            if exact(*grid, s, d as nat, v) {
                assert(frontier@.contains(v as usize));
            }
        }
        lemma_no_layer(*grid, s, d as nat);
        assert forall|v: int, k: nat| 0 <= v < n && r@[v] is None implies !within(*grid, s, k, v) by {
            if within(*grid, s, k, v) {
                assert(d > 0 && within(*grid, s, (d - 1) as nat, v));
            }
        }
        assert forall|v: int, k: nat|
            0 <= v < n implies (r@[v] == Some(k as usize) && k <= usize::MAX <==> exact(*grid, s, k, v)) by {
            match r@[v] {
                Some(j) => {
                    if exact(*grid, s, k, v) {
                        lemma_exact_unique(*grid, s, j as nat, k, v);
                    }
                },
                None => {},
            }
        }
        assert forall|v: int| 0 <= v < grid.len() implies (#[trigger] r@[v] is None <==> forall|k: nat|
            !within(*grid, s, k, v)) by {
            if r@[v] is Some {
                assert(within(*grid, s, r@[v].unwrap() as nat, v));
            }
        }
        assert forall|i: int| 0 <= i < seeds@.len() implies r@[#[trigger] seeds@[i] as int] == Some(0usize) by {
            let v = seeds@[i] as int;
            assert(within(*grid, s, 0, v));
            assert(exact(*grid, s, 0, v));
        }
    }
    r
}

/// The two static distance fields: from the friendly and from the enemy base.
#[derive(Debug)]
pub struct Distances {
    pub friendly: Vec<Option<usize>>,
    pub enemy: Vec<Option<usize>>,
}

impl Distances {
    /// Both fields have one entry per cell of a grid of `n` cells, each
    /// distance below `n`.
    pub open spec fn fits(&self, n: int) -> bool {
        &&& self.friendly@.len() == n
        &&& self.enemy@.len() == n
        &&& forall|v: int| 0 <= v < n ==> (#[trigger] self.friendly@[v] matches Some(k) ==> (k as int) < n)
    }

    /// Computes both fields by flood fill from the two base lists.
    pub fn compute(grid: &Grid, ally: &Vec<usize>, enemy: &Vec<usize>) -> (r: Distances)
        requires
            grid.wf(),
            all_below(ally@, grid.len()),
            all_below(enemy@, grid.len()),
        ensures
            is_distance_field(*grid, ally@, r.friendly@),
            is_distance_field(*grid, enemy@, r.enemy@),
            r.fits(grid.len()),
    {
        let friendly = flood_fill(grid, ally);
        let enemy = flood_fill(grid, enemy);
        Distances { friendly, enemy }
    }
}

} // verus!
