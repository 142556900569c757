use vstd::prelude::*;
use crate::grid::{Grid, NO_NEIGHBOR, SLOTS, all_below, slot_ok, slots_ok};
use crate::distance::{
    exact, is_distance_field, is_seed, lemma_exact_unique, first_layer, lemma_first_layer, lemma_layer_growth, lemma_no_layer,
    lemma_reach_set_len, lemma_within_bounds, lemma_within_mono, lemma_within_step, next_layer,
    reach_set, within,
};

verus! {

/// No cell marked in `targets` is within `k` steps of `s`, for any `k`.
pub open spec fn unreachable_targets(g: Grid, s: Seq<usize>, targets: Seq<bool>) -> bool {
    forall|v: int, k: nat| 0 <= v < g.len() && targets[v] ==> !#[trigger] within(g, s, k, v)
}

/// No cell marked in `targets` is within fewer than `d` steps of `s`.
pub open spec fn none_closer(g: Grid, s: Seq<usize>, targets: Seq<bool>, d: nat) -> bool {
    forall|v: int, k: nat| 0 <= v < g.len() && targets[v] && k < d ==> !#[trigger] within(g, s, k, v)
}

/// Breadth-first search from the cells of `start` for the nearest cell marked
/// in `targets`; `None` when none can be reached.
pub fn bfs(grid: &Grid, start: &Vec<usize>, targets: &Vec<bool>) -> (r: Option<usize>)
    requires
        grid.wf(),
        all_below(start@, grid.len()),
        targets@.len() == grid.len(),
    ensures
        r is None <==> unreachable_targets(*grid, start@, targets@),
        r matches Some(c) ==> {
            &&& (c as int) < grid.len()
            &&& targets@[c as int]
            &&& exists|d: nat| #[trigger]
                exact(*grid, start@, d, c as int) && none_closer(*grid, start@, targets@, d)
        },
{
    let n = grid.cells.len();
    let ghost s = start@;
    let (mut visited, mut frontier) = first_layer(grid, start);
    let mut d: usize = 0;
    proof {
        lemma_reach_set_len(*grid, s, 0);
        if frontier@.len() > 0 {
            lemma_first_layer(*grid, s, frontier@[0] as int);
        }
    }
    while frontier.len() > 0
        invariant
            grid.wf(),
            n == grid.len(),
            s == start@,
            targets@.len() == n,
            visited@.len() == n,
            forall|v: int| 0 <= v < n ==> (visited@[v] <==> within(*grid, s, d as nat, v)),
            forall|i: int| 0 <= i < frontier@.len() ==> exact(*grid, s, d as nat, #[trigger] frontier@[i] as int),
            forall|v: usize|
                (v as int) < n && exact(*grid, s, d as nat, v as int) ==> #[trigger] frontier@.contains(v),
            none_closer(*grid, s, targets@, d as nat),
            frontier@.len() > 0 ==> reach_set(*grid, s, d as nat).len() >= d + 1,
            reach_set(*grid, s, d as nat).len() <= n,
        decreases n - d,
    {
        let mut i: usize = 0;
        while i < frontier.len()
            invariant
                grid.wf(),
                n == grid.len(),
                targets@.len() == n,
                i <= frontier@.len(),
                forall|i: int| 0 <= i < frontier@.len() ==> exact(*grid, s, d as nat, #[trigger] frontier@[i] as int),
                forall|j: int| 0 <= j < i ==> !targets@[#[trigger] frontier@[j] as int],
                s == start@,
                none_closer(*grid, s, targets@, d as nat),
            decreases frontier@.len() - i,
        {
            let x = frontier[i];
            proof {
                lemma_within_bounds(*grid, s, d as nat, x as int);
            }
            if targets[x] {
                assert(exact(*grid, s, d as nat, x as int));
                assert(within(*grid, s, d as nat, x as int));
                return Some(x);
            }
            i = i + 1;
        }
        proof {
            assert forall|v: int, k: nat|
                0 <= v < n && targets@[v] && k < d + 1 implies !#[trigger] within(*grid, s, k, v) by {
                if within(*grid, s, k, v) {
                    lemma_within_mono(*grid, s, k, d as nat, v);
                    if d > 0 && within(*grid, s, (d - 1) as nat, v) {
                    } else {
                        assert(frontier@.contains(v as usize));
                        let j = choose|j: int| 0 <= j < frontier@.len() && frontier@[j] == v as usize;
                        assert(!targets@[frontier@[j] as int]);
                    }
                }
            }
        }
        let next = next_layer(grid, &frontier, &mut visited, Ghost(s), Ghost(d as nat));
        proof {
            lemma_reach_set_len(*grid, s, (d + 1) as nat);
            if next@.len() > 0 {
                lemma_layer_growth(*grid, s, d as nat, next@[0] as int);
            }
        }
        frontier = next;
        d = d + 1;
    }
    proof {
        assert forall|v: int| 0 <= v < grid.len() implies !exact(*grid, s, d as nat, v) by {
            if exact(*grid, s, d as nat, v) {
                assert(frontier@.contains(v as usize));
            }
        }
        lemma_no_layer(*grid, s, d as nat);
    }
    None
}

/// A walk from a cell listed in `s` on which the `i`-th cell is at exactly
/// `i` steps from `s`: a shortest path to its last cell.
pub open spec fn shortest_walk(g: Grid, s: Seq<usize>, p: Seq<usize>) -> bool {
    &&& p.len() >= 1
    &&& forall|i: int| 0 <= i < p.len() ==> exact(g, s, i as nat, #[trigger] p[i] as int)
    &&& forall|i: int| 0 <= i < p.len() - 1 ==> g.edge(#[trigger] p[i] as int, p[i + 1] as int)
}

/// The cell sequences held by a list of paths.
pub open spec fn path_views(r: Seq<Vec<usize>>) -> Seq<Seq<usize>> {
    r.map_values(|p: Vec<usize>| p@)
}

/// A cell at exactly `d` steps is the end of some shortest walk of `d + 1` cells.
pub proof fn lemma_walk_exists(g: Grid, s: Seq<usize>, d: nat, v: int) -> (p: Seq<usize>)
    requires
        g.wf(),
        exact(g, s, d, v),
    ensures
        shortest_walk(g, s, p),
        p.len() == d + 1,
        p.last() == v as usize,
    decreases d,
{
    lemma_within_bounds(g, s, d, v);
    if d == 0 {
        let p = seq![v as usize];
        assert(p[0] as int == v);
        p
    } else {
        let u = choose|u: int| within(g, s, (d - 1) as nat, u) && #[trigger] g.edge(u, v);
        lemma_within_bounds(g, s, (d - 1) as nat, u);
        if d - 1 > 0 && within(g, s, (d - 2) as nat, u) {
            lemma_within_step(g, s, (d - 2) as nat, u, v);
        }
        assert(exact(g, s, (d - 1) as nat, u));
        let q = lemma_walk_exists(g, s, (d - 1) as nat, u);
        let p = q.push(v as usize);
        assert forall|i: int| 0 <= i < p.len() implies exact(g, s, i as nat, #[trigger] p[i] as int) by {
            if i < q.len() {
                assert(p[i] == q[i]);
            }
        }
        assert forall|i: int| 0 <= i < p.len() - 1 implies g.edge(#[trigger] p[i] as int, p[i + 1] as int) by {
            if i < q.len() - 1 {
                assert(p[i] == q[i] && p[i + 1] == q[i + 1]);
            } else {
                assert(p[i] == q.last());
            }
        }
        p
    }
}

/// A copy of `q`.
fn copied(q: &Vec<usize>) -> (r: Vec<usize>)
    ensures
        r@ == q@,
{
    let mut r: Vec<usize> = Vec::new();
    let mut i: usize = 0;
    while i < q.len()
        invariant
            i <= q@.len(),
            r@ == q@.take(i as int),
        decreases q@.len() - i,
    {
        r.push(q[i]);
        assert(q@.take(i + 1) == q@.take(i as int).push(q@[i as int]));
        i = i + 1;
    }
    assert(q@.take(i as int) == q@);
    r
}

/// `q` with `a` appended.
fn extended(q: &Vec<usize>, a: usize) -> (r: Vec<usize>)
    ensures
        r@ == q@.push(a),
{
    let mut r = copied(q);
    r.push(a);
    r
}

/// Slot `k` of `adj` holds a value that no earlier slot holds.
spec fn first_slot(adj: Seq<i32>, k: int) -> bool {
    forall|kk: int| 0 <= kk < k ==> adj[kk] != adj[k]
}

fn is_first_slot(adj: &[i32; 6], k: usize) -> (r: bool)
    requires
        k < 6,
    ensures
        r == first_slot(adj@, k as int),
{
    let mut kk: usize = 0;
    while kk < k
        invariant
            kk <= k,
            k < 6,
            forall|j: int| 0 <= j < kk ==> adj@[j] != adj@[k as int],
        decreases k - kk,
    {
        if adj[kk] == adj[k] {
            return false;
        }
        kk = kk + 1;
    }
    true
}

/// Extends each path of `layer` (every shortest walk of `d + 1` cells) by each
/// neighbour of its last cell that is not within `d` steps.
#[verifier::rlimit(100)]
fn extend_layer(
    g: &Grid,
    layer: &Vec<Vec<usize>>,
    visited: &Vec<bool>,
    Ghost(s): Ghost<Seq<usize>>,
    Ghost(d): Ghost<nat>,
) -> (r: Vec<Vec<usize>>)
    requires
        g.wf(),
        visited@.len() == g.len(),
        forall|v: int| 0 <= v < g.len() ==> (visited@[v] <==> within(*g, s, d, v)),
        forall|m: int|
            0 <= m < layer@.len() ==> shortest_walk(*g, s, #[trigger] layer@[m]@) && layer@[m]@.len()
                == d + 1,
        forall|p: Seq<usize>|
            shortest_walk(*g, s, p) && p.len() == d + 1 ==> #[trigger] path_views(layer@).contains(p),
        path_views(layer@).no_duplicates(),
    ensures
        forall|m: int|
            0 <= m < r@.len() ==> shortest_walk(*g, s, #[trigger] r@[m]@) && r@[m]@.len() == d + 2,
        forall|p: Seq<usize>|
            shortest_walk(*g, s, p) && p.len() == d + 2 ==> #[trigger] path_views(r@).contains(p),
        path_views(r@).no_duplicates(),
{
    let n = g.cells.len();
    let mut r: Vec<Vec<usize>> = Vec::new();
    let ghost mut origin: Seq<int> = Seq::empty();
    let ghost mut slot: Seq<int> = Seq::empty();
    let mut j: usize = 0;
    while j < layer.len()
        invariant
            path_views(layer@).no_duplicates(),
            path_views(r@).no_duplicates(),
            origin.len() == r@.len(),
            slot.len() == r@.len(),
            forall|m: int|
                0 <= m < r@.len() ==> {
                    &&& 0 <= #[trigger] origin[m] < j
                    &&& 0 <= slot[m] < 6
                    &&& g.cells@[layer@[origin[m]]@.last() as int].adj@[slot[m]] >= 0
                    &&& r@[m]@ == layer@[origin[m]]@.push(
                        g.cells@[layer@[origin[m]]@.last() as int].adj@[slot[m]] as usize,
                    )
                },
            g.wf(),
            n == g.len(),
            j <= layer@.len(),
            visited@.len() == n,
            forall|v: int| 0 <= v < n ==> (visited@[v] <==> within(*g, s, d, v)),
            forall|m: int|
                0 <= m < layer@.len() ==> shortest_walk(*g, s, #[trigger] layer@[m]@) && layer@[m]@.len()
                    == d + 1,
            forall|m: int|
                0 <= m < r@.len() ==> shortest_walk(*g, s, #[trigger] r@[m]@) && r@[m]@.len() == d + 2,
            forall|jj: int, kk: int|
                0 <= jj < j && 0 <= kk < 6 && #[trigger] g.cells@[layer@[jj]@.last() as int].adj@[kk]
                    != NO_NEIGHBOR && !visited@[g.cells@[layer@[jj]@.last() as int].adj@[kk] as int]
                    ==> path_views(r@).contains(
                    layer@[jj]@.push(g.cells@[layer@[jj]@.last() as int].adj@[kk] as usize),
                ),
        decreases layer@.len() - j,
    {
        let q = &layer[j];
        assert(shortest_walk(*g, s, layer@[j as int]@));
        let last = q[q.len() - 1];
        assert(exact(*g, s, d, q@[d as int] as int));
        proof {
            lemma_within_bounds(*g, s, d, last as int);
        }
        let adj = g.cells[last].adj;
        assert(slots_ok(adj@, n as int));
        let mut k: usize = 0;
        while k < SLOTS
            invariant
                path_views(layer@).no_duplicates(),
                path_views(r@).no_duplicates(),
                origin.len() == r@.len(),
                slot.len() == r@.len(),
                forall|m: int|
                    0 <= m < r@.len() ==> {
                        &&& 0 <= #[trigger] origin[m] <= j
                        &&& 0 <= slot[m] < 6
                        &&& g.cells@[layer@[origin[m]]@.last() as int].adj@[slot[m]] >= 0
                        &&& origin[m] == j ==> slot[m] < k
                        &&& r@[m]@ == layer@[origin[m]]@.push(
                            g.cells@[layer@[origin[m]]@.last() as int].adj@[slot[m]] as usize,
                        )
                    },
                g.wf(),
                n == g.len(),
                j < layer@.len(),
                *q == layer@[j as int],
                q@.len() == d + 1,
                shortest_walk(*g, s, q@),
                last == q@.last(),
                (last as int) < n,
                adj == g.cells@[last as int].adj,
                slots_ok(adj@, n as int),
                k <= 6,
                visited@.len() == n,
                forall|v: int| 0 <= v < n ==> (visited@[v] <==> within(*g, s, d, v)),
                forall|m: int|
                    0 <= m < r@.len() ==> shortest_walk(*g, s, #[trigger] r@[m]@) && r@[m]@.len() == d
                        + 2,
                forall|jj: int, kk: int|
                    0 <= jj < j && 0 <= kk < 6 && #[trigger] g.cells@[layer@[jj]@.last() as int].adj@[kk]
                        != NO_NEIGHBOR && !visited@[g.cells@[layer@[jj]@.last() as int].adj@[kk] as int]
                        ==> path_views(r@).contains(
                        layer@[jj]@.push(g.cells@[layer@[jj]@.last() as int].adj@[kk] as usize),
                    ),
                forall|kk: int|
                    0 <= kk < k && #[trigger] adj@[kk] != NO_NEIGHBOR && !visited@[adj@[kk] as int]
                        ==> path_views(r@).contains(q@.push(adj@[kk] as usize)),
            decreases 6 - k,
        {
            let a = adj[k];
            assert(slot_ok(adj@[k as int], n as int));
            if a != NO_NEIGHBOR && !visited[a as usize] && is_first_slot(&adj, k) {
                let w = a as usize;
                let p = extended(q, w);
                proof {
                    assert(g.edge(last as int, w as int)) by {
                        assert(g.cells@[last as int].adj@[k as int] as int == w as int);
                    }
                    lemma_within_step(*g, s, d, last as int, w as int);
                    assert forall|i: int| 0 <= i < p@.len() implies exact(
                        *g,
                        s,
                        i as nat,
                        #[trigger] p@[i] as int,
                    ) by {
                        if i < q@.len() {
                            assert(p@[i] == q@[i]);
                        }
                    }
                    assert forall|i: int| 0 <= i < p@.len() - 1 implies g.edge(
                        #[trigger] p@[i] as int,
                        p@[i + 1] as int,
                    ) by {
                        if i < q@.len() - 1 {
                            assert(p@[i] == q@[i] && p@[i + 1] == q@[i + 1]);
                        } else {
                            assert(p@[i] == q@.last());
                        }
                    }
                }
                let ghost before = r@;
                proof {
                    assert forall|m: int| 0 <= m < before.len() implies before[m]@ != p@ by {
                        if before[m]@ == p@ {
                            let o = origin[m];
                            let x = g.cells@[layer@[o]@.last() as int].adj@[slot[m]] as usize;
                            assert(layer@[o]@ =~= before[m]@.drop_last());
                            assert(q@ =~= p@.drop_last());
                            assert(path_views(layer@)[o] == path_views(layer@)[j as int]);
                            assert(o == j);
                            assert(p@.last() == w);
                            assert(before[m]@.last() == x);
                            assert(adj@[slot[m]] == adj@[k as int]);
                        }
                    }
                    origin = origin.push(j as int);
                    slot = slot.push(k as int);
                }
                r.push(p);
                proof {
                    assert(path_views(r@) == path_views(before).push(p@));
                    assert forall|m1: int, m2: int|
                        0 <= m1 < path_views(r@).len() && 0 <= m2 < path_views(r@).len() && m1 != m2
                            implies path_views(r@)[m1] != path_views(r@)[m2] by {
                        if m1 < before.len() && m2 < before.len() {
                            assert(path_views(before)[m1] != path_views(before)[m2]);
                        } else if m1 < before.len() {
                            assert(before[m1]@ != p@);
                        } else {
                            assert(before[m2]@ != p@);
                        }
                    }
                    assert(path_views(r@)[r@.len() - 1] == p@);
                    assert forall|x: Seq<usize>| path_views(before).contains(x) implies path_views(
                        r@,
                    ).contains(x) by {
                        let m = choose|m: int| 0 <= m < path_views(before).len() && path_views(before)[m] == x;
                        assert(path_views(r@)[m] == x);
                    }
                }
            } else if a != NO_NEIGHBOR && !visited[a as usize] {
                proof {
                    let kk = choose|kk: int| 0 <= kk < k && adj@[kk] == adj@[k as int];
                    assert(adj@[kk] != NO_NEIGHBOR);
                }
            }
            k = k + 1;
        }
        j = j + 1;
    }
    proof {
        assert forall|p: Seq<usize>|
            shortest_walk(*g, s, p) && p.len() == d + 2 implies #[trigger] path_views(r@).contains(p) by {
            let q = p.drop_last();
            assert forall|i: int| 0 <= i < q.len() implies exact(*g, s, i as nat, #[trigger] q[i] as int) by {
                assert(q[i] == p[i]);
            }
            assert forall|i: int| 0 <= i < q.len() - 1 implies g.edge(#[trigger] q[i] as int, q[i + 1] as int) by {
                assert(q[i] == p[i] && q[i + 1] == p[i + 1]);
            }
            assert(path_views(layer@).contains(q));
            let jj = choose|jj: int| 0 <= jj < path_views(layer@).len() && path_views(layer@)[jj] == q;
            assert(layer@[jj]@ == q);
            let x = q.last() as int;
            assert(g.edge(p[d as int] as int, p[d as int + 1] as int));
            assert(p[d as int] == q.last());
            let kk = choose|kk: int| 0 <= kk < 6 && #[trigger] g.cells@[x].adj@[kk] as int == p[d as int + 1] as int;
            lemma_within_bounds(*g, s, d + 1, p[d as int + 1] as int);
            assert(!within(*g, s, d, p[d as int + 1] as int));
            assert(g.cells@[layer@[jj]@.last() as int].adj@[kk] != NO_NEIGHBOR);
            assert(q.push(p[d as int + 1]) == p);
        }
    }
    r
}

/// Breadth-first search for paths from the cells of `start` to the nearest
/// cells marked in `targets`: every shortest path to such a cell, each as its
/// cells from its start to its end. Empty when no marked cell can be reached.
pub fn paths(grid: &Grid, start: &Vec<usize>, targets: &Vec<bool>) -> (r: Vec<Vec<usize>>)
    requires
        grid.wf(),
        all_below(start@, grid.len()),
        targets@.len() == grid.len(),
    ensures
        r@.len() == 0 <==> unreachable_targets(*grid, start@, targets@),
        forall|m: int|
            0 <= m < r@.len() ==> {
                &&& shortest_walk(*grid, start@, #[trigger] r@[m]@)
                &&& targets@[r@[m]@.last() as int]
                &&& r@[m]@.len() == r@[0]@.len()
            },
        r@.len() > 0 ==> none_closer(*grid, start@, targets@, (r@[0]@.len() - 1) as nat),
        r@.len() > 0 ==> forall|p: Seq<usize>|
            shortest_walk(*grid, start@, p) && p.len() == r@[0]@.len() && targets@[p.last() as int]
                ==> #[trigger] path_views(r@).contains(p),
        path_views(r@).no_duplicates(),
{
    let n = grid.cells.len();
    let ghost s = start@;
    let (mut visited, mut frontier) = first_layer(grid, start);
    let mut layer: Vec<Vec<usize>> = Vec::new();
    let mut seen: Vec<bool> = Vec::new();
    while seen.len() < n
        invariant
            seen@.len() <= n,
            forall|v: int| 0 <= v < seen@.len() ==> !seen@[v],
        decreases n - seen@.len(),
    {
        seen.push(false);
    }
    assert(path_views(layer@) =~= Seq::<Seq<usize>>::empty());
    let ghost mut src: Seq<int> = Seq::empty();
    let mut i: usize = 0;
    while i < start.len()
        invariant
            grid.wf(),
            n == grid.len(),
            s == start@,
            all_below(s, n as int),
            i <= s.len(),
            seen@.len() == n,
            src.len() == layer@.len(),
            forall|m: int| 0 <= m < layer@.len() ==> 0 <= #[trigger] src[m] < i && layer@[m]@ == seq![s[src[m]]],
            forall|v: int| 0 <= v < n ==> (#[trigger] seen@[v] <==> path_views(layer@).contains(seq![v as usize])),
            forall|k: int| 0 <= k < i ==> seen@[#[trigger] s[k] as int],
            path_views(layer@).no_duplicates(),
        decreases s.len() - i,
    {
        let x = start[i];
        assert((x as int) < n);
        if !seen[x] {
            let mut p: Vec<usize> = Vec::new();
            p.push(x);
            let ghost before = layer@;
            layer.push(p);
            seen.set(x, true);
            proof {
                src = src.push(i as int);
                assert(path_views(layer@) == path_views(before).push(seq![x]));
                assert(!path_views(before).contains(seq![x]));
                assert forall|v: int| 0 <= v < n implies (#[trigger] seen@[v] <==> path_views(layer@).contains(
                    seq![v as usize],
                )) by {
                    if v == x as int {
                        assert(path_views(layer@)[before.len() as int] == seq![x]);
                    } else {
                        if path_views(before).contains(seq![v as usize]) {
                            let m = choose|m: int| 0 <= m < before.len() && path_views(before)[m] == seq![v as usize];
                            assert(path_views(layer@)[m] == seq![v as usize]);
                        }
                        if path_views(layer@).contains(seq![v as usize]) {
                            let m = choose|m: int| 0 <= m < layer@.len() && path_views(layer@)[m] == seq![v as usize];
                            if m == before.len() {
                                assert(seq![x][0] == seq![v as usize][0]);
                            } else {
                                assert(path_views(before)[m] == seq![v as usize]);
                            }
                        }
                    }
                }
                assert forall|m1: int, m2: int|
                    0 <= m1 < path_views(layer@).len() && 0 <= m2 < path_views(layer@).len() && m1 != m2
                        implies path_views(layer@)[m1] != path_views(layer@)[m2] by {
                    if m1 < before.len() && m2 < before.len() {
                        assert(path_views(before)[m1] != path_views(before)[m2]);
                    } else if m1 < before.len() {
                        assert(path_views(before)[m1] == path_views(layer@)[m1]);
                    } else {
                        assert(path_views(before)[m2] == path_views(layer@)[m2]);
                    }
                }
            }
        }
        i = i + 1;
    }
    proof {
        assert forall|m: int| 0 <= m < layer@.len() implies shortest_walk(*grid, s, #[trigger] layer@[m]@)
            && layer@[m]@.len() == 1 by {
            let k = src[m];
            assert(layer@[m]@[0] == s[k]);
            assert((s[k] as int) < n);
            assert(is_seed(s, s[k] as int));
        }
        assert forall|p: Seq<usize>| shortest_walk(*grid, s, p) && p.len() == 1 implies #[trigger] path_views(
            layer@,
        ).contains(p) by {
            assert(exact(*grid, s, 0, p[0] as int));
            let m = choose|m: int| 0 <= m < s.len() && s[m] as int == p[0] as int;
            assert(p =~= seq![s[m]]);
            assert(seen@[s[m] as int]);
        }
    }
    let mut d: usize = 0;
    proof {
        lemma_reach_set_len(*grid, s, 0);
        if frontier@.len() > 0 {
            lemma_first_layer(*grid, s, frontier@[0] as int);
        }
    }
    while frontier.len() > 0
        invariant
            grid.wf(),
            n == grid.len(),
            s == start@,
            targets@.len() == n,
            visited@.len() == n,
            forall|v: int| 0 <= v < n ==> (visited@[v] <==> within(*grid, s, d as nat, v)),
            forall|i: int| 0 <= i < frontier@.len() ==> exact(*grid, s, d as nat, #[trigger] frontier@[i] as int),
            forall|v: usize|
                (v as int) < n && exact(*grid, s, d as nat, v as int) ==> #[trigger] frontier@.contains(v),
            forall|m: int|
                0 <= m < layer@.len() ==> shortest_walk(*grid, s, #[trigger] layer@[m]@) && layer@[m]@.len()
                    == d + 1,
            forall|p: Seq<usize>|
                shortest_walk(*grid, s, p) && p.len() == d + 1 ==> #[trigger] path_views(layer@).contains(p),
            path_views(layer@).no_duplicates(),
            none_closer(*grid, s, targets@, d as nat),
            frontier@.len() > 0 ==> reach_set(*grid, s, d as nat).len() >= d + 1,
            reach_set(*grid, s, d as nat).len() <= n,
        decreases n - d,
    {
        let mut answer: Vec<Vec<usize>> = Vec::new();
        let ghost mut idx: Seq<int> = Seq::empty();
        let mut m: usize = 0;
        while m < layer.len()
            invariant
                path_views(layer@).no_duplicates(),
                idx.len() == answer@.len(),
                forall|a: int|
                    0 <= a < answer@.len() ==> 0 <= #[trigger] idx[a] < m && answer@[a]@ == layer@[idx[a]]@,
                forall|a1: int, a2: int| 0 <= a1 < a2 < answer@.len() ==> #[trigger] idx[a1] < #[trigger] idx[a2],
                path_views(answer@).no_duplicates(),
                grid.wf(),
                n == grid.len(),
                targets@.len() == n,
                m <= layer@.len(),
                forall|m: int|
                    0 <= m < layer@.len() ==> shortest_walk(*grid, s, #[trigger] layer@[m]@)
                        && layer@[m]@.len() == d + 1,
                forall|a: int|
                    0 <= a < answer@.len() ==> {
                        &&& shortest_walk(*grid, s, #[trigger] answer@[a]@)
                        &&& answer@[a]@.len() == d + 1
                        &&& targets@[answer@[a]@.last() as int]
                    },
                forall|mm: int|
                    0 <= mm < m && targets@[layer@[mm]@.last() as int] ==> path_views(answer@).contains(
                        #[trigger] layer@[mm]@,
                    ),
            decreases layer@.len() - m,
        {
            let q = &layer[m];
            assert(shortest_walk(*grid, s, layer@[m as int]@));
            let last = q[q.len() - 1];
            proof {
                lemma_within_bounds(*grid, s, d as nat, q@[d as int] as int);
            }
            if targets[last] {
                let ghost before = answer@;
                answer.push(copied(q));
                proof {
                    idx = idx.push(m as int);
                    assert(path_views(answer@) == path_views(before).push(q@));
                    assert forall|a1: int, a2: int|
                        0 <= a1 < path_views(answer@).len() && 0 <= a2 < path_views(answer@).len() && a1 != a2
                            implies path_views(answer@)[a1] != path_views(answer@)[a2] by {
                        assert(answer@[a1]@ == layer@[idx[a1]]@);
                        assert(answer@[a2]@ == layer@[idx[a2]]@);
                        assert(path_views(layer@)[idx[a1]] != path_views(layer@)[idx[a2]]);
                    }
                    assert(path_views(answer@)[answer@.len() - 1] == q@);
                    assert forall|x: Seq<usize>| path_views(before).contains(x) implies path_views(
                        answer@,
                    ).contains(x) by {
                        let a = choose|a: int| 0 <= a < path_views(before).len() && path_views(before)[a] == x;
                        assert(path_views(answer@)[a] == x);
                    }
                }
            }
            m = m + 1;
        }
        if answer.len() > 0 {
            proof {
                assert forall|p: Seq<usize>|
                    shortest_walk(*grid, s, p) && p.len() == answer@[0]@.len() && targets@[p.last() as int]
                        implies #[trigger] path_views(answer@).contains(p) by {
                    assert(path_views(layer@).contains(p));
                    let mm = choose|mm: int| 0 <= mm < path_views(layer@).len() && path_views(layer@)[mm] == p;
                    assert(layer@[mm]@ == p);
                }
            }
            return answer;
        }
        proof {
            assert forall|v: int, k: nat|
                0 <= v < n && targets@[v] && k < d + 1 implies !#[trigger] within(*grid, s, k, v) by {
                if within(*grid, s, k, v) {
                    lemma_within_mono(*grid, s, k, d as nat, v);
                    if d > 0 && within(*grid, s, (d - 1) as nat, v) {
                    } else {
                        assert(exact(*grid, s, d as nat, v));
                        let p = lemma_walk_exists(*grid, s, d as nat, v);
                        assert(path_views(layer@).contains(p));
                        let mm = choose|mm: int| 0 <= mm < path_views(layer@).len() && path_views(layer@)[mm] == p;
                        assert(layer@[mm]@ == p);
                        assert(path_views(answer@).contains(layer@[mm]@));
                    }
                }
            }
        }
        let new_layer = extend_layer(grid, &layer, &visited, Ghost(s), Ghost(d as nat));
        let next = next_layer(grid, &frontier, &mut visited, Ghost(s), Ghost(d as nat));
        proof {
            lemma_reach_set_len(*grid, s, (d + 1) as nat);
            if next@.len() > 0 {
                lemma_layer_growth(*grid, s, d as nat, next@[0] as int);
            }
        }
        layer = new_layer;
        frontier = next;
        d = d + 1;
    }
    proof {
        assert forall|v: int| 0 <= v < grid.len() implies !exact(*grid, s, d as nat, v) by {
            if exact(*grid, s, d as nat, v) {
                assert(frontier@.contains(v as usize));
            }
        }
        lemma_no_layer(*grid, s, d as nat);
    }
    let r: Vec<Vec<usize>> = Vec::new();
    assert(path_views(r@) =~= Seq::<Seq<usize>>::empty());
    r
}

/// A path that `paths` returns visits no cell twice, and its number of steps
/// is the distance that a flood fill from the same start cells gives its last
/// cell.
pub proof fn lemma_paths_agree_with_flood_fill(
    g: Grid,
    s: Seq<usize>,
    p: Seq<usize>,
    field: Seq<Option<usize>>,
)
    requires
        g.wf(),
        shortest_walk(g, s, p),
        is_distance_field(g, s, field),
    ensures
        p.no_duplicates(),
        field[p.last() as int] == Some((p.len() - 1) as usize),
{
    assert forall|i: int, j: int| 0 <= i < p.len() && 0 <= j < p.len() && i != j implies p[i] != p[j] by {
        if p[i] == p[j] {
            assert(exact(g, s, i as nat, p[i] as int));
            assert(exact(g, s, j as nat, p[j] as int));
            lemma_exact_unique(g, s, i as nat, j as nat, p[i] as int);
        }
    }
    let d = (p.len() - 1) as nat;
    assert(exact(g, s, d, p[d as int] as int));
    lemma_within_bounds(g, s, d, p.last() as int);
}

/// `p` is a walk from a cell listed in `s`: its first cell is listed and each
/// further cell is a neighbour of the one before.
pub open spec fn walk_from(g: Grid, s: Seq<usize>, p: Seq<usize>) -> bool {
    &&& p.len() >= 1
    &&& (p[0] as int) < g.len()
    &&& is_seed(s, p[0] as int)
    &&& forall|i: int| 0 <= i < p.len() - 1 ==> g.edge(#[trigger] p[i] as int, p[i + 1] as int)
}

/// A walk of `k` steps ends within `k` steps.
proof fn lemma_walk_within(g: Grid, s: Seq<usize>, p: Seq<usize>)
    requires
        walk_from(g, s, p),
    ensures
        within(g, s, (p.len() - 1) as nat, p.last() as int),
    decreases p.len(),
{
    if p.len() > 1 {
        let q = p.drop_last();
        assert forall|i: int| 0 <= i < q.len() - 1 implies g.edge(#[trigger] q[i] as int, q[i + 1] as int) by {
            assert(q[i] == p[i] && q[i + 1] == p[i + 1]);
        }
        lemma_walk_within(g, s, q);
        assert(g.edge(p[p.len() - 2] as int, p[p.len() - 1] as int));
        lemma_within_step(g, s, (q.len() - 1) as nat, q.last() as int, p.last() as int);
    }
}

/// A flood fill agrees with looking at every walk: a cell that some walk
/// from the seeds reaches has a distance, and that distance is no more than
/// the walk's steps.
pub proof fn lemma_flood_fill_no_shorter_walk(
    g: Grid,
    s: Seq<usize>,
    field: Seq<Option<usize>>,
    p: Seq<usize>,
)
    requires
        g.wf(),
        is_distance_field(g, s, field),
        walk_from(g, s, p),
    ensures
        field[p.last() as int] matches Some(d) && d <= p.len() - 1,
{
    let k = (p.len() - 1) as nat;
    let v = p.last() as int;
    lemma_walk_within(g, s, p);
    lemma_within_bounds(g, s, k, v);
    let d = field[v]->Some_0;
    assert(exact(g, s, d as nat, v));
    if d > k {
        lemma_within_mono(g, s, k, (d - 1) as nat, v);
    }
}

/// A flood fill agrees with looking at every walk: each distance it gives is
/// the steps of some walk from the seeds to that cell.
pub proof fn lemma_flood_fill_has_walk(g: Grid, s: Seq<usize>, field: Seq<Option<usize>>, v: int) -> (p:
    Seq<usize>)
    requires
        g.wf(),
        is_distance_field(g, s, field),
        0 <= v < g.len(),
        field[v] is Some,
    ensures
        walk_from(g, s, p),
        p.last() == v as usize,
        p.len() == field[v]->Some_0 + 1,
{
    let d = field[v]->Some_0;
    assert(exact(g, s, d as nat, v));
    let p = lemma_walk_exists(g, s, d as nat, v);
    assert(exact(g, s, 0, p[0] as int));
    p
}

} // verus!
