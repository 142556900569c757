use vstd::prelude::*;
use vstd::set_lib::{lemma_int_range, lemma_len_subset, set_int_range};
use crate::grid::{Grid, MAX_CELLS, NO_NEIGHBOR, SLOTS, StructuralError, slot_ok, slots_ok};
use crate::distance::{lemma_within_step, within};

verus! {

/// Axial coordinate offset of neighbour slot `k`: east, north-east,
/// north-west, west, south-west, south-east.
pub open spec fn offset_of(k: int) -> (int, int) {
    if k == 0 {
        (1, 0)
    } else if k == 1 {
        (1, -1)
    } else if k == 2 {
        (0, -1)
    } else if k == 3 {
        (-1, 0)
    } else if k == 4 {
        (-1, 1)
    } else {
        (0, 1)
    }
}

fn offset(k: usize) -> (r: (i64, i64))
    requires
        k < 6,
    ensures
        r.0 as int == offset_of(k as int).0,
        r.1 as int == offset_of(k as int).1,
{
    if k == 0 {
        (1, 0)
    } else if k == 1 {
        (1, -1)
    } else if k == 2 {
        (0, -1)
    } else if k == 3 {
        (-1, 0)
    } else if k == 4 {
        (-1, 1)
    } else {
        (0, 1)
    }
}

/// Following slot `k` from a cell at `p` leads to `c`.
pub open spec fn follows(p: (i64, i64), k: int, c: (i64, i64)) -> bool {
    c.0 == p.0 + offset_of(k).0 && c.1 == p.1 + offset_of(k).1
}

/// `e` places cell `v`, at `p` moved by the offset of slot `k`.
pub open spec fn lands(e: Seq<Option<(i64, i64)>>, v: int, p: (i64, i64), k: int) -> bool {
    e[v] matches Some(c) && follows(p, k, c)
}

/// Every neighbour slot of every placed cell leads to a placed cell at the
/// slot's offset.
pub open spec fn consistent(g: Grid, e: Seq<Option<(i64, i64)>>) -> bool {
    forall|u: int, k: int|
        0 <= u < g.len() && 0 <= k < 6 && e[u] is Some && #[trigger] g.cells@[u].adj@[k] != NO_NEIGHBOR
            ==> lands(e, g.cells@[u].adj@[k] as int, e[u]->Some_0, k)
}

/// `e` places cell 0 at the origin and is consistent.
pub open spec fn is_embedding(g: Grid, e: Seq<Option<(i64, i64)>>) -> bool {
    &&& e.len() == g.len()
    &&& g.len() > 0 ==> e[0] == Some((0i64, 0i64))
    &&& consistent(g, e)
}

/// Assigns axial coordinates by breadth-first traversal from cell 0, adding
/// each slot's offset when following it. Cells that cannot be reached from
/// cell 0 get none. Fails when two routes place a cell differently, and then
/// no embedding exists.
pub fn embed(grid: &Grid) -> (r: Result<Vec<Option<(i64, i64)>>, StructuralError>)
    requires
        grid.wf(),
    ensures
        r matches Ok(c) ==> {
            &&& is_embedding(*grid, c@)
            &&& forall|v: int|
                0 <= v < grid.len() ==> (#[trigger] c@[v] is Some <==> exists|k: nat|
                    within(*grid, seq![0usize], k, v))
        },
        r matches Err(e) ==> e is InconsistentEmbedding && forall|e: Seq<Option<(i64, i64)>>|
            !is_embedding(*grid, e),
{
    let n = grid.cells.len();
    let mut coords: Vec<Option<(i64, i64)>> = Vec::new();
    while coords.len() < n
        invariant
            coords@.len() <= n,
            forall|v: int| 0 <= v < coords@.len() ==> coords@[v] is None,
        decreases n - coords@.len(),
    {
        coords.push(None);
    }
    if n == 0 {
        return Ok(coords);
    }
    coords.set(0, Some((0, 0)));
    let ghost s: Seq<usize> = seq![0usize];
    proof {
        assert(s[0] as int == 0);
        assert(within(*grid, s, 0, 0));
    }
    let mut queue: Vec<usize> = Vec::new();
    queue.push(0);
    let mut head: usize = 0;
    let ghost mut placed: Set<int> = set![0int];
    while head < queue.len()
        invariant
            grid.wf(),
            n == grid.len(),
            n > 0,
            s == seq![0usize],
            coords@.len() == n,
            coords@[0] == Some((0i64, 0i64)),
            head <= queue@.len(),
            forall|i: int| 0 <= i < queue@.len() ==> (#[trigger] queue@[i] as int) < n,
            forall|v: int| 0 <= v < n ==> (#[trigger] coords@[v] is Some <==> placed.contains(v)),
            forall|v: int| 0 <= v < n ==> (coords@[v] is Some <==> queue@.contains(v as usize)),
            placed.subset_of(set_int_range(0, n as int)),
            placed.finite(),
            queue@.len() == placed.len(),
            forall|v: int|
                0 <= v < n && #[trigger] coords@[v] is Some ==> {
                    let c = coords@[v]->Some_0;
                    -(queue@.len() as int) <= c.0 <= queue@.len() && -(queue@.len() as int) <= c.1
                        <= queue@.len()
                },
            forall|v: int| 0 <= v < n && #[trigger] coords@[v] is Some ==> exists|k: nat| within(*grid, s, k, v),
            forall|i: int, k: int|
                0 <= i < head && 0 <= k < 6 && #[trigger] grid.cells@[queue@[i] as int].adj@[k] != NO_NEIGHBOR
                    ==> lands(coords@, grid.cells@[queue@[i] as int].adj@[k] as int, coords@[queue@[i] as int]->Some_0, k),
            forall|e: Seq<Option<(i64, i64)>>|
                #[trigger] is_embedding(*grid, e) ==> forall|v: int|
                    0 <= v < n && coords@[v] is Some ==> e[v] == coords@[v],
        decreases n - head,
    {
        proof {
            lemma_int_range(0, n as int);
            lemma_len_subset(placed, set_int_range(0, n as int));
        }
        let u = queue[head];
        let p = coords[u].unwrap();
        let adj = grid.cells[u].adj;
        assert(slots_ok(adj@, n as int));
        let mut k: usize = 0;
        while k < SLOTS
            invariant
                grid.wf(),
                n == grid.len(),
                n > 0,
                s == seq![0usize],
                coords@.len() == n,
                coords@[0] == Some((0i64, 0i64)),
                head < queue@.len(),
                u == queue@[head as int],
                (u as int) < n,
                coords@[u as int] == Some(p),
                adj == grid.cells@[u as int].adj,
                slots_ok(adj@, n as int),
                k <= 6,
                forall|i: int| 0 <= i < queue@.len() ==> (#[trigger] queue@[i] as int) < n,
                forall|v: int| 0 <= v < n ==> (#[trigger] coords@[v] is Some <==> placed.contains(v)),
                forall|v: int| 0 <= v < n ==> (coords@[v] is Some <==> queue@.contains(v as usize)),
                placed.subset_of(set_int_range(0, n as int)),
                placed.finite(),
                queue@.len() == placed.len(),
                queue@.len() <= n,
                forall|v: int|
                    0 <= v < n && #[trigger] coords@[v] is Some ==> {
                        let c = coords@[v]->Some_0;
                        -(queue@.len() as int) <= c.0 <= queue@.len() && -(queue@.len() as int) <= c.1
                            <= queue@.len()
                    },
                forall|v: int| 0 <= v < n && #[trigger] coords@[v] is Some ==> exists|k: nat| within(*grid, s, k, v),
                forall|i: int, kk: int|
                    0 <= i < head && 0 <= kk < 6 && #[trigger] grid.cells@[queue@[i] as int].adj@[kk]
                        != NO_NEIGHBOR ==> lands(coords@, grid.cells@[queue@[i] as int].adj@[kk] as int, coords@[queue@[i] as int]->Some_0, kk),
                forall|kk: int|
                    0 <= kk < k && #[trigger] adj@[kk] != NO_NEIGHBOR ==> lands(coords@, adj@[kk] as int, p, kk),
                forall|e: Seq<Option<(i64, i64)>>|
                    #[trigger] is_embedding(*grid, e) ==> forall|v: int|
                        0 <= v < n && coords@[v] is Some ==> e[v] == coords@[v],
            decreases 6 - k,
        {
            let a = adj[k];
            assert(slot_ok(adj@[k as int], n as int));
            if a != NO_NEIGHBOR {
                let v = a as usize;
                let (dq, dr) = offset(k);
                let want = (p.0 + dq, p.1 + dr);
                match coords[v] {
                    Some(c) => {
                        if c.0 != want.0 || c.1 != want.1 {
                            proof {
                                assert forall|e: Seq<Option<(i64, i64)>>| !is_embedding(*grid, e) by {
                                    if is_embedding(*grid, e) {
                                        assert(e[u as int] == coords@[u as int]);
                                        assert(e[v as int] == coords@[v as int]);
                                        assert(grid.cells@[u as int].adj@[k as int] != NO_NEIGHBOR);
                                    }
                                }
                            }
                            return Err(StructuralError::InconsistentEmbedding(v));
                        }
                    },
                    None => {
                        let ghost kw = choose|kw: nat| within(*grid, s, kw, u as int);
                        proof {
                            assert(!placed.contains(v as int));
                            lemma_int_range(0, n as int);
                            lemma_len_subset(placed.insert(v as int), set_int_range(0, n as int));
                            assert(grid.edge(u as int, v as int)) by {
                                assert(grid.cells@[u as int].adj@[k as int] as int == v as int);
                            }
                            lemma_within_step(*grid, s, kw, u as int, v as int);
                        }
                        let ghost old_coords = coords@;
                        let ghost old_queue = queue@;
                        coords.set(v, Some(want));
                        queue.push(v);
                        proof {
                            placed = placed.insert(v as int);
                            assert forall|w: int| 0 <= w < n implies (coords@[w] is Some <==> queue@.contains(
                                w as usize,
                            )) by {
                                if w != v as int && old_queue.contains(w as usize) {
                                    let i = choose|i: int| 0 <= i < old_queue.len() && old_queue[i] == w as usize;
                                    assert(queue@[i] == w as usize);
                                }
                                if w != v as int && queue@.contains(w as usize) {
                                    let i = choose|i: int| 0 <= i < queue@.len() && queue@[i] == w as usize;
                                    assert(i < old_queue.len());
                                    assert(old_queue[i] == w as usize);
                                }
                                if w == v as int {
                                    assert(queue@[old_queue.len() as int] == v);
                                }
                            }
                            assert forall|w: int| 0 <= w < n && #[trigger] coords@[w] is Some implies exists|kk: nat|
                                within(*grid, s, kk, w) by {
                                if w == v as int {
                                    assert(within(*grid, s, kw + 1, w));
                                } else {
                                    assert(old_coords[w] is Some);
                                }
                            }
                            assert forall|e: Seq<Option<(i64, i64)>>| #[trigger] is_embedding(*grid, e) implies forall|w: int|
                                0 <= w < n && coords@[w] is Some ==> e[w] == coords@[w] by {
                                assert(e[u as int] == old_coords[u as int]);
                                assert(grid.cells@[u as int].adj@[k as int] != NO_NEIGHBOR);
                            }
                        }
                    },
                }
            }
            k = k + 1;
        }
        head = head + 1;
    }
    proof {
        assert forall|v: int| 0 <= v < n implies (#[trigger] coords@[v] is Some <==> exists|k: nat|
            within(*grid, s, k, v)) by {
            if exists|k: nat| within(*grid, s, k, v) {
                let k = choose|k: nat| within(*grid, s, k, v);
                lemma_placed_closed(*grid, coords@, k, v);
            }
        }
        assert forall|u: int, k: int|
            0 <= u < n && 0 <= k < 6 && coords@[u] is Some && #[trigger] grid.cells@[u].adj@[k] != NO_NEIGHBOR
                implies lands(coords@, grid.cells@[u].adj@[k] as int, coords@[u]->Some_0, k) by {
            assert(queue@.contains(u as usize));
            let i = choose|i: int| 0 <= i < queue@.len() && queue@[i] == u as usize;
            assert(grid.cells@[queue@[i] as int].adj@[k] != NO_NEIGHBOR);
        }
    }
    Ok(coords)
}

/// In a consistent placement that places cell 0, every cell reachable from
/// cell 0 is placed.
proof fn lemma_placed_closed(g: Grid, e: Seq<Option<(i64, i64)>>, k: nat, v: int)
    requires
        g.wf(),
        e.len() == g.len(),
        g.len() > 0,
        e[0] is Some,
        consistent(g, e),
        within(g, seq![0usize], k, v),
    ensures
        e[v] is Some,
    decreases k,
{
    if k == 0 {
        let i = choose|i: int| 0 <= i < 1 && seq![0usize][i] as int == v;
        assert(seq![0usize][i] == 0);
    } else if within(g, seq![0usize], (k - 1) as nat, v) {
        lemma_placed_closed(g, e, (k - 1) as nat, v);
    } else {
        let u = choose|u: int| within(g, seq![0usize], (k - 1) as nat, u) && #[trigger] g.edge(u, v);
        lemma_placed_closed(g, e, (k - 1) as nat, u);
        let j = choose|j: int| 0 <= j < 6 && #[trigger] g.cells@[u].adj@[j] as int == v;
        assert(g.cells@[u].adj@[j] != NO_NEIGHBOR);
    }
}

} // verus!
