use hex_harvest::distance::flood_fill;
use hex_harvest::grid::{
    adjacent, parse, parse_turn, resource_from_code, Cell, CellRecord, Grid, Player, Resource,
    StructuralError, TurnRecord,
};
use hex_harvest::search::{bfs, paths};

fn record(kind: i32, amount: usize, adj: &[i32]) -> CellRecord {
    let mut slots = [-1i32; 6];
    for (k, a) in adj.iter().enumerate() {
        slots[k] = *a;
    }
    CellRecord { kind, amount, adj: slots }
}

fn build(adj: &[&[i32]]) -> Grid {
    let records: Vec<CellRecord> = adj.iter().map(|a| record(0, 0, a)).collect();
    parse(&records, &vec![], &vec![]).unwrap()
}

/// 0 - 1 - 2 - 3, and 4 on its own.
fn line_grid() -> Grid {
    build(&[&[1], &[0, 2], &[1, 3], &[2], &[]])
}

/// 0 joins 1 and 2, both of which join 3.
fn diamond() -> Grid {
    build(&[&[1, 2], &[0, 3], &[0, 3], &[1, 2]])
}

fn mask(n: usize, on: &[usize]) -> Vec<bool> {
    (0..n).map(|v| on.contains(&v)).collect()
}

#[test]
fn new_cell_is_blank() {
    let c = Cell::new();
    assert_eq!(c.index, 0);
    assert_eq!(c.adj, [-1; 6]);
    assert_eq!(c.base, None);
    assert_eq!(c.resource, Resource::Empty);
    assert_eq!(c.resources, 0);
    assert_eq!(c.ants, 0);
    assert_eq!(c.enemy_ants, 0);
}

#[test]
fn adjacent_skips_sentinels() {
    let mut c = Cell::new();
    c.adj = [4, -1, 7, -1, -1, 2];
    assert_eq!(adjacent(&c), vec![4, 7, 2]);
    assert_eq!(adjacent(&Cell::new()), Vec::<usize>::new());
}

#[test]
fn resource_codes() {
    assert_eq!(resource_from_code(0), Some(Resource::Empty));
    assert_eq!(resource_from_code(1), Some(Resource::Egg));
    assert_eq!(resource_from_code(2), Some(Resource::Crystal));
    assert_eq!(resource_from_code(3), None);
    assert_eq!(resource_from_code(-1), None);
}

#[test]
fn parse_builds_cells_and_bases() {
    let records = vec![record(0, 0, &[1]), record(2, 30, &[0, 2]), record(1, 5, &[1])];
    let g = parse(&records, &vec![0], &vec![2]).unwrap();
    assert_eq!(g.cells.len(), 3);
    assert_eq!(g.cells[1].index, 1);
    assert_eq!(g.cells[1].resource, Resource::Crystal);
    assert_eq!(g.cells[1].resources, 30);
    assert_eq!(g.cells[2].resource, Resource::Egg);
    assert_eq!(g.cells[0].base, Some(Player::Ally));
    assert_eq!(g.cells[2].base, Some(Player::Enemy));
    assert_eq!(g.cells[1].base, None);
    assert_eq!(g.cells[1].adj, [0, 2, -1, -1, -1, -1]);
}

#[test]
fn parse_rejects_neighbour_out_of_range() {
    let records = vec![record(0, 0, &[1]), record(0, 0, &[0, 2])];
    assert_eq!(
        parse(&records, &vec![], &vec![]).unwrap_err(),
        StructuralError::NeighborOutOfRange(1)
    );
    let records = vec![record(0, 0, &[-2])];
    assert_eq!(
        parse(&records, &vec![], &vec![]).unwrap_err(),
        StructuralError::NeighborOutOfRange(0)
    );
}

#[test]
fn parse_rejects_unknown_resource() {
    let records = vec![record(0, 0, &[]), record(5, 0, &[])];
    assert_eq!(
        parse(&records, &vec![], &vec![]).unwrap_err(),
        StructuralError::UnknownResource(1)
    );
}

#[test]
fn parse_rejects_base_out_of_range() {
    let records = vec![record(0, 0, &[])];
    assert_eq!(
        parse(&records, &vec![3], &vec![]).unwrap_err(),
        StructuralError::BaseOutOfRange(3)
    );
    assert_eq!(
        parse(&records, &vec![0], &vec![1]).unwrap_err(),
        StructuralError::BaseOutOfRange(1)
    );
}

#[test]
fn parse_turn_overwrites_counts() {
    let records = vec![record(2, 9, &[1]), record(0, 0, &[0])];
    let mut g = parse(&records, &vec![0], &vec![]).unwrap();
    let turn = vec![
        TurnRecord { resources: 4, ants: 7, enemy_ants: 1 },
        TurnRecord { resources: 0, ants: 2, enemy_ants: 3 },
    ];
    assert_eq!(parse_turn(&mut g, 12, &turn), 12);
    assert_eq!(g.cells[0].resources, 4);
    assert_eq!(g.cells[0].ants, 7);
    assert_eq!(g.cells[1].enemy_ants, 3);
    assert_eq!(g.cells[0].resource, Resource::Crystal);
    assert_eq!(g.cells[0].base, Some(Player::Ally));
}

#[test]
fn flood_fill_counts_steps() {
    let g = line_grid();
    assert_eq!(flood_fill(&g, &vec![0]), vec![Some(0), Some(1), Some(2), Some(3), None]);
}

#[test]
fn flood_fill_from_several_seeds() {
    let g = line_grid();
    assert_eq!(flood_fill(&g, &vec![0, 3]), vec![Some(0), Some(1), Some(1), Some(0), None]);
    assert_eq!(flood_fill(&g, &vec![4]), vec![None, None, None, None, Some(0)]);
    assert_eq!(flood_fill(&g, &vec![]), vec![None; 5]);
}

#[test]
fn flood_fill_matches_brute_force() {
    let g = diamond();
    let field = flood_fill(&g, &vec![0]);
    // every pair of cells, by repeated relaxation over the neighbour lists
    let n = g.cells.len();
    let mut best = vec![usize::MAX; n];
    best[0] = 0;
    for _ in 0..n {
        for u in 0..n {
            if best[u] == usize::MAX {
                continue;
            }
            for v in adjacent(&g.cells[u]) {
                best[v] = best[v].min(best[u] + 1);
            }
        }
    }
    for v in 0..n {
        assert_eq!(field[v], Some(best[v]));
    }
}

#[test]
fn bfs_finds_nearest_target() {
    let g = line_grid();
    assert_eq!(bfs(&g, &vec![0], &mask(5, &[2, 3])), Some(2));
    assert_eq!(bfs(&g, &vec![3], &mask(5, &[0])), Some(0));
    assert_eq!(bfs(&g, &vec![1], &mask(5, &[1])), Some(1));
}

#[test]
fn bfs_reports_no_match() {
    let g = line_grid();
    assert_eq!(bfs(&g, &vec![0], &mask(5, &[4])), None);
    assert_eq!(bfs(&g, &vec![0], &mask(5, &[])), None);
}

#[test]
fn paths_lists_every_shortest_path() {
    let g = diamond();
    let mut ps = paths(&g, &vec![0], &mask(4, &[3]));
    ps.sort();
    assert_eq!(ps, vec![vec![0, 1, 3], vec![0, 2, 3]]);
}

#[test]
fn paths_single_shortest_path() {
    let g = line_grid();
    assert_eq!(paths(&g, &vec![0], &mask(5, &[3])), vec![vec![0, 1, 2, 3]]);
    assert_eq!(paths(&g, &vec![2], &mask(5, &[2])), vec![vec![2]]);
}

#[test]
fn paths_are_simple_and_match_flood_fill() {
    let g = diamond();
    let field = flood_fill(&g, &vec![1]);
    let ps = paths(&g, &vec![1], &mask(4, &[2]));
    assert!(!ps.is_empty());
    for p in &ps {
        let mut seen = p.clone();
        seen.sort();
        seen.dedup();
        assert_eq!(seen.len(), p.len());
        assert_eq!(field[*p.last().unwrap()], Some(p.len() - 1));
    }
}

#[test]
fn paths_empty_when_unreachable() {
    let g = line_grid();
    assert!(paths(&g, &vec![0], &mask(5, &[4])).is_empty());
}
