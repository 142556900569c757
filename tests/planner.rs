use hex_harvest::grid::{parse, parse_turn, CellRecord, Grid, Player, TurnRecord};
use hex_harvest::distance::Distances;
use hex_harvest::mode::{cube_root_rounded, select_mode, Mode};
use hex_harvest::planner::{bases_of, candidates, commands, has_eggs, plan_turn, Command};
use hex_harvest::search::{bfs, paths};
use hex_harvest::tracker::{goal_of, totals};

fn record(kind: i32, amount: usize, adj: &[i32]) -> CellRecord {
    let mut slots = [-1i32; 6];
    for (k, a) in adj.iter().enumerate() {
        slots[k] = *a;
    }
    CellRecord { kind, amount, adj: slots }
}

fn turn(grid: &mut Grid, rows: &[(usize, usize)]) {
    let recs: Vec<TurnRecord> = rows
        .iter()
        .map(|&(resources, ants)| TurnRecord { resources, ants, enemy_ants: 0 })
        .collect();
    parse_turn(grid, 0, &recs);
}

/// A centre cell joined to six ring cells, which touch only the centre; the
/// crystal cell of the ring is cell 1.
fn star(crystal: usize) -> Grid {
    let mut records = vec![record(0, 0, &[1, 2, 3, 4, 5, 6])];
    for i in 1..7 {
        let kind = if i == 1 { 2 } else { 0 };
        let amount = if i == 1 { crystal } else { 0 };
        records.push(record(kind, amount, &[0]));
    }
    parse(&records, &vec![0], &vec![]).unwrap()
}

fn star_turn(grid: &mut Grid, ants: usize) {
    let mut rows = vec![(0, ants)];
    for i in 1..7 {
        rows.push((if i == 1 { 10 } else { 0 }, 0));
    }
    turn(grid, &rows);
}

#[test]
fn scenario_star_connects_crystal() {
    let mut g = star(10);
    let bases = bases_of(&g, Player::Ally);
    assert_eq!(bases, vec![0]);
    let dists = Distances::compute(&g, &bases, &vec![]);
    let goal = goal_of(&g);
    assert_eq!(goal, 5);
    star_turn(&mut g, 3);
    let threshold = cube_root_rounded(g.cells.len());
    assert_eq!(threshold, 2);
    let plan = plan_turn(&g, &dists, &bases, threshold, goal, 0);
    assert_eq!(plan.units, 3);
    assert_eq!(plan.mode, Mode::Balanced);
    assert_eq!(plan.candidates, vec![1]);
    assert_eq!(plan.decisions.len(), 1);
    assert_eq!(plan.decisions[0].cost, Some(1));
    assert!(plan.decisions[0].committed);
    assert_eq!(plan.claimed, vec![0, 1]);
    assert_eq!(plan.budget, 2);
    assert_eq!(
        commands(&plan, &bases),
        vec![Command::Announce(Mode::Balanced), Command::Reinforce(0, 1), Command::Connect(0, 1, 1)]
    );
    // goal already met: harvest mode, same connection
    let plan = plan_turn(&g, &dists, &bases, threshold, goal, 5);
    assert_eq!(plan.mode, Mode::Harvest);
    assert_eq!(plan.claimed, vec![0, 1]);
}

#[test]
fn scenario_star_without_units_is_idle() {
    let mut g = star(10);
    let bases = vec![0];
    let dists = Distances::compute(&g, &bases, &vec![]);
    star_turn(&mut g, 0);
    let plan = plan_turn(&g, &dists, &bases, 2, 5, 0);
    assert_eq!(plan.units, 0);
    assert_eq!(plan.budget, 0);
    assert_eq!(plan.decisions.len(), 1);
    assert_eq!(plan.decisions[0].cost, Some(1));
    assert!(!plan.decisions[0].committed);
    assert_eq!(plan.claimed, vec![0]);
    assert_eq!(commands(&plan, &bases), vec![Command::Idle]);
}

/// 0 - 1 and, apart, 2 - 3; the base is 0.
fn split_grid() -> Grid {
    let records = vec![
        record(0, 0, &[1]),
        record(2, 5, &[0]),
        record(0, 0, &[3]),
        record(2, 50, &[2]),
    ];
    parse(&records, &vec![0], &vec![]).unwrap()
}

#[test]
fn scenario_unreachable_candidate_is_skipped() {
    let mut g = split_grid();
    let bases = vec![0];
    let dists = Distances::compute(&g, &bases, &vec![]);
    assert_eq!(dists.friendly, vec![Some(0), Some(1), None, None]);
    turn(&mut g, &[(0, 4), (5, 0), (0, 0), (50, 0)]);
    assert_eq!(bfs(&g, &bases, &vec![false, false, false, true]), None);
    assert!(paths(&g, &bases, &vec![false, false, false, true]).is_empty());
    let plan = plan_turn(&g, &dists, &bases, 2, 1000, 0);
    assert_eq!(plan.mode, Mode::Balanced);
    assert_eq!(plan.candidates, vec![1, 3]);
    assert_eq!(plan.decisions[1].cell, 3);
    assert_eq!(plan.decisions[1].cost, None);
    assert!(!plan.decisions[1].committed);
    assert!(plan.decisions[0].committed);
    assert_eq!(plan.claimed, vec![0, 1]);
}

#[test]
fn cube_root_rounds_to_nearest() {
    assert_eq!(cube_root_rounded(0), 0);
    assert_eq!(cube_root_rounded(1), 1);
    assert_eq!(cube_root_rounded(3), 1);
    assert_eq!(cube_root_rounded(4), 2);
    assert_eq!(cube_root_rounded(8), 2);
    assert_eq!(cube_root_rounded(27), 3);
    assert_eq!(cube_root_rounded(42), 3);
    assert_eq!(cube_root_rounded(43), 4);
    assert_eq!(cube_root_rounded(1000), 10);
    assert_eq!(cube_root_rounded(usize::MAX), 2_642_246);
}

#[test]
fn mode_selection() {
    assert_eq!(select_mode(100, 10, 2, true), Mode::Growth);
    assert_eq!(select_mode(100, 10, 2, false), Mode::Balanced);
    assert_eq!(select_mode(20, 10, 2, true), Mode::Balanced);
    assert_eq!(select_mode(5, 10, 2, true), Mode::Harvest);
    assert_eq!(select_mode(0, 10, 2, false), Mode::Harvest);
    assert_eq!(select_mode(5, 0, 2, true), Mode::Growth);
    assert_eq!(select_mode(5, 0, 2, false), Mode::Balanced);
}

#[test]
fn mode_selection_repeats() {
    for &(needed, units, threshold, eggs) in
        &[(7usize, 3usize, 1usize, true), (0, 0, 0, false), (9, 2, 4, true), (30, 2, 4, false)]
    {
        assert_eq!(
            select_mode(needed, units, threshold, eggs),
            select_mode(needed, units, threshold, eggs)
        );
    }
}

/// A line 0 - 1 - 2 - 3 - 4 with the base at 0, a crystal at 1 and an egg at 3.
fn line_with_egg() -> Grid {
    let records = vec![
        record(0, 0, &[1]),
        record(2, 8, &[0, 2]),
        record(0, 0, &[1, 3]),
        record(1, 6, &[2, 4]),
        record(0, 0, &[3]),
    ];
    parse(&records, &vec![0], &vec![4]).unwrap()
}

#[test]
fn totals_discount_eggs_by_distance() {
    let mut g = line_with_egg();
    let dists = Distances::compute(&g, &vec![0], &vec![4]);
    turn(&mut g, &[(0, 2), (8, 1), (0, 0), (6, 0), (0, 0)]);
    let t = totals(&g, &dists.friendly);
    assert_eq!(t.crystals, 8);
    assert_eq!(t.egg_value, 6 / 4);
    assert_eq!(t.ants, 3);
    assert!(has_eggs(&g));
}

#[test]
fn egg_is_decided_first() {
    let mut g = line_with_egg();
    let bases = vec![0];
    let dists = Distances::compute(&g, &bases, &vec![4]);
    turn(&mut g, &[(0, 3), (8, 0), (0, 0), (6, 0), (0, 0)]);
    let plan = plan_turn(&g, &dists, &bases, 2, 4, 0);
    assert_eq!(plan.mode, Mode::Balanced);
    assert_eq!(plan.candidates, vec![1, 3]);
    assert!(plan.egg_first);
    assert_eq!(plan.decisions[0].cell, 3);
    assert_eq!(plan.decisions[0].cost, Some(3));
    // the egg may use the whole budget
    assert!(plan.decisions[0].committed);
    assert_eq!(plan.decisions[1].cell, 1);
    assert!(!plan.decisions[1].committed);
    assert_eq!(plan.budget, 0);
    assert_eq!(plan.claimed, vec![0, 1, 2, 3]);
}

#[test]
fn budget_is_never_exceeded() {
    let mut g = line_with_egg();
    let bases = vec![0];
    let dists = Distances::compute(&g, &bases, &vec![4]);
    for ants in 0..8 {
        turn(&mut g, &[(0, ants), (8, 0), (0, 0), (6, 0), (0, 0)]);
        let plan = plan_turn(&g, &dists, &bases, 2, 100, 0);
        let mut left = plan.units;
        let mut spent = 0;
        for (i, d) in plan.decisions.iter().enumerate() {
            if d.committed {
                let c = d.cost.unwrap();
                if i == 0 && plan.egg_first {
                    assert!(c <= left);
                } else {
                    assert!(c < left);
                }
                left -= c;
                spent += c;
            }
        }
        assert!(spent <= plan.units);
        assert_eq!(plan.budget, plan.units - spent);
    }
}

#[test]
fn harvest_keeps_defensible_crystals() {
    let mut g = line_with_egg();
    let dists = Distances::compute(&g, &vec![0], &vec![4]);
    turn(&mut g, &[(0, 1), (8, 0), (0, 0), (6, 0), (0, 0)]);
    assert_eq!(candidates(&g, &dists, Mode::Harvest), vec![1]);
    assert_eq!(candidates(&g, &dists, Mode::Growth), vec![3]);
    assert_eq!(candidates(&g, &dists, Mode::Balanced), vec![1, 3]);
}

#[test]
fn no_candidates_gives_idle() {
    let mut g = line_with_egg();
    let bases = vec![0];
    let dists = Distances::compute(&g, &bases, &vec![4]);
    turn(&mut g, &[(0, 5), (0, 0), (0, 0), (0, 0), (0, 0)]);
    let plan = plan_turn(&g, &dists, &bases, 2, 4, 0);
    assert!(plan.candidates.is_empty());
    assert_eq!(commands(&plan, &bases), vec![Command::Idle]);
}
