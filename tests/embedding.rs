use hex_harvest::embedding::embed;
use hex_harvest::grid::{parse, CellRecord, Grid, StructuralError};

fn build(adj: &[[i32; 6]]) -> Grid {
    let records: Vec<CellRecord> =
        adj.iter().map(|a| CellRecord { kind: 0, amount: 0, adj: *a }).collect();
    parse(&records, &vec![], &vec![]).unwrap()
}

/// A centre cell and its six neighbours, each linking back through the
/// opposite slot.
fn hexagon() -> Grid {
    let mut adj = vec![[1, 2, 3, 4, 5, 6]];
    for k in 0..6 {
        let mut a = [-1; 6];
        a[(k + 3) % 6] = 0;
        adj.push(a);
    }
    build(&adj)
}

#[test]
fn embed_places_ring_around_origin() {
    let coords = embed(&hexagon()).unwrap();
    assert_eq!(
        coords,
        vec![
            Some((0, 0)),
            Some((1, 0)),
            Some((1, -1)),
            Some((0, -1)),
            Some((-1, 0)),
            Some((-1, 1)),
            Some((0, 1)),
        ]
    );
}

#[test]
fn embed_leaves_unreachable_cells_out() {
    let g = build(&[[-1, -1, -1, 1, -1, -1], [0, -1, -1, -1, -1, -1], [-1; 6]]);
    assert_eq!(embed(&g).unwrap(), vec![Some((0, 0)), Some((-1, 0)), None]);
}

#[test]
fn embed_reports_inconsistent_slots() {
    // both cells say the other lies to the east
    let g = build(&[[1, -1, -1, -1, -1, -1], [0, -1, -1, -1, -1, -1]]);
    assert_eq!(embed(&g).unwrap_err(), StructuralError::InconsistentEmbedding(0));
}

#[test]
fn embed_of_empty_board() {
    assert_eq!(embed(&build(&[])).unwrap(), Vec::<Option<(i64, i64)>>::new());
}
