use vstd::prelude::*;

verus! {

/// Number of neighbour slots of a hexagonal cell.
pub const SLOTS: usize = 6;

/// Value of a neighbour slot that holds no neighbour.
pub const NO_NEIGHBOR: i32 = -1;

/// What a cell yields when harvested; fixed for the whole game.
#[derive(Copy, Clone, Debug, PartialEq, Eq, Structural)]
pub enum Resource {
    Empty,
    Egg,
    Crystal,
}

/// Which side's base a cell is, if any.
#[derive(Copy, Clone, Debug, PartialEq, Eq, Structural)]
pub enum Player {
    Ally,
    Enemy,
}

/// One board position. `adj` and `resource` are fixed at startup, the unit and
/// resource counts are overwritten every turn.
#[derive(Copy, Clone, Debug)]
pub struct Cell {
    pub index: usize,
    pub adj: [i32; 6],
    pub base: Option<Player>,
    pub resource: Resource,
    pub resources: usize,
    pub ants: usize,
    pub enemy_ants: usize,
}

impl Cell {
    /// A cell with index 0, no neighbours, no base, no resource and no units.
    pub fn new() -> (r: Cell)
        ensures
            r.index == 0,
            forall|k: int| 0 <= k < 6 ==> r.adj@[k] == NO_NEIGHBOR,
            r.base is None,
            r.resource == Resource::Empty,
            r.resources == 0,
            r.ants == 0,
            r.enemy_ants == 0,
    {
        Cell {
            index: 0,
            adj: [NO_NEIGHBOR, NO_NEIGHBOR, NO_NEIGHBOR, NO_NEIGHBOR, NO_NEIGHBOR, NO_NEIGHBOR],
            base: None,
            resource: Resource::Empty,
            resources: 0,
            ants: 0,
            enemy_ants: 0,
        }
    }
}

/// The neighbours held in the first `k` slots of `adj`, in slot order,
/// sentinels left out.
pub open spec fn neighbors_upto(adj: Seq<i32>, k: int) -> Seq<usize>
    decreases k,
{
    if k <= 0 {
        Seq::empty()
    } else if adj[k - 1] == NO_NEIGHBOR {
        neighbors_upto(adj, k - 1)
    } else {
        neighbors_upto(adj, k - 1).push(adj[k - 1] as usize)
    }
}

/// The neighbour indices of `cell`, in slot order, without the sentinels.
pub fn adjacent(cell: &Cell) -> (r: Vec<usize>)
    ensures
        r@ == neighbors_upto(cell.adj@, 6),
{
    let mut r: Vec<usize> = Vec::new();
    let mut k: usize = 0;
    while k < SLOTS
        invariant
            k <= 6,
            r@ == neighbors_upto(cell.adj@, k as int),
        decreases 6 - k,
    {
        let a = cell.adj[k];
        if a != NO_NEIGHBOR {
            r.push(a as usize);
        }
        k = k + 1;
    }
    r
}

/// Resource kind for the startup code of a cell: 0 none, 1 egg, 2 crystal.
pub open spec fn kind_of(code: i32) -> Option<Resource> {
    if code == 0 {
        Some(Resource::Empty)
    } else if code == 1 {
        Some(Resource::Egg)
    } else if code == 2 {
        Some(Resource::Crystal)
    } else {
        None
    }
}

/// Decodes the startup code of a cell's resource kind.
pub fn resource_from_code(code: i32) -> (r: Option<Resource>)
    ensures
        r == kind_of(code),
{
    if code == 0 {
        Some(Resource::Empty)
    } else if code == 1 {
        Some(Resource::Egg)
    } else if code == 2 {
        Some(Resource::Crystal)
    } else {
        None
    }
}

/// What the startup source gives for one cell.
#[derive(Copy, Clone, Debug)]
pub struct CellRecord {
    pub kind: i32,
    pub amount: usize,
    pub adj: [i32; 6],
}

/// What the turn source gives for one cell each turn.
#[derive(Copy, Clone, Debug, PartialEq, Eq, Structural)]
pub struct TurnRecord {
    pub resources: usize,
    pub ants: usize,
    pub enemy_ants: usize,
}

/// Why a startup table does not describe a usable grid.
#[derive(Copy, Clone, Debug, PartialEq, Eq, Structural)]
pub enum StructuralError {
    /// More cells than neighbour slots can address.
    TooManyCells,
    /// The cell with this index has a resource code outside 0..=2.
    UnknownResource(usize),
    /// The cell with this index names a neighbour that does not exist.
    NeighborOutOfRange(usize),
    /// A base list names this index, which is no cell.
    BaseOutOfRange(usize),
    /// The neighbour slots place the cell with this index at two different
    /// coordinates.
    InconsistentEmbedding(usize),
}

/// Largest number of cells a grid may hold (neighbour slots are `i32`).
pub const MAX_CELLS: usize = 0x7fff_fffe;

/// A neighbour slot value that is the sentinel or a cell of a grid of `n` cells.
pub open spec fn slot_ok(a: i32, n: int) -> bool {
    a == NO_NEIGHBOR || (0 <= a && (a as int) < n)
}

/// Every slot of `adj` is the sentinel or a cell of a grid of `n` cells.
pub open spec fn slots_ok(adj: Seq<i32>, n: int) -> bool {
    forall|k: int| 0 <= k < 6 ==> slot_ok(#[trigger] adj[k], n)
}

/// The board: one cell per index in `0..len`.
#[derive(Debug)]
pub struct Grid {
    pub cells: Vec<Cell>,
}

impl Grid {
    pub open spec fn len(&self) -> int {
        self.cells@.len() as int
    }

    /// Indices match positions and every neighbour slot is the sentinel or a cell.
    pub open spec fn wf(&self) -> bool {
        &&& self.cells@.len() <= MAX_CELLS
        &&& forall|i: int|
            0 <= i < self.len() ==> (#[trigger] self.cells@[i]).index == i && slots_ok(
                self.cells@[i].adj@,
                self.len(),
            )
    }

    /// `v` is listed among the neighbours of `u`.
    pub open spec fn edge(&self, u: int, v: int) -> bool {
        &&& 0 <= u < self.len()
        &&& 0 <= v
        &&& exists|k: int| 0 <= k < 6 && #[trigger] self.cells@[u].adj@[k] as int == v
    }

    /// The static attributes of `self` and `other` agree.
    pub open spec fn same_layout(&self, other: &Grid) -> bool {
        &&& self.cells@.len() == other.cells@.len()
        &&& forall|i: int|
            0 <= i < self.len() ==> {
                &&& (#[trigger] self.cells@[i]).index == other.cells@[i].index
                &&& self.cells@[i].adj == other.cells@[i].adj
                &&& self.cells@[i].base == other.cells@[i].base
                &&& self.cells@[i].resource == other.cells@[i].resource
            }
    }
}

/// The base affiliation that `parse` gives to cell `i`: enemy wins over ally.
pub open spec fn base_of(i: int, ally: Seq<usize>, enemy: Seq<usize>) -> Option<Player> {
    if enemy.contains(i as usize) {
        Some(Player::Enemy)
    } else if ally.contains(i as usize) {
        Some(Player::Ally)
    } else {
        None
    }
}

/// All indices in `s` are below `n`.
pub open spec fn all_below(s: Seq<usize>, n: int) -> bool {
    forall|i: int| 0 <= i < s.len() ==> (#[trigger] s[i] as int) < n
}

/// The startup table describes a grid.
pub open spec fn table_ok(recs: Seq<CellRecord>, ally: Seq<usize>, enemy: Seq<usize>) -> bool {
    &&& recs.len() <= MAX_CELLS
    &&& forall|i: int| 0 <= i < recs.len() ==> (#[trigger] kind_of(recs[i].kind)) is Some
    &&& forall|i: int| 0 <= i < recs.len() ==> slots_ok((#[trigger] recs[i]).adj@, recs.len() as int)
    &&& all_below(ally, recs.len() as int)
    &&& all_below(enemy, recs.len() as int)
}

fn slots_valid(adj: &[i32; 6], n: usize) -> (r: bool)
    ensures
        r == slots_ok(adj@, n as int),
{
    let mut k: usize = 0;
    while k < SLOTS
        invariant
            k <= 6,
            forall|j: int| 0 <= j < k ==> slot_ok(#[trigger] adj@[j], n as int),
        decreases 6 - k,
    {
        let a = adj[k];
        if !(a == NO_NEIGHBOR || (0 <= a && (a as usize) < n)) {
            return false;
        }
        k = k + 1;
    }
    true
}

fn first_out_of_range(s: &Vec<usize>, n: usize) -> (r: Option<usize>)
    ensures
        r is None <==> all_below(s@, n as int),
        r matches Some(x) ==> s@.contains(x) && x >= n,
{
    let mut i: usize = 0;
    while i < s.len()
        invariant
            i <= s.len(),
            forall|j: int| 0 <= j < i ==> (#[trigger] s@[j] as int) < n,
        decreases s.len() - i,
    {
        if s[i] >= n {
            return Some(s[i]);
        }
        i = i + 1;
    }
    None
}

fn member(s: &Vec<usize>, x: usize) -> (r: bool)
    ensures
        r == s@.contains(x),
{
    let mut i: usize = 0;
    while i < s.len()
        invariant
            i <= s.len(),
            forall|j: int| 0 <= j < i ==> s@[j] != x,
        decreases s.len() - i,
    {
        if s[i] == x {
            return true;
        }
        i = i + 1;
    }
    false
}

/// Builds the grid from the startup table and the two base lists.
pub fn parse(records: &Vec<CellRecord>, ally: &Vec<usize>, enemy: &Vec<usize>) -> (r: Result<
    Grid,
    StructuralError,
>)
    ensures
        r is Ok <==> table_ok(records@, ally@, enemy@),
        r matches Ok(g) ==> {
            &&& g.wf()
            &&& g.len() == records@.len()
            &&& forall|i: int|
                0 <= i < g.len() ==> {
                    let c = #[trigger] g.cells@[i];
                    &&& c.adj == records@[i].adj
                    &&& Some(c.resource) == kind_of(records@[i].kind)
                    &&& c.resources == records@[i].amount
                    &&& c.ants == 0
                    &&& c.enemy_ants == 0
                    &&& c.base == base_of(i, ally@, enemy@)
                }
        },
        r matches Err(StructuralError::TooManyCells) ==> records@.len() > MAX_CELLS,
        r matches Err(StructuralError::UnknownResource(i)) ==> i < records@.len() && kind_of(
            records@[i as int].kind,
        ) is None,
        r matches Err(StructuralError::NeighborOutOfRange(i)) ==> i < records@.len() && !slots_ok(
            records@[i as int].adj@,
            records@.len() as int,
        ),
        r matches Err(StructuralError::BaseOutOfRange(i)) ==> i >= records@.len() && (ally@.contains(
            i,
        ) || enemy@.contains(i)),
{
    let n = records.len();
    if n > MAX_CELLS {
        return Err(StructuralError::TooManyCells);
    }
    if let Some(x) = first_out_of_range(ally, n) {
        return Err(StructuralError::BaseOutOfRange(x));
    }
    if let Some(x) = first_out_of_range(enemy, n) {
        return Err(StructuralError::BaseOutOfRange(x));
    }
    let mut cells: Vec<Cell> = Vec::new();
    let mut i: usize = 0;
    while i < n
        invariant
            n == records@.len(),
            n <= MAX_CELLS,
            i <= n,
            cells@.len() == i,
            forall|j: int| 0 <= j < i ==> (#[trigger] kind_of(records@[j].kind)) is Some,
            forall|j: int| 0 <= j < i ==> slots_ok((#[trigger] records@[j]).adj@, n as int),
            forall|j: int|
                0 <= j < i ==> {
                    let c = #[trigger] cells@[j];
                    &&& c.index == j
                    &&& c.adj == records@[j].adj
                    &&& Some(c.resource) == kind_of(records@[j].kind)
                    &&& c.resources == records@[j].amount
                    &&& c.ants == 0
                    &&& c.enemy_ants == 0
                    &&& c.base == base_of(j, ally@, enemy@)
                },
        decreases n - i,
    {
        let rec = records[i];
        let resource = match resource_from_code(rec.kind) {
            Some(k) => k,
            None => {
                return Err(StructuralError::UnknownResource(i));
            },
        };
        if !slots_valid(&rec.adj, n) {
            return Err(StructuralError::NeighborOutOfRange(i));
        }
        let mut cell = Cell::new();
        cell.index = i;
        cell.resource = resource;
        cell.resources = rec.amount;
        cell.adj = rec.adj;
        if member(enemy, i) {
            cell.base = Some(Player::Enemy);
        } else if member(ally, i) {
            cell.base = Some(Player::Ally);
        }
        cells.push(cell);
        i = i + 1;
    }
    Ok(Grid { cells })
}

/// Overwrites every cell's resource and unit counts with this turn's records
/// and hands back the harvested-so-far counter.
pub fn parse_turn(grid: &mut Grid, harvested: usize, records: &Vec<TurnRecord>) -> (r: usize)
    requires
        records@.len() == old(grid).len(),
    ensures
        r == harvested,
        final(grid).same_layout(old(grid)),
        old(grid).wf() ==> final(grid).wf(),
        forall|i: int|
            0 <= i < old(grid).len() ==> {
                let c = #[trigger] final(grid).cells@[i];
                &&& c.resources == records@[i].resources
                &&& c.ants == records@[i].ants
                &&& c.enemy_ants == records@[i].enemy_ants
            },
{
    let n = grid.cells.len();
    let mut i: usize = 0;
    while i < n
        invariant
            n == grid.cells@.len(),
            n == old(grid).cells@.len(),
            records@.len() == n,
            i <= n,
            grid.same_layout(old(grid)),
            forall|j: int|
                0 <= j < i ==> {
                    let c = #[trigger] grid.cells@[j];
                    &&& c.resources == records@[j].resources
                    &&& c.ants == records@[j].ants
                    &&& c.enemy_ants == records@[j].enemy_ants
                },
        decreases n - i,
    {
        let mut cell = grid.cells[i];
        let rec = records[i];
        cell.resources = rec.resources;
        cell.ants = rec.ants;
        cell.enemy_ants = rec.enemy_ants;
        grid.cells.set(i, cell);
        i = i + 1;
    }
    harvested
}

} // verus!
