//! The grid, paths and single-agent search of the reference solver.
//! Movement is cardinal: an agent steps north, south, west or east, or waits.

use vstd::prelude::*;
use vstd::slice::slice_to_vec;

verus! {

/// A cell of the grid.
#[derive(Debug, Clone, Copy, PartialEq, Eq, Hash, Structural)]
pub struct Coordinate {
    pub x: u32,
    pub y: u32,
}

/// A grid map for pathfinding: row-major tiles, 1 for passable and 0 for
/// blocked.
#[derive(Debug, Clone)]
pub struct Grid {
    pub data: Vec<u8>,
    pub width: u32,
    pub height: u32,
}

/// A path from start to goal.
#[derive(Debug, Clone, PartialEq)]
pub struct Path {
    pub steps: Vec<Coordinate>,
}

/// Action types an agent can take.
#[derive(Debug, Clone, Copy, PartialEq, Eq, Structural)]
pub enum ActionType {
    /// Move to an adjacent cell (N/S/E/W)
    Move,
    /// Stay in place (wait)
    NoOp,
}

impl View for Path {
    type V = Seq<Coordinate>;

    open spec fn view(&self) -> Seq<Coordinate> {
        self.steps@
    }
}

/// The step sequences of a list of paths.
pub open spec fn plan_of(paths: Seq<Path>) -> Seq<Seq<Coordinate>> {
    Seq::new(paths.len(), |i: int| paths[i]@)
}

// ---------------------------------------------------------------------------
// Cells
// ---------------------------------------------------------------------------

/// The cell `(x, y)` lies inside the grid and its tile lets an agent in.
/// A strict reading takes only the tile value 1 for passable; a loose one
/// takes every value but 0. A tile that the data does not hold is blocked.
pub open spec fn cell_open(
    tiles: Seq<u8>,
    width: u32,
    height: u32,
    strict: bool,
    x: int,
    y: int,
) -> bool {
    &&& 0 <= x < width
    &&& 0 <= y < height
    &&& y * width + x < tiles.len()
    &&& if strict {
        tiles[y * width + x] == 1
    } else {
        tiles[y * width + x] != 0
    }
}

/// `cell_open` of a coordinate.
pub open spec fn open_at(tiles: Seq<u8>, width: u32, height: u32, strict: bool, c: Coordinate) -> bool {
    cell_open(tiles, width, height, strict, c.x as int, c.y as int)
}

/// Manhattan distance between two cells.
pub open spec fn manhattan(a: Coordinate, b: Coordinate) -> nat {
    ((if a.x >= b.x {
        a.x - b.x
    } else {
        b.x - a.x
    }) + (if a.y >= b.y {
        a.y - b.y
    } else {
        b.y - a.y
    })) as nat
}

/// One cell is the other, or its neighbour to the north, south, west or east.
pub open spec fn step_ok(from: Coordinate, to: Coordinate) -> bool {
    manhattan(from, to) <= 1
}

/// Looks up whether a cell is open.
pub fn tile_open(tiles: &[u8], width: u32, height: u32, strict: bool, x: u32, y: u32) -> (open: bool)
    ensures
        open == cell_open(tiles@, width, height, strict, x as int, y as int),
{
    if x >= width || y >= height {
        return false;
    }
    assert(y * width <= 0xffff_ffff * 0xffff_ffff) by (nonlinear_arith)
        requires
            0 <= y <= 0xffff_ffff,
            0 <= width <= 0xffff_ffff,
    ;
    let idx: u64 = y as u64 * width as u64 + x as u64;
    if idx >= tiles.len() as u64 {
        return false;
    }
    let tile = tiles[idx as usize];
    if strict {
        tile == 1
    } else {
        tile != 0
    }
}

impl Grid {
    /// The tiles of the grid, row by row.
    pub open spec fn tiles(&self) -> Seq<u8> {
        self.data@
    }

    /// The cell is inside the grid and its tile is 1.
    pub open spec fn passable(&self, x: int, y: int) -> bool {
        cell_open(self.tiles(), self.width, self.height, true, x, y)
    }

    /// Create a new Grid from raw map data.
    pub fn from_raw(map_data: &[u8], width: u32, height: u32) -> (grid: Grid)
        ensures
            grid.tiles() == map_data@,
            grid.width == width,
            grid.height == height,
    {
        Grid { data: slice_to_vec(map_data), width, height }
    }

    /// Check if a coordinate is passable; false outside the grid.
    pub fn is_passable(&self, x: u32, y: u32) -> (open: bool)
        ensures
            open == self.passable(x as int, y as int),
    {
        tile_open(self.data.as_slice(), self.width, self.height, true, x, y)
    }

    /// Check if a coordinate is within bounds.
    pub fn in_bounds(&self, x: u32, y: u32) -> (inside: bool)
        ensures
            inside == (x < self.width && y < self.height),
    {
        x < self.width && y < self.height
    }

    /// Get the raw data slice.
    pub fn data(&self) -> (tiles: &[u8])
        ensures
            tiles@ == self.tiles(),
    {
        self.data.as_slice()
    }
}

/// Every move of the path is a cardinal step or a wait.
pub open spec fn moves_ok(steps: Seq<Coordinate>) -> bool {
    forall|t: int| 0 <= t < steps.len() - 1 ==> step_ok(#[trigger] steps[t], steps[t + 1])
}

impl Path {
    /// The number of moves of a path: one less than its steps, waits
    /// included; 0 for an empty path.
    pub open spec fn moves(steps: Seq<Coordinate>) -> nat {
        if steps.len() <= 1 {
            0
        } else {
            (steps.len() - 1) as nat
        }
    }

    /// Calculate path cost: each move (N/S/E/W) has cost 1, and so has each
    /// wait. A cost that does not fit is reported as the largest number.
    pub fn cost(&self) -> (cost: u32)
        ensures
            cost == (if Self::moves(self@) <= u32::MAX {
                Self::moves(self@) as u32
            } else {
                u32::MAX
            }),
    {
        if self.steps.len() <= 1 {
            0
        } else if self.steps.len() - 1 > u32::MAX as usize {
            u32::MAX
        } else {
            (self.steps.len() - 1) as u32
        }
    }

    /// Validate that the path uses only cardinal moves or waits.
    pub fn is_valid_cardinal(&self) -> (ok: bool)
        ensures
            ok == moves_ok(self@),
    {
        if self.steps.len() == 0 {
            return true;
        }
        let last: usize = self.steps.len() - 1;
        let mut t: usize = 0;
        while t < last
            invariant
                t <= last,
                last == self.steps.len() - 1,
                forall|k: int| 0 <= k < t ==> step_ok(#[trigger] self@[k], self@[k + 1]),
            decreases last - t,
        {
            if heuristic(self.steps[t], self.steps[t + 1]) > 1 {
                return false;
            }
            t += 1;
        }
        true
    }
}

/// Manhattan distance heuristic.
pub fn heuristic(from: Coordinate, to: Coordinate) -> (d: u64)
    ensures
        d == manhattan(from, to),
{
    let dx: u64 = if from.x >= to.x {
        (from.x - to.x) as u64
    } else {
        (to.x - from.x) as u64
    };
    let dy: u64 = if from.y >= to.y {
        (from.y - to.y) as u64
    } else {
        (to.y - from.y) as u64
    };
    dx + dy
}

// ---------------------------------------------------------------------------
// Neighbours
// ---------------------------------------------------------------------------

/// The four cells around a cell, in the order north, south, west, east.
pub open spec fn around(c: Coordinate, k: int) -> (int, int) {
    if k == 0 {
        (c.x as int, c.y - 1)
    } else if k == 1 {
        (c.x as int, c.y + 1)
    } else if k == 2 {
        (c.x - 1, c.y as int)
    } else {
        (c.x + 1, c.y as int)
    }
}

/// The open cells among the first `upto` cells around `c`, in their order.
pub open spec fn open_neighbors(
    tiles: Seq<u8>,
    width: u32,
    height: u32,
    strict: bool,
    c: Coordinate,
    upto: int,
) -> Seq<Coordinate>
    decreases upto,
{
    if upto <= 0 {
        Seq::empty()
    } else {
        let before = open_neighbors(tiles, width, height, strict, c, upto - 1);
        let (x, y) = around(c, upto - 1);
        if cell_open(tiles, width, height, strict, x, y) {
            before.push(Coordinate { x: x as u32, y: y as u32 })
        } else {
            before
        }
    }
}

/// Every open neighbour is open and one cardinal step away.
pub proof fn lemma_open_neighbors(
    tiles: Seq<u8>,
    width: u32,
    height: u32,
    strict: bool,
    c: Coordinate,
    upto: int,
)
    requires
        0 <= upto <= 4,
    ensures
        open_neighbors(tiles, width, height, strict, c, upto).len() <= upto,
        forall|k: int|
            0 <= k < open_neighbors(tiles, width, height, strict, c, upto).len() ==> {
                let to = #[trigger] open_neighbors(tiles, width, height, strict, c, upto)[k];
                open_at(tiles, width, height, strict, to) && step_ok(c, to) && to != c
            },
    decreases upto,
{
    if upto > 0 {
        lemma_open_neighbors(tiles, width, height, strict, c, upto - 1);
        let before = open_neighbors(tiles, width, height, strict, c, upto - 1);
        let (x, y) = around(c, upto - 1);
        assert forall|k: int|
            0 <= k < open_neighbors(tiles, width, height, strict, c, upto).len() implies {
            let to = #[trigger] open_neighbors(tiles, width, height, strict, c, upto)[k];
            open_at(tiles, width, height, strict, to) && step_ok(c, to) && to != c
        } by {
            if k < before.len() {
                assert(open_neighbors(tiles, width, height, strict, c, upto)[k] == before[k]);
            } else {
                let to = Coordinate { x: x as u32, y: y as u32 };
                assert(open_neighbors(tiles, width, height, strict, c, upto)[k] == to);
                assert(to.x == x && to.y == y);
            }
        }
    }
}

/// A cell around `c` that is open is among the open neighbours of `c`.
proof fn lemma_neighbor_listed(
    tiles: Seq<u8>,
    width: u32,
    height: u32,
    strict: bool,
    c: Coordinate,
    to: Coordinate,
    k: int,
    upto: int,
)
    requires
        0 <= k < upto <= 4,
        around(c, k) == (to.x as int, to.y as int),
        open_at(tiles, width, height, strict, to),
    ensures
        open_neighbors(tiles, width, height, strict, c, upto).contains(to),
    decreases upto,
{
    let before = open_neighbors(tiles, width, height, strict, c, upto - 1);
    let listed = open_neighbors(tiles, width, height, strict, c, upto);
    if k == upto - 1 {
        assert(listed == before.push(to));
        assert(listed[listed.len() - 1] == to);
    } else {
        lemma_neighbor_listed(tiles, width, height, strict, c, to, k, upto - 1);
        let at = choose|at: int| 0 <= at < before.len() && before[at] == to;
        assert(listed[at] == to);
    }
}

/// Every open cell one cardinal step away is among the open neighbours.
pub proof fn lemma_reaches_neighbor(
    tiles: Seq<u8>,
    width: u32,
    height: u32,
    strict: bool,
    c: Coordinate,
    to: Coordinate,
)
    requires
        step_ok(c, to),
        to != c,
        open_at(tiles, width, height, strict, to),
    ensures
        open_neighbors(tiles, width, height, strict, c, 4).contains(to),
{
    if to.x == c.x && to.y + 1 == c.y {
        lemma_neighbor_listed(tiles, width, height, strict, c, to, 0, 4);
    } else if to.x == c.x && to.y == c.y + 1 {
        lemma_neighbor_listed(tiles, width, height, strict, c, to, 1, 4);
    } else if to.x + 1 == c.x && to.y == c.y {
        lemma_neighbor_listed(tiles, width, height, strict, c, to, 2, 4);
    } else {
        assert(to.x == c.x + 1 && to.y == c.y);
        lemma_neighbor_listed(tiles, width, height, strict, c, to, 3, 4);
    }
}

/// The cells of a list of neighbours with their costs.
pub open spec fn cells_of(list: Seq<(Coordinate, u32)>) -> Seq<Coordinate> {
    Seq::new(list.len(), |k: int| list[k].0)
}

/// The open neighbours of a cell on raw map data, each with the cost 1 of
/// moving there.
pub fn neighbors_of(tiles: &[u8], width: u32, height: u32, strict: bool, coord: Coordinate) -> (result:
    Vec<(Coordinate, u32)>)
    ensures
        cells_of(result@) == open_neighbors(tiles@, width, height, strict, coord, 4),
        forall|k: int| 0 <= k < result@.len() ==> (#[trigger] result@[k]).1 == 1,
{
    let mut result: Vec<(Coordinate, u32)> = Vec::new();
    let mut k: u8 = 0;
    while k < 4
        invariant
            k <= 4,
            cells_of(result@) == open_neighbors(tiles@, width, height, strict, coord, k as int),
            forall|j: int| 0 <= j < result@.len() ==> (#[trigger] result@[j]).1 == 1,
        decreases 4 - k,
    {
        let x: i64 = if k == 2 {
            coord.x as i64 - 1
        } else if k == 3 {
            coord.x as i64 + 1
        } else {
            coord.x as i64
        };
        let y: i64 = if k == 0 {
            coord.y as i64 - 1
        } else if k == 1 {
            coord.y as i64 + 1
        } else {
            coord.y as i64
        };
        assert((x as int, y as int) == around(coord, k as int));
        let ghost before = result@;
        if 0 <= x && x < width as i64 && 0 <= y && y < height as i64 && tile_open(
            tiles,
            width,
            height,
            strict,
            x as u32,
            y as u32,
        ) {
            result.push((Coordinate { x: x as u32, y: y as u32 }, 1));
            assert(cells_of(result@) =~= cells_of(before).push(
                Coordinate { x: x as u32, y: y as u32 },
            ));
        }
        k += 1;
    }
    result
}

/// Get valid neighbors (4-connected: North, South, West, East only).
pub fn neighbors_grid(coord: Coordinate, grid: &Grid) -> (result: Vec<(Coordinate, u32)>)
    ensures
        cells_of(result@) == open_neighbors(grid.tiles(), grid.width, grid.height, true, coord, 4),
        forall|k: int| 0 <= k < result@.len() ==> (#[trigger] result@[k]).1 == 1,
{
    neighbors_of(grid.data.as_slice(), grid.width, grid.height, true, coord)
}

/// Get valid neighbors using raw map data, on which every tile but 0 is
/// passable.
pub fn neighbors(coord: Coordinate, width: u32, height: u32, map: &[u8]) -> (result: Vec<
    (Coordinate, u32),
>)
    ensures
        cells_of(result@) == open_neighbors(map@, width, height, false, coord, 4),
        forall|k: int| 0 <= k < result@.len() ==> (#[trigger] result@[k]).1 == 1,
{
    neighbors_of(map, width, height, false, coord)
}

// ---------------------------------------------------------------------------
// Single-agent search
// ---------------------------------------------------------------------------

/// Node for A* priority queue.
struct Node {
    coord: Coordinate,
    /// cost from start
    g_cost: u64,
    /// g + heuristic
    f_cost: u128,
}

/// The position of a cell's tile in the row-major data.
pub open spec fn index_of(width: u32, c: Coordinate) -> int {
    c.y * width + c.x
}

/// The search has reached the cell: it lies in the grid and has a cost.
spec fn known(g: Seq<u64>, width: u32, height: u32, c: Coordinate) -> bool {
    &&& c.x < width
    &&& c.y < height
    &&& index_of(width, c) < g.len()
    &&& g[index_of(width, c)] != u64::MAX
}

/// The same as `known`, said of a predecessor.
spec fn reached(g: Seq<u64>, width: u32, height: u32, c: Coordinate) -> bool {
    &&& c.x < width
    &&& c.y < height
    &&& index_of(width, c) < g.len()
    &&& g[index_of(width, c)] != u64::MAX
}

/// The costs and predecessors form a tree that is rooted in `start`: every
/// reached cell is open, and every reached cell but `start` has a reached
/// predecessor one cardinal step away and of lower cost.
spec fn tree_ok(
    g: Seq<u64>,
    parent: Seq<Coordinate>,
    tiles: Seq<u8>,
    width: u32,
    height: u32,
    start: Coordinate,
) -> bool {
    &&& g.len() == tiles.len()
    &&& parent.len() == tiles.len()
    &&& known(g, width, height, start)
    &&& g[index_of(width, start)] == 0
    &&& forall|c: Coordinate| #[trigger]
        known(g, width, height, c) ==> open_at(tiles, width, height, false, c) && (c != start ==> {
            let p = parent[index_of(width, c)];
            &&& reached(g, width, height, p)
            &&& g[index_of(width, p)] < g[index_of(width, c)]
            &&& step_ok(p, c)
        })
}

/// The sum of all costs, by which the search is known to end.
spec fn total(g: Seq<u64>) -> nat
    decreases g.len(),
{
    if g.len() == 0 {
        0
    } else {
        total(g.drop_last()) + g.last() as nat
    }
}

proof fn lemma_total_update(g: Seq<u64>, i: int, v: u64)
    requires
        0 <= i < g.len(),
    ensures
        total(g.update(i, v)) + g[i] == total(g) + v,
    decreases g.len(),
{
    if i == g.len() - 1 {
        assert(g.update(i, v).drop_last() =~= g.drop_last());
    } else {
        lemma_total_update(g.drop_last(), i, v);
        assert(g.update(i, v).drop_last() =~= g.drop_last().update(i, v));
    }
}

/// Different cells of the grid have different tiles.
proof fn lemma_index_injective(width: u32, a: Coordinate, b: Coordinate)
    requires
        a.x < width,
        b.x < width,
        index_of(width, a) == index_of(width, b),
    ensures
        a == b,
{
    assert(a.y == b.y) by (nonlinear_arith)
        requires
            0 <= a.x < width,
            0 <= b.x < width,
            0 <= a.y,
            0 <= b.y,
            a.y * width + a.x == b.y * width + b.x,
    ;
}

/// A path that `astar_single` may return: from `start` to `goal` by
/// cardinal steps over open cells.
pub open spec fn leads(
    steps: Seq<Coordinate>,
    tiles: Seq<u8>,
    width: u32,
    height: u32,
    start: Coordinate,
    goal: Coordinate,
) -> bool {
    &&& steps.len() > 0
    &&& steps[0] == start
    &&& steps[steps.len() - 1] == goal
    &&& moves_ok(steps)
    &&& forall|t: int| 0 <= t < steps.len() ==> open_at(tiles, width, height, false, #[trigger] steps[t])
}

/// Both ends of a search are cells of the grid with the tile value 1.
pub open spec fn ends_open(
    tiles: Seq<u8>,
    width: u32,
    height: u32,
    start: Coordinate,
    goal: Coordinate,
) -> bool {
    open_at(tiles, width, height, true, start) && open_at(tiles, width, height, true, goal)
}

/// The place of a cell's tile in data of `len` tiles.
fn tile_index(width: u32, c: Coordinate, len: usize) -> (idx: usize)
    requires
        index_of(width, c) < len,
    ensures
        idx == index_of(width, c),
{
    assert(c.y * width <= 0xffff_ffff * 0xffff_ffff) by (nonlinear_arith)
        requires
            0 <= c.y <= 0xffff_ffff,
            0 <= width <= 0xffff_ffff,
    ;
    let idx: u64 = c.y as u64 * width as u64 + c.x as u64;
    idx as usize
}

/// The node to expand next: least estimated total cost, then least cost so
/// far, then first come.
fn pick_node(open: &Vec<Node>) -> (best: usize)
    requires
        open@.len() > 0,
    ensures
        best < open@.len(),
        forall|j: int| 0 <= j < open@.len() ==> open@[best as int].f_cost <= (#[trigger] open@[j]).f_cost,
{
    let mut best: usize = 0;
    let mut k: usize = 1;
    while k < open.len()
        invariant
            1 <= k <= open@.len(),
            best < k,
            forall|j: int| 0 <= j < k ==> open@[best as int].f_cost <= (#[trigger] open@[j]).f_cost,
        decreases open@.len() - k,
    {
        if open[k].f_cost < open[best].f_cost || (open[k].f_cost == open[best].f_cost
            && open[k].g_cost < open[best].g_cost) {
            best = k;
        }
        k += 1;
    }
    best
}

/// Walks the predecessors back from `goal` to `start`.
fn walk_back(
    g: &Vec<u64>,
    parent: &Vec<Coordinate>,
    Ghost(tiles): Ghost<Seq<u8>>,
    width: u32,
    height: u32,
    start: Coordinate,
    goal: Coordinate,
) -> (back: Vec<Coordinate>)
    requires
        tree_ok(g@, parent@, tiles, width, height, start),
        known(g@, width, height, goal),
    ensures
        back@.len() > 0,
        back@[0] == goal,
        back@[back@.len() - 1] == start,
        back@.len() <= g@[index_of(width, goal)] + 1,
        forall|k: int| 0 <= k < back@.len() - 1 ==> step_ok(#[trigger] back@[k + 1], back@[k]),
        forall|k: int| 0 <= k < back@.len() ==> open_at(tiles, width, height, false, #[trigger] back@[k]),
{
    let mut back: Vec<Coordinate> = Vec::new();
    let mut curr = goal;
    while curr.x != start.x || curr.y != start.y
        invariant
            tree_ok(g@, parent@, tiles, width, height, start),
            known(g@, width, height, curr),
            known(g@, width, height, goal),
            back@.len() + g@[index_of(width, curr)] <= g@[index_of(width, goal)],
            back@.len() == 0 ==> curr == goal,
            back@.len() > 0 ==> back@[0] == goal && step_ok(curr, back@[back@.len() - 1]),
            forall|k: int| 0 <= k < back@.len() - 1 ==> step_ok(#[trigger] back@[k + 1], back@[k]),
            forall|k: int| 0 <= k < back@.len() ==> open_at(tiles, width, height, false, #[trigger] back@[k]),
        decreases g@[index_of(width, curr)],
    {
        let ghost before = back@;
        let ghost next = parent@[index_of(width, curr)];
        assert(reached(g@, width, height, next) && g@[index_of(width, next)] < g@[index_of(
            width,
            curr,
        )] && step_ok(next, curr) && open_at(tiles, width, height, false, curr));
        assert(known(g@, width, height, next));
        back.push(curr);
        assert forall|k: int| 0 <= k < back@.len() - 1 implies step_ok(
            #[trigger] back@[k + 1],
            back@[k],
        ) by {
            if k < before.len() - 1 {
                assert(back@[k + 1] == before[k + 1] && back@[k] == before[k]);
            } else {
                assert(back@[k] == before[k]);
            }
        }
        assert forall|k: int| 0 <= k < back@.len() implies open_at(
            tiles,
            width,
            height,
            false,
            #[trigger] back@[k],
        ) by {
            if k < before.len() {
                assert(back@[k] == before[k]);
            }
        }
        let idx = tile_index(width, curr, parent.len());
        curr = parent[idx];
    }
    let ghost before = back@;
    assert(open_at(tiles, width, height, false, curr));
    back.push(curr);
    assert forall|k: int| 0 <= k < back@.len() - 1 implies step_ok(
        #[trigger] back@[k + 1],
        back@[k],
    ) by {
        if k < before.len() - 1 {
            assert(back@[k + 1] == before[k + 1] && back@[k] == before[k]);
        } else {
            assert(back@[k] == before[k]);
        }
    }
    assert forall|k: int| 0 <= k < back@.len() implies open_at(
        tiles,
        width,
        height,
        false,
        #[trigger] back@[k],
    ) by {
        if k < before.len() {
            assert(back@[k] == before[k]);
        }
    }
    back
}

/// The cells in the opposite order.
fn turned(cells: &Vec<Coordinate>) -> (out: Vec<Coordinate>)
    ensures
        out@.len() == cells@.len(),
        forall|k: int| 0 <= k < out@.len() ==> #[trigger] out@[k] == cells@[cells@.len() - 1 - k],
{
    let mut out: Vec<Coordinate> = Vec::new();
    let mut i: usize = cells.len();
    while i > 0
        invariant
            i <= cells@.len(),
            out@.len() == cells@.len() - i,
            forall|k: int| 0 <= k < out@.len() ==> #[trigger] out@[k] == cells@[cells@.len() - 1 - k],
        decreases i,
    {
        i -= 1;
        out.push(cells[i]);
    }
    out
}

/// Walks the predecessors back from `goal` and lays the cells out from
/// `start` to `goal`.
fn reconstruct(
    g: &Vec<u64>,
    parent: &Vec<Coordinate>,
    Ghost(tiles): Ghost<Seq<u8>>,
    width: u32,
    height: u32,
    start: Coordinate,
    goal: Coordinate,
) -> (path: Path)
    requires
        tree_ok(g@, parent@, tiles, width, height, start),
        known(g@, width, height, goal),
    ensures
        leads(path@, tiles, width, height, start, goal),
        path@.len() <= g@[index_of(width, goal)] + 1,
{
    let back = walk_back(g, parent, Ghost(tiles), width, height, start, goal);
    let path = Path { steps: turned(&back) };
    proof {
        let chain = back@;
        assert forall|t: int| 0 <= t < path@.len() - 1 implies step_ok(
            #[trigger] path@[t],
            path@[t + 1],
        ) by {
            let k = chain.len() - 2 - t;
            assert(path@[t] == chain[k + 1]);
            assert(path@[t + 1] == chain[k]);
            assert(step_ok(chain[k + 1], chain[k]));
        }
        assert forall|t: int| 0 <= t < path@.len() implies open_at(
            tiles,
            width,
            height,
            false,
            #[trigger] path@[t],
        ) by {
            assert(path@[t] == chain[chain.len() - 1 - t]);
        }
    }
    path
}

fn filled_costs(n: usize) -> (out: Vec<u64>)
    ensures
        out@.len() == n,
        forall|i: int| 0 <= i < n ==> #[trigger] out@[i] == u64::MAX,
{
    let mut out: Vec<u64> = Vec::new();
    let mut i: usize = 0;
    while i < n
        invariant
            i <= n,
            out@.len() == i,
            forall|k: int| 0 <= k < i ==> #[trigger] out@[k] == u64::MAX,
        decreases n - i,
    {
        out.push(u64::MAX);
        i += 1;
    }
    out
}

fn filled_cells(n: usize, c: Coordinate) -> (out: Vec<Coordinate>)
    ensures
        out@.len() == n,
{
    let mut out: Vec<Coordinate> = Vec::new();
    let mut i: usize = 0;
    while i < n
        invariant
            i <= n,
            out@.len() == i,
        decreases n - i,
    {
        out.push(c);
        i += 1;
    }
    out
}

/// The number of cells the search has reached.
spec fn count_known(g: Seq<u64>) -> nat
    decreases g.len(),
{
    if g.len() == 0 {
        0
    } else {
        count_known(g.drop_last()) + (if g.last() != u64::MAX {
            1nat
        } else {
            0nat
        })
    }
}

proof fn lemma_count_bounds(g: Seq<u64>)
    ensures
        count_known(g) <= g.len(),
        (forall|i: int| 0 <= i < g.len() ==> g[i] == u64::MAX) ==> count_known(g) == 0,
        (exists|i: int| 0 <= i < g.len() && g[i] == u64::MAX) ==> count_known(g) < g.len(),
    decreases g.len(),
{
    if g.len() > 0 {
        let shorter = g.drop_last();
        lemma_count_bounds(shorter);
        if forall|i: int| 0 <= i < g.len() ==> g[i] == u64::MAX {
            assert forall|i: int| 0 <= i < shorter.len() implies shorter[i] == u64::MAX by {
                assert(shorter[i] == g[i]);
            }
        }
        if exists|i: int| 0 <= i < g.len() && g[i] == u64::MAX {
            let i = choose|i: int| 0 <= i < g.len() && g[i] == u64::MAX;
            if i < g.len() - 1 {
                assert(shorter[i] == u64::MAX);
            }
        }
    }
}

proof fn lemma_count_update(g: Seq<u64>, i: int, v: u64)
    requires
        0 <= i < g.len(),
        v != u64::MAX,
    ensures
        count_known(g.update(i, v)) == count_known(g) + (if g[i] == u64::MAX {
            1nat
        } else {
            0nat
        }),
    decreases g.len(),
{
    if i == g.len() - 1 {
        assert(g.update(i, v).drop_last() =~= g.drop_last());
    } else {
        lemma_count_update(g.drop_last(), i, v);
        assert(g.update(i, v).drop_last() =~= g.drop_last().update(i, v));
    }
}

/// No cost exceeds the number of cells reached.
spec fn costs_bounded(g: Seq<u64>, width: u32, height: u32) -> bool {
    forall|c: Coordinate| #[trigger] known(g, width, height, c) ==> g[index_of(width, c)] < count_known(g)
}

/// Some node of the open list stands for the cell at its present cost.
spec fn fresh(open: Seq<Node>, g: Seq<u64>, width: u32, c: Coordinate) -> bool {
    exists|j: int|
        0 <= j < open.len() && (#[trigger] open[j]).coord == c && open[j].g_cost == g[index_of(
            width,
            c,
        )]
}

/// Every open cell at most one step away from `c` has been reached, at a
/// cost of at most one more than that of `c`.
spec fn relaxed(c: Coordinate, g: Seq<u64>, tiles: Seq<u8>, width: u32, height: u32) -> bool {
    forall|to: Coordinate|
        step_ok(c, to) && #[trigger] open_at(tiles, width, height, false, to) ==> reached(
            g,
            width,
            height,
            to,
        ) && g[index_of(width, to)] <= g[index_of(width, c)] + 1
}

/// Every cell that was reached waits in the open list at its present cost,
/// or is no goal and has been expanded at that cost.
spec fn frontier_ok(
    open: Seq<Node>,
    g: Seq<u64>,
    tiles: Seq<u8>,
    width: u32,
    height: u32,
    goal: Coordinate,
) -> bool {
    forall|c: Coordinate| #[trigger]
        known(g, width, height, c) ==> fresh(open, g, width, c) || (c != goal && relaxed(
            c,
            g,
            tiles,
            width,
            height,
        ))
}

/// The same while the cell `current` is being expanded.
spec fn frontier_but(
    open: Seq<Node>,
    g: Seq<u64>,
    tiles: Seq<u8>,
    width: u32,
    height: u32,
    goal: Coordinate,
    current: Coordinate,
) -> bool {
    forall|c: Coordinate| #[trigger]
        known(g, width, height, c) ==> fresh(open, g, width, c) || c == current || (c != goal
            && relaxed(c, g, tiles, width, height))
}

/// Every node of the open list stands for a cell that was reached, at a
/// cost no lower than the cell's present cost, and is ranked by that cost
/// plus the Manhattan distance to the goal.
spec fn entries_ok(open: Seq<Node>, g: Seq<u64>, width: u32, height: u32, goal: Coordinate) -> bool {
    forall|j: int|
        0 <= j < open.len() ==> {
            let node = #[trigger] open[j];
            &&& reached(g, width, height, node.coord)
            &&& g[index_of(width, node.coord)] <= node.g_cost
            &&& node.f_cost == node.g_cost + manhattan(node.coord, goal)
        }
}

/// Along a path, the Manhattan distance between two of its cells is at most
/// the number of moves between them.
pub proof fn lemma_manhattan_along(steps: Seq<Coordinate>, i: int, k: int)
    requires
        moves_ok(steps),
        0 <= i <= k < steps.len(),
    ensures
        manhattan(steps[i], steps[k]) <= k - i,
    decreases k - i,
{
    if i < k {
        lemma_manhattan_along(steps, i + 1, k);
        assert(step_ok(steps[i], steps[i + 1]));
    }
}

/// Along a path from the start, up to step `j`: some cell waits in the open
/// list at a cost no higher than its place in the path, or the cell at `j`
/// has been reached at such a cost.
proof fn lemma_walk(
    steps: Seq<Coordinate>,
    j: int,
    open: Seq<Node>,
    g: Seq<u64>,
    tiles: Seq<u8>,
    width: u32,
    height: u32,
    goal: Coordinate,
)
    requires
        steps.len() > 0,
        moves_ok(steps),
        forall|k: int| 0 <= k < steps.len() ==> open_at(tiles, width, height, false, #[trigger] steps[k]),
        0 <= j < steps.len(),
        reached(g, width, height, steps[0]),
        g[index_of(width, steps[0])] == 0,
        frontier_ok(open, g, tiles, width, height, goal),
    ensures
        (exists|i: int| 0 <= i <= j && #[trigger] fresh(open, g, width, steps[i]) && g[index_of(width, steps[i])] <= i)
            || (reached(g, width, height, steps[j]) && g[index_of(width, steps[j])] <= j),
    decreases j,
{
    if j > 0 {
        lemma_walk(steps, j - 1, open, g, tiles, width, height, goal);
        if exists|i: int|
            0 <= i <= j - 1 && #[trigger] fresh(open, g, width, steps[i]) && g[index_of(width, steps[i])]
                <= i {
            let i = choose|i: int|
                0 <= i <= j - 1 && #[trigger] fresh(open, g, width, steps[i]) && g[index_of(
                    width,
                    steps[i],
                )] <= i;
            assert(0 <= i <= j && fresh(open, g, width, steps[i]) && g[index_of(width, steps[i])] <= i);
        } else {
            let from = steps[j - 1];
            let to = steps[j];
            assert(known(g, width, height, from));
            if fresh(open, g, width, from) {
                assert(0 <= j - 1 <= j && fresh(open, g, width, steps[j - 1]));
            } else {
                assert(relaxed(from, g, tiles, width, height));
                assert(step_ok(from, to));
                assert(open_at(tiles, width, height, false, to));
            }
        }
    }
}

/// One cell gets a lower cost and a new predecessor: the tree stays a tree,
/// what was reached stays reached, and the sum of the costs falls.
proof fn lemma_relaxed(
    g_before: Seq<u64>,
    parent_before: Seq<Coordinate>,
    tiles: Seq<u8>,
    width: u32,
    height: u32,
    start: Coordinate,
    current: Coordinate,
    neighbor: Coordinate,
    tentative: u64,
)
    requires
        tree_ok(g_before, parent_before, tiles, width, height, start),
        costs_bounded(g_before, width, height),
        known(g_before, width, height, current),
        open_at(tiles, width, height, false, neighbor),
        step_ok(current, neighbor),
        neighbor != current,
        tentative == g_before[index_of(width, current)] + 1,
        tentative < g_before[index_of(width, neighbor)],
    ensures
        ({
            let at = index_of(width, neighbor);
            let g = g_before.update(at, tentative);
            let parent = parent_before.update(at, current);
            &&& tree_ok(g, parent, tiles, width, height, start)
            &&& costs_bounded(g, width, height)
            &&& known(g, width, height, neighbor)
            &&& total(g) < total(g_before)
            &&& forall|c: Coordinate| known(g_before, width, height, c) ==> #[trigger] known(g, width, height, c)
            &&& forall|c: Coordinate| #[trigger]
                known(g, width, height, c) ==> c == neighbor || known(g_before, width, height, c)
            &&& g[index_of(width, current)] == g_before[index_of(width, current)]
        }),
{
    let at = index_of(width, neighbor);
    let g = g_before.update(at, tentative);
    let parent = parent_before.update(at, current);
    lemma_total_update(g_before, at, tentative);
    lemma_count_update(g_before, at, tentative);
    lemma_count_bounds(g_before);
    assert(neighbor != start) by {
        if neighbor == start {
            assert(g_before[at] == 0);
        }
    }
    assert(index_of(width, neighbor) != index_of(width, current)) by {
        if index_of(width, neighbor) == index_of(width, current) {
            lemma_index_injective(width, neighbor, current);
        }
    }
    assert(g_before[index_of(width, current)] < count_known(g_before));
    assert(g[index_of(width, current)] == g_before[index_of(width, current)]);
    assert(tentative < count_known(g)) by {
        if g_before[at] != u64::MAX {
            assert(known(g_before, width, height, neighbor));
        }
    }
    assert forall|c: Coordinate| #[trigger] known(g, width, height, c) implies (c == neighbor || known(
        g_before,
        width,
        height,
        c,
    )) && g[index_of(width, c)] < count_known(g) && open_at(tiles, width, height, false, c) && (c
        != start ==> {
        let p = parent[index_of(width, c)];
        &&& reached(g, width, height, p)
        &&& g[index_of(width, p)] < g[index_of(width, c)]
        &&& step_ok(p, c)
    }) by {
        if c == neighbor {
            assert(parent[index_of(width, c)] == current);
            assert(reached(g, width, height, current));
        } else {
            if index_of(width, c) == index_of(width, neighbor) {
                lemma_index_injective(width, c, neighbor);
            }
            assert(g[index_of(width, c)] == g_before[index_of(width, c)]);
            assert(known(g_before, width, height, c));
            assert(g_before[index_of(width, c)] < count_known(g_before));
            if c != start {
                let p = parent_before[index_of(width, c)];
                assert(parent[index_of(width, c)] == p);
                assert(reached(g_before, width, height, p));
                assert(g_before[index_of(width, p)] < g_before[index_of(width, c)]);
                if index_of(width, p) == index_of(width, neighbor) {
                    lemma_index_injective(width, p, neighbor);
                    assert(g[index_of(width, p)] == tentative);
                } else {
                    assert(g[index_of(width, p)] == g_before[index_of(width, p)]);
                }
                assert(reached(g, width, height, p));
            }
        }
    }
    assert forall|c: Coordinate| known(g_before, width, height, c) implies #[trigger] known(
        g,
        width,
        height,
        c,
    ) by {
        if index_of(width, c) == index_of(width, neighbor) {
            lemma_index_injective(width, c, neighbor);
        }
    }
}

/// A step that lowers no cost leads to a cell that has been reached.
proof fn lemma_not_lower_is_reached(g: Seq<u64>, width: u32, height: u32, current: Coordinate, at: int)
    requires
        costs_bounded(g, width, height),
        known(g, width, height, current),
        0 <= at < g.len(),
        g.len() <= u64::MAX,
        !(g[index_of(width, current)] + 1 < g[at]),
    ensures
        g[at] != u64::MAX,
{
    lemma_count_bounds(g);
}

/// What is known of the reached cells, once a node has left the open list.
proof fn lemma_node_popped(
    before: Seq<Node>,
    best: int,
    after: Seq<Node>,
    g: Seq<u64>,
    tiles: Seq<u8>,
    width: u32,
    height: u32,
    goal: Coordinate,
)
    requires
        0 <= best < before.len(),
        after == before.remove(best),
        frontier_ok(before, g, tiles, width, height, goal),
        entries_ok(before, g, width, height, goal),
    ensures
        frontier_but(after, g, tiles, width, height, goal, before[best].coord),
        entries_ok(after, g, width, height, goal),
{
    assert forall|c: Coordinate| #[trigger] known(g, width, height, c) implies fresh(after, g, width, c)
        || c == before[best].coord || (c != goal && relaxed(c, g, tiles, width, height)) by {
        if fresh(before, g, width, c) && c != before[best].coord {
            let j = choose|j: int|
                0 <= j < before.len() && (#[trigger] before[j]).coord == c && before[j].g_cost
                    == g[index_of(width, c)];
            if j < best {
                assert(after[j] == before[j]);
            } else {
                assert(after[j - 1] == before[j]);
            }
        }
    }
    assert forall|j: int| 0 <= j < after.len() implies {
        let node = #[trigger] after[j];
        &&& reached(g, width, height, node.coord)
        &&& g[index_of(width, node.coord)] <= node.g_cost
        &&& node.f_cost == node.g_cost + manhattan(node.coord, goal)
    } by {
        if j < best {
            assert(after[j] == before[j]);
        } else {
            assert(after[j] == before[j + 1]);
        }
    }
}

/// What is known of the reached cells, once the cost of a neighbour was
/// lowered and a node has joined the open list for it.
proof fn lemma_node_pushed(
    before: Seq<Node>,
    node: Node,
    g_before: Seq<u64>,
    tiles: Seq<u8>,
    width: u32,
    height: u32,
    goal: Coordinate,
    current: Coordinate,
)
    requires
        frontier_but(before, g_before, tiles, width, height, goal, current),
        entries_ok(before, g_before, width, height, goal),
        open_at(tiles, width, height, false, node.coord),
        g_before.len() == tiles.len(),
        node.g_cost < g_before[index_of(width, node.coord)],
        node.f_cost == node.g_cost + manhattan(node.coord, goal),
        forall|c: Coordinate| #[trigger]
            known(g_before.update(index_of(width, node.coord), node.g_cost), width, height, c) ==> c
                == node.coord || known(g_before, width, height, c),
    ensures
        frontier_but(
            before.push(node),
            g_before.update(index_of(width, node.coord), node.g_cost),
            tiles,
            width,
            height,
            goal,
            current,
        ),
        entries_ok(
            before.push(node),
            g_before.update(index_of(width, node.coord), node.g_cost),
            width,
            height,
            goal,
        ),
{
    let at = index_of(width, node.coord);
    let g = g_before.update(at, node.g_cost);
    let after = before.push(node);
    assert forall|c: Coordinate| #[trigger] known(g, width, height, c) implies fresh(after, g, width, c)
        || c == current || (c != goal && relaxed(c, g, tiles, width, height)) by {
        if c == node.coord {
            assert(after[after.len() - 1] == node);
        } else {
            if index_of(width, c) == at {
                lemma_index_injective(width, c, node.coord);
            }
            assert(known(g_before, width, height, c));
            if fresh(before, g_before, width, c) {
                let j = choose|j: int|
                    0 <= j < before.len() && (#[trigger] before[j]).coord == c && before[j].g_cost
                        == g_before[index_of(width, c)];
                assert(after[j] == before[j]);
            } else if c != current {
                assert(relaxed(c, g_before, tiles, width, height));
                assert forall|to: Coordinate|
                    step_ok(c, to) && #[trigger] open_at(tiles, width, height, false, to) implies reached(
                    g,
                    width,
                    height,
                    to,
                ) && g[index_of(width, to)] <= g[index_of(width, c)] + 1 by {
                    assert(reached(g_before, width, height, to));
                    if index_of(width, to) == at {
                        lemma_index_injective(width, to, node.coord);
                    }
                }
            }
        }
    }
    assert forall|j: int| 0 <= j < after.len() implies {
        let entry = #[trigger] after[j];
        &&& reached(g, width, height, entry.coord)
        &&& g[index_of(width, entry.coord)] <= entry.g_cost
        &&& entry.f_cost == entry.g_cost + manhattan(entry.coord, goal)
    } by {
        if j < before.len() {
            assert(after[j] == before[j]);
            let entry = before[j];
            assert(reached(g_before, width, height, entry.coord));
            if index_of(width, entry.coord) == at {
                lemma_index_injective(width, entry.coord, node.coord);
            }
        }
    }
}

/// A cell counts as expanded once all its open neighbours have been
/// reached at a cost of at most one more than its own.
proof fn lemma_all_neighbors_relaxed(
    c: Coordinate,
    g: Seq<u64>,
    tiles: Seq<u8>,
    width: u32,
    height: u32,
)
    requires
        reached(g, width, height, c),
        forall|k: int|
            0 <= k < open_neighbors(tiles, width, height, false, c, 4).len() ==> {
                let to = #[trigger] open_neighbors(tiles, width, height, false, c, 4)[k];
                reached(g, width, height, to) && g[index_of(width, to)] <= g[index_of(width, c)] + 1
            },
    ensures
        relaxed(c, g, tiles, width, height),
{
    let near = open_neighbors(tiles, width, height, false, c, 4);
    assert forall|to: Coordinate|
        step_ok(c, to) && #[trigger] open_at(tiles, width, height, false, to) implies reached(
        g,
        width,
        height,
        to,
    ) && g[index_of(width, to)] <= g[index_of(width, c)] + 1 by {
        if to != c {
            lemma_reaches_neighbor(tiles, width, height, false, c, to);
            let k = choose|k: int| 0 <= k < near.len() && near[k] == to;
            assert(reached(g, width, height, near[k]));
        }
    }
}

/// Once the goal is taken from the open list, its cost is at most the
/// number of moves of any path to it.
proof fn lemma_goal_cost_least(
    steps: Seq<Coordinate>,
    open: Seq<Node>,
    best: int,
    g: Seq<u64>,
    tiles: Seq<u8>,
    width: u32,
    height: u32,
    start: Coordinate,
    goal: Coordinate,
)
    requires
        leads(steps, tiles, width, height, start, goal),
        reached(g, width, height, start),
        g[index_of(width, start)] == 0,
        frontier_ok(open, g, tiles, width, height, goal),
        entries_ok(open, g, width, height, goal),
        0 <= best < open.len(),
        open[best].coord == goal,
        forall|j: int| 0 <= j < open.len() ==> open[best].f_cost <= (#[trigger] open[j]).f_cost,
    ensures
        g[index_of(width, goal)] + 1 <= steps.len(),
{
    let last = steps.len() - 1;
    lemma_walk(steps, last, open, g, tiles, width, height, goal);
    if exists|i: int|
        0 <= i <= last && #[trigger] fresh(open, g, width, steps[i]) && g[index_of(width, steps[i])] <= i {
        let i = choose|i: int|
            0 <= i <= last && #[trigger] fresh(open, g, width, steps[i]) && g[index_of(width, steps[i])]
                <= i;
        let j = choose|j: int|
            0 <= j < open.len() && (#[trigger] open[j]).coord == steps[i] && open[j].g_cost == g[index_of(
                width,
                steps[i],
            )];
        lemma_manhattan_along(steps, i, last);
        assert(open[j].f_cost <= last);
        assert(open[best].f_cost <= open[j].f_cost);
        assert(manhattan(goal, goal) == 0);
    }
}

/// With nothing left in the open list, no path leads to the goal.
proof fn lemma_no_path(
    steps: Seq<Coordinate>,
    g: Seq<u64>,
    tiles: Seq<u8>,
    width: u32,
    height: u32,
    start: Coordinate,
    goal: Coordinate,
)
    requires
        reached(g, width, height, start),
        g[index_of(width, start)] == 0,
        frontier_ok(Seq::<Node>::empty(), g, tiles, width, height, goal),
    ensures
        !leads(steps, tiles, width, height, start, goal),
{
    if leads(steps, tiles, width, height, start, goal) {
        let last = steps.len() - 1;
        let open = Seq::<Node>::empty();
        lemma_walk(steps, last, open, g, tiles, width, height, goal);
        assert(known(g, width, height, goal));
    }
}

/// Some path leads from `start` to `goal`.
pub open spec fn reachable(
    tiles: Seq<u8>,
    width: u32,
    height: u32,
    start: Coordinate,
    goal: Coordinate,
) -> bool {
    exists|steps: Seq<Coordinate>| #[trigger] leads(steps, tiles, width, height, start, goal)
}

/// No path is shorter.
pub open spec fn shortest(
    steps: Seq<Coordinate>,
    tiles: Seq<u8>,
    width: u32,
    height: u32,
    start: Coordinate,
    goal: Coordinate,
) -> bool {
    forall|other: Seq<Coordinate>| #[trigger]
        leads(other, tiles, width, height, start, goal) ==> steps.len() <= other.len()
}

/// Find a path for a single agent using A*.
///
/// - `map`: Flat byte array (row-major). 1 = passable, 0 = blocked.
/// - `width`, `height`: Map dimensions.
/// - `start`: (x, y) start position.
/// - `goal`: (x, y) goal position.
///
/// Both ends must lie in the grid on tiles of value 1, else there is no
/// path. A path that is returned leads from `start` to `goal` by cardinal
/// steps over cells whose tile is not 0, and no such path is shorter. A path
/// is returned wherever one exists.
pub fn astar_single(map: &[u8], width: u32, height: u32, start: (u32, u32), goal: (u32, u32)) -> (result:
    Option<Path>)
    ensures
        ({
            let from = Coordinate { x: start.0, y: start.1 };
            let to = Coordinate { x: goal.0, y: goal.1 };
            &&& !ends_open(map@, width, height, from, to) ==> result is None
            &&& result matches Some(path) ==> leads(path@, map@, width, height, from, to) && shortest(
                path@,
                map@,
                width,
                height,
                from,
                to,
            )
            &&& result is None && ends_open(map@, width, height, from, to) ==> forall|
                steps: Seq<Coordinate>,
            | !#[trigger] leads(steps, map@, width, height, from, to)
            &&& ends_open(map@, width, height, from, to) && from == to ==> (result matches Some(path)
                && path@ == seq![from])
            &&& ends_open(map@, width, height, from, to) && reachable(
                map@,
                width,
                height,
                from,
                to,
            ) ==> result is Some
        }),
{
    let origin = Coordinate { x: start.0, y: start.1 };
    let target = Coordinate { x: goal.0, y: goal.1 };
    if !tile_open(map, width, height, true, origin.x, origin.y) || !tile_open(
        map,
        width,
        height,
        true,
        target.x,
        target.y,
    ) {
        return None;
    }
    if origin.x == target.x && origin.y == target.y {
        let mut steps: Vec<Coordinate> = Vec::new();
        steps.push(origin);
        let path = Path { steps };
        assert(path@ =~= seq![origin]);
        assert(shortest(path@, map@, width, height, origin, target));
        return Some(path);
    }
    let mut g: Vec<u64> = filled_costs(map.len());
    let mut parent: Vec<Coordinate> = filled_cells(map.len(), origin);
    let mut open: Vec<Node> = Vec::new();
    let start_idx = tile_index(width, origin, g.len());
    let ghost blank = g@;
    g[start_idx] = 0;
    open.push(Node { coord: origin, g_cost: 0, f_cost: heuristic(origin, target) as u128 });
    proof {
        lemma_count_bounds(blank);
        lemma_count_update(blank, start_idx as int, 0);
        assert forall|c: Coordinate| #[trigger] known(g@, width, height, c) implies c == origin by {
            if index_of(width, c) != index_of(width, origin) {
            } else {
                lemma_index_injective(width, c, origin);
            }
        }
        assert(open@[0].coord == origin && open@[0].g_cost == g@[index_of(width, origin)]);
        assert forall|c: Coordinate| #[trigger] known(g@, width, height, c) implies fresh(
            open@,
            g@,
            width,
            c,
        ) by {}
    }
    while open.len() > 0
        invariant
            origin == (Coordinate { x: start.0, y: start.1 }),
            target == (Coordinate { x: goal.0, y: goal.1 }),
            ends_open(map@, width, height, origin, target),
            origin != target,
            tree_ok(g@, parent@, map@, width, height, origin),
            costs_bounded(g@, width, height),
            entries_ok(open@, g@, width, height, target),
            frontier_ok(open@, g@, map@, width, height, target),
        decreases total(g@), open@.len(),
    {
        let best = pick_node(&open);
        let ghost open_at_pop = open@;
        let current = open.remove(best);
        assert(current == open_at_pop[best as int]);
        assert(reached(g@, width, height, current.coord));
        if current.coord.x == target.x && current.coord.y == target.y {
            let path = reconstruct(&g, &parent, Ghost(map@), width, height, origin, target);
            proof {
                assert forall|other: Seq<Coordinate>| #[trigger]
                    leads(other, map@, width, height, origin, target) implies path@.len()
                    <= other.len() by {
                    lemma_goal_cost_least(
                        other,
                        open_at_pop,
                        best as int,
                        g@,
                        map@,
                        width,
                        height,
                        origin,
                        target,
                    );
                }
            }
            return Some(path);
        }
        let current_idx = tile_index(width, current.coord, g.len());
        let current_g = g[current_idx];
        let near = neighbors_of(map, width, height, false, current.coord);
        let ghost total_before = total(g@);
        let ghost open_before = open@.len();
        proof {
            lemma_open_neighbors(map@, width, height, false, current.coord, 4);
            lemma_node_popped(open_at_pop, best as int, open@, g@, map@, width, height, target);
        }
        let mut k: usize = 0;
        while k < near.len()
            invariant
                k <= near@.len(),
                tree_ok(g@, parent@, map@, width, height, origin),
                costs_bounded(g@, width, height),
                entries_ok(open@, g@, width, height, target),
                frontier_but(open@, g@, map@, width, height, target, current.coord),
                known(g@, width, height, current.coord),
                current_idx == index_of(width, current.coord),
                g@[current_idx as int] == current_g,
                g@.len() == map@.len(),
                cells_of(near@) == open_neighbors(map@, width, height, false, current.coord, 4),
                forall|j: int|
                    0 <= j < open_neighbors(map@, width, height, false, current.coord, 4).len() ==> {
                        let to = #[trigger] open_neighbors(
                            map@,
                            width,
                            height,
                            false,
                            current.coord,
                            4,
                        )[j];
                        open_at(map@, width, height, false, to) && step_ok(current.coord, to) && to
                            != current.coord
                    },
                open@.len() >= open_before,
                total(g@) + (open@.len() - open_before) <= total_before,
                forall|j: int|
                    0 <= j < k ==> {
                        let to = #[trigger] open_neighbors(
                            map@,
                            width,
                            height,
                            false,
                            current.coord,
                            4,
                        )[j];
                        reached(g@, width, height, to) && g@[index_of(width, to)] <= current_g + 1
                    },
            decreases near@.len() - k,
        {
            let neighbor = near[k].0;
            assert(neighbor == cells_of(near@)[k as int]);
            assert(open_at(map@, width, height, false, neighbor) && step_ok(current.coord, neighbor)
                && neighbor != current.coord);
            let tentative_g: u64 = current_g + 1;
            let idx = tile_index(width, neighbor, g.len());
            let ghost g_before = g@;
            if tentative_g < g[idx] {
                let ghost parent_before = parent@;
                let ghost open_now = open@;
                let node = Node {
                    coord: neighbor,
                    g_cost: tentative_g,
                    f_cost: tentative_g as u128 + heuristic(neighbor, target) as u128,
                };
                parent[idx] = current.coord;
                g[idx] = tentative_g;
                proof {
                    lemma_relaxed(
                        g_before,
                        parent_before,
                        map@,
                        width,
                        height,
                        origin,
                        current.coord,
                        neighbor,
                        tentative_g,
                    );
                    lemma_node_pushed(
                        open_now,
                        node,
                        g_before,
                        map@,
                        width,
                        height,
                        target,
                        current.coord,
                    );
                }
                open.push(node);
            } else {
                proof {
                    lemma_not_lower_is_reached(g@, width, height, current.coord, idx as int);
                }
            }
            proof {
                assert(reached(g@, width, height, neighbor));
                assert forall|j: int| 0 <= j < k + 1 implies {
                    let to = #[trigger] open_neighbors(map@, width, height, false, current.coord, 4)[j];
                    reached(g@, width, height, to) && g@[index_of(width, to)] <= current_g + 1
                } by {
                    if j < k {
                        let to = open_neighbors(map@, width, height, false, current.coord, 4)[j];
                        assert(reached(g_before, width, height, to));
                        assert(known(g_before, width, height, to));
                        if index_of(width, to) == index_of(width, neighbor) {
                            lemma_index_injective(width, to, neighbor);
                        }
                    }
                }
            }
            k += 1;
        }
        proof {
            lemma_all_neighbors_relaxed(current.coord, g@, map@, width, height);
            assert forall|c: Coordinate| #[trigger] known(g@, width, height, c) implies fresh(
                open@,
                g@,
                width,
                c,
            ) || (c != target && relaxed(c, g@, map@, width, height)) by {}
        }
    }
    proof {
        assert(open@ =~= Seq::<Node>::empty());
        assert forall|steps: Seq<Coordinate>| !#[trigger] leads(
            steps,
            map@,
            width,
            height,
            origin,
            target,
        ) by {
            lemma_no_path(steps, g@, map@, width, height, origin, target);
        }
    }
    None
}

} // verus!
