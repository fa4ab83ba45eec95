//! The reference solver against the validator: what the solver returns is
//! what the validator accepts.

use vstd::prelude::*;
use crate::astar::{open_at, plan_of, step_ok, Grid, Path};
use crate::joint::{horizon, plan_len, solves, swaps};
use crate::validation::{
    cardinal_step, cells_ok, edge_conflict, endpoints_ok, in_bounds, longest, makespan, moves_ok,
    on_blocked_tile, position, respects_rules, vertex_conflict, GridMap, Solution,
};

verus! {

/// The cell can be written with the signed coordinates of a report.
pub open spec fn reportable(c: crate::astar::Coordinate) -> bool {
    c.x <= i32::MAX && c.y <= i32::MAX
}

/// A solver's cell as a report writes it.
pub open spec fn reported(c: crate::astar::Coordinate) -> crate::validation::Coordinate {
    crate::validation::Coordinate { x: c.x as i32, y: c.y as i32 }
}

pub open spec fn reported_cells(cells: Seq<crate::astar::Coordinate>) -> Seq<
    crate::validation::Coordinate,
> {
    Seq::new(cells.len(), |t: int| reported(cells[t]))
}

pub open spec fn reported_plan(plan: Seq<Seq<crate::astar::Coordinate>>) -> Seq<
    Seq<crate::validation::Coordinate>,
> {
    Seq::new(plan.len(), |i: int| reported_cells(plan[i]))
}

pub open spec fn all_reportable(cells: Seq<crate::astar::Coordinate>) -> bool {
    forall|t: int| 0 <= t < cells.len() ==> reportable(#[trigger] cells[t])
}

/// Cells in the coordinates of a report; `None` if one does not fit them.
pub fn to_coordinates(cells: &[crate::astar::Coordinate]) -> (out: Option<
    Vec<crate::validation::Coordinate>,
>)
    ensures
        all_reportable(cells@) ==> (out matches Some(list) && list@ == reported_cells(cells@)),
        !all_reportable(cells@) ==> out is None,
{
    let mut list: Vec<crate::validation::Coordinate> = Vec::new();
    let mut t: usize = 0;
    while t < cells.len()
        invariant
            t <= cells@.len(),
            list@.len() == t,
            forall|k: int| 0 <= k < t ==> reportable(#[trigger] cells@[k]),
            forall|k: int| 0 <= k < t ==> #[trigger] list@[k] == reported(cells@[k]),
        decreases cells@.len() - t,
    {
        let c = cells[t];
        if c.x > i32::MAX as u32 || c.y > i32::MAX as u32 {
            assert(!reportable(cells@[t as int]));
            return None;
        }
        list.push(crate::validation::Coordinate { x: c.x as i32, y: c.y as i32 });
        t += 1;
    }
    assert(list@ =~= reported_cells(cells@));
    Some(list)
}

/// A solver's plan as the solution a report holds; `None` if a cell does
/// not fit the report's coordinates.
pub fn to_solution(paths: &Vec<Path>) -> (out: Option<Solution>)
    ensures
        (forall|i: int| 0 <= i < paths@.len() ==> all_reportable((#[trigger] paths@[i])@)) ==> (
        out matches Some(solution) && solution@ == reported_plan(plan_of(paths@))),
        !(forall|i: int| 0 <= i < paths@.len() ==> all_reportable((#[trigger] paths@[i])@))
            ==> out is None,
{
    let mut list: Vec<crate::validation::Path> = Vec::new();
    let mut i: usize = 0;
    while i < paths.len()
        invariant
            i <= paths@.len(),
            list@.len() == i,
            forall|k: int| 0 <= k < i ==> all_reportable((#[trigger] paths@[k])@),
            forall|k: int| 0 <= k < i ==> (#[trigger] list@[k])@ == reported_cells(paths@[k]@),
        decreases paths@.len() - i,
    {
        match to_coordinates(paths[i].steps.as_slice()) {
            Some(steps) => {
                list.push(crate::validation::Path { steps });
            },
            None => {
                assert(!all_reportable(paths@[i as int]@));
                return None;
            },
        }
        i += 1;
    }
    let solution = Solution { paths: list };
    assert(solution@ =~= reported_plan(plan_of(paths@)));
    Some(solution)
}

/// The solver's grid as the validator reads it.
pub fn to_grid_map(grid: &Grid) -> (map: GridMap)
    ensures
        map.width == grid.width,
        map.height == grid.height,
        map.tiles@ == grid.tiles(),
{
    let data = grid.data();
    let mut tiles: Vec<u8> = Vec::new();
    let mut i: usize = 0;
    while i < data.len()
        invariant
            i <= data@.len(),
            tiles@ == data@.take(i as int),
        decreases data@.len() - i,
    {
        tiles.push(data[i]);
        i += 1;
        assert(data@.take(i as int) =~= data@.take(i - 1).push(data@[i - 1]));
    }
    assert(data@.take(data@.len() as int) =~= data@);
    GridMap { width: grid.width, height: grid.height, tiles }
}

proof fn lemma_equal_lengths(plan: Seq<Seq<crate::validation::Coordinate>>, len: nat, upto: int)
    requires
        0 <= upto <= plan.len(),
        forall|i: int| 0 <= i < plan.len() ==> (#[trigger] plan[i]).len() == len,
    ensures
        longest(plan, upto) == (if upto > 0 {
            len
        } else {
            0
        }),
    decreases upto,
{
    if upto > 0 {
        lemma_equal_lengths(plan, len, upto - 1);
    }
}

/// Every plan that the joint-state search returns passes validation
/// against the search's own inputs, as far as its cells and the goals can be
/// written with the signed coordinates of a report.
pub proof fn lemma_solved_plan_is_valid(
    plan: Seq<Seq<crate::astar::Coordinate>>,
    tiles: Seq<u8>,
    width: u32,
    height: u32,
    strict: bool,
    starts: Seq<crate::astar::Coordinate>,
    goals: Seq<crate::astar::Coordinate>,
)
    requires
        solves(plan, tiles, width, height, strict, starts, goals),
        goals.len() == starts.len(),
        forall|i: int| 0 <= i < plan.len() ==> all_reportable(#[trigger] plan[i]),
        all_reportable(goals),
    ensures
        respects_rules(
            reported_plan(plan),
            width,
            height,
            tiles,
            reported_cells(starts),
            reported_cells(goals),
        ),
{
    let shown = reported_plan(plan);
    let len = plan_len(plan);
    let n = plan.len() as int;
    assert forall|i: int, t: int| 0 <= i < n && 0 <= t < len implies reportable(
        #[trigger] plan[i][t],
    ) by {
        assert(all_reportable(plan[i]));
    }
    assert forall|i: int| 0 <= i < n implies reportable(#[trigger] starts[i]) by {
        assert(plan[i][0] == starts[i]);
    }
    assert forall|i: int| 0 <= i < shown.len() implies {
        let steps = #[trigger] shown[i];
        &&& steps.len() > 0
        &&& moves_ok(steps)
        &&& cells_ok(steps, width, height, tiles)
        &&& endpoints_ok(steps, reported_cells(starts)[i], reported_cells(goals)[i])
    } by {
        let steps = shown[i];
        assert(plan[i].len() == len);
        assert forall|t: int| 0 <= t < steps.len() - 1 implies cardinal_step(
            #[trigger] steps[t],
            steps[t + 1],
        ) by {
            assert(step_ok(plan[i][t], plan[i][t + 1]));
            assert(open_at(tiles, width, height, strict, plan[i][t]));
            assert(open_at(tiles, width, height, strict, plan[i][t + 1]));
        }
        assert forall|t: int| 0 <= t < steps.len() implies in_bounds(
            width,
            height,
            #[trigger] steps[t],
        ) && !on_blocked_tile(width, tiles, steps[t]) by {
            assert(open_at(tiles, width, height, strict, plan[i][t]));
        }
        assert(plan[i][0] == starts[i]);
        assert(plan[i][len - 1] == goals[i]);
    }
    if n > 0 {
        assert forall|i: int| 0 <= i < shown.len() implies (#[trigger] shown[i]).len() == len by {
            assert(plan[i].len() == len);
        }
        lemma_equal_lengths(shown, len as nat, n);
        assert(makespan(shown) == len);
    }
    assert forall|i: int, j: int, t: int|
        0 <= i < j < shown.len() && 0 <= t < makespan(shown) implies !#[trigger] vertex_conflict(
        shown[i],
        shown[j],
        t,
    ) by {
        assert(plan[i].len() == len && plan[j].len() == len);
        assert(open_at(tiles, width, height, strict, plan[i][t]));
        assert(open_at(tiles, width, height, strict, plan[j][t]));
        assert(plan[i][t] != plan[j][t]);
        assert(position(shown[i], t) == reported(plan[i][t]));
        assert(position(shown[j], t) == reported(plan[j][t]));
    }
    assert forall|i: int, j: int, t: int|
        0 <= i < j < shown.len() && 0 <= t < makespan(shown) - 1 implies !#[trigger] edge_conflict(
        shown[i],
        shown[j],
        t,
    ) by {
        assert(plan[i].len() == len && plan[j].len() == len);
        assert(!swaps(plan[i], plan[j], t));
        assert(open_at(tiles, width, height, strict, plan[i][t]));
        assert(open_at(tiles, width, height, strict, plan[j][t]));
        assert(open_at(tiles, width, height, strict, plan[i][t + 1]));
        assert(open_at(tiles, width, height, strict, plan[j][t + 1]));
        assert(position(shown[i], t) == reported(plan[i][t]));
        assert(position(shown[j], t) == reported(plan[j][t]));
        assert(position(shown[i], t + 1) == reported(plan[i][t + 1]));
        assert(position(shown[j], t + 1) == reported(plan[j][t + 1]));
    }
}

/// A reported cell of the grid as the solver holds it.
pub open spec fn unreported(c: crate::validation::Coordinate) -> crate::astar::Coordinate {
    crate::astar::Coordinate { x: c.x as u32, y: c.y as u32 }
}

/// A reported plan as a joint plan of `len` timesteps: every agent is
/// parked on its last cell once its path has ended.
pub open spec fn padded(shown: Seq<Seq<crate::validation::Coordinate>>, len: int) -> Seq<
    Seq<crate::astar::Coordinate>,
> {
    Seq::new(
        shown.len(),
        |i: int| Seq::new(len as nat, |t: int| unreported(position(shown[i], t))),
    )
}

/// The grid has one tile for each cell, and on a strict reading no tile
/// value but 0 and 1.
pub open spec fn tiles_fit(tiles: Seq<u8>, width: u32, height: u32, strict: bool) -> bool {
    &&& tiles.len() == width * height
    &&& strict ==> forall|k: int| 0 <= k < tiles.len() ==> #[trigger] tiles[k] <= 1
}

proof fn lemma_longest_bounds(plan: Seq<Seq<crate::validation::Coordinate>>, upto: int, i: int)
    requires
        0 <= i < upto <= plan.len(),
    ensures
        plan[i].len() <= longest(plan, upto),
    decreases upto,
{
    if i < upto - 1 {
        lemma_longest_bounds(plan, upto - 1, i);
    }
}

proof fn lemma_cell_index(width: u32, height: u32, x: int, y: int)
    requires
        0 <= x < width,
        0 <= y < height,
    ensures
        0 <= y * width + x < width * height,
{
    assert(0 <= y * width + x < width * height) by (nonlinear_arith)
        requires
            0 <= x < width,
            0 <= y < height,
    ;
}

/// A plan that passes validation, with every agent parked on its goal up
/// to the plan's makespan, is a joint plan that solves the problem.
pub proof fn lemma_valid_plan_pads(
    shown: Seq<Seq<crate::validation::Coordinate>>,
    tiles: Seq<u8>,
    width: u32,
    height: u32,
    strict: bool,
    starts: Seq<crate::astar::Coordinate>,
    goals: Seq<crate::astar::Coordinate>,
)
    requires
        respects_rules(
            shown,
            width,
            height,
            tiles,
            reported_cells(starts),
            reported_cells(goals),
        ),
        shown.len() == starts.len(),
        goals.len() == starts.len(),
        tiles_fit(tiles, width, height, strict),
        all_reportable(starts),
        all_reportable(goals),
    ensures
        ({
            let len = if shown.len() > 0 {
                makespan(shown) as int
            } else {
                1
            };
            let plan = padded(shown, len);
            &&& solves(plan, tiles, width, height, strict, starts, goals)
            &&& plan_len(plan) == len
        }),
{
    let n = shown.len() as int;
    let len = if n > 0 {
        makespan(shown) as int
    } else {
        1
    };
    let plan = padded(shown, len);
    assert forall|i: int| 0 <= i < n implies 1 <= (#[trigger] shown[i]).len() <= len by {
        lemma_longest_bounds(shown, n, i);
    }
    assert forall|i: int, t: int| 0 <= i < n && 0 <= t < len implies {
        let at = position(#[trigger] shown[i], t);
        &&& in_bounds(width, height, at)
        &&& open_at(tiles, width, height, strict, unreported(at))
        &&& #[trigger] plan[i][t] == unreported(at)
    } by {
        let steps = shown[i];
        assert(cells_ok(steps, width, height, tiles));
        let k = if t < steps.len() {
            t
        } else {
            steps.len() - 1
        };
        assert(position(steps, t) == steps[k]);
        let at = steps[k];
        assert(in_bounds(width, height, at) && !on_blocked_tile(width, tiles, at));
        lemma_cell_index(width, height, at.x as int, at.y as int);
    }
    assert forall|i: int| 0 <= i < plan.len() implies (#[trigger] plan[i]).len() == len && plan[i][0]
        == starts[i] by {
        let steps = shown[i];
        assert(endpoints_ok(steps, reported_cells(starts)[i], reported_cells(goals)[i]));
        assert(position(steps, 0) == steps[0]);
        assert(plan[i][0] == unreported(position(shown[i], 0)));
    }
    assert forall|i: int, t: int| 0 <= i < plan.len() && 0 <= t < len implies open_at(
        tiles,
        width,
        height,
        strict,
        #[trigger] plan[i][t],
    ) by {
        assert(plan[i][t] == unreported(position(shown[i], t)));
    }
    assert forall|i: int, t: int| 0 <= i < plan.len() && 0 <= t < len - 1 implies step_ok(
        #[trigger] plan[i][t],
        plan[i][t + 1],
    ) by {
        let steps = shown[i];
        assert(moves_ok(steps));
        assert(plan[i][t] == unreported(position(shown[i], t)));
        assert(plan[i][t + 1] == unreported(position(shown[i], t + 1)));
        assert(in_bounds(width, height, position(shown[i], t)));
        assert(in_bounds(width, height, position(shown[i], t + 1)));
        if t + 1 < steps.len() {
            assert(cardinal_step(steps[t], steps[t + 1]));
        }
    }
    assert forall|i: int, j: int, t: int| 0 <= i < j < plan.len() && 0 <= t < len implies #[trigger] plan[i][t]
        != #[trigger] plan[j][t] by {
        assert(!vertex_conflict(shown[i], shown[j], t));
        assert(plan[i][t] == unreported(position(shown[i], t)));
        assert(plan[j][t] == unreported(position(shown[j], t)));
        assert(in_bounds(width, height, position(shown[i], t)));
        assert(in_bounds(width, height, position(shown[j], t)));
    }
    assert forall|i: int, j: int, t: int| 0 <= i < j < plan.len() && 0 <= t < len - 1 implies !#[trigger] swaps(
        plan[i],
        plan[j],
        t,
    ) by {
        assert(!edge_conflict(shown[i], shown[j], t));
        assert(plan[i][t] == unreported(position(shown[i], t)));
        assert(plan[j][t] == unreported(position(shown[j], t)));
        assert(plan[i][t + 1] == unreported(position(shown[i], t + 1)));
        assert(plan[j][t + 1] == unreported(position(shown[j], t + 1)));
        assert(in_bounds(width, height, position(shown[i], t)));
        assert(in_bounds(width, height, position(shown[j], t)));
        assert(in_bounds(width, height, position(shown[i], t + 1)));
        assert(in_bounds(width, height, position(shown[j], t + 1)));
    }
    assert(plan_len(plan) == len) by {
        if n > 0 {
            assert(plan[0].len() == len);
        }
    }
    assert forall|i: int| 0 <= i < plan.len() implies (#[trigger] plan[i])[plan_len(plan) - 1]
        == goals[i] by {
        let steps = shown[i];
        assert(endpoints_ok(steps, reported_cells(starts)[i], reported_cells(goals)[i]));
        assert(position(steps, len - 1) == steps[steps.len() - 1]);
        assert(plan[i][len - 1] == unreported(position(shown[i], len - 1)));
    }
}

/// Where the joint-state search finds no plan, no plan for its inputs that
/// spans at most `horizon()` timesteps passes validation. The first premise
/// is what the search promises when it returns nothing.
pub proof fn lemma_no_plan_none_valid(
    shown: Seq<Seq<crate::validation::Coordinate>>,
    tiles: Seq<u8>,
    width: u32,
    height: u32,
    strict: bool,
    starts: Seq<crate::astar::Coordinate>,
    goals: Seq<crate::astar::Coordinate>,
)
    requires
        forall|plan: Seq<Seq<crate::astar::Coordinate>>| #[trigger]
            solves(plan, tiles, width, height, strict, starts, goals) ==> plan_len(plan) > horizon(),
        shown.len() == starts.len(),
        goals.len() == starts.len(),
        tiles_fit(tiles, width, height, strict),
        all_reportable(starts),
        all_reportable(goals),
        respects_rules(
            shown,
            width,
            height,
            tiles,
            reported_cells(starts),
            reported_cells(goals),
        ),
    ensures
        makespan(shown) > horizon(),
{
    lemma_valid_plan_pads(shown, tiles, width, height, strict, starts, goals);
    let len = if shown.len() > 0 {
        makespan(shown) as int
    } else {
        1
    };
    assert(solves(padded(shown, len), tiles, width, height, strict, starts, goals));
}

} // verus!
