//! The reference solver as it is offered to a host that passes flat arrays:
//! a solver that keeps its grid, and a solution laid out in one array.

use vstd::prelude::*;
use vstd::string::*;
use crate::astar::{plan_of, Coordinate, Grid, Path};
use crate::joint::{
    goals_of, horizon, plan_len, searched, solve_mapf_centralized_grid, solves, starts_of, Task,
};

verus! {

/// MAPF Solver that holds a pre-parsed grid for efficient reuse.
#[derive(Debug, Clone)]
pub struct MapfSolver {
    pub grid: Grid,
}

/// Result of solving a MAPF instance, laid out for a host.
#[derive(Debug, Clone)]
pub struct WasmSolution {
    /// Flattened paths: [path1_len, x1, y1, x2, y2, ..., path2_len, ...]
    pub paths_vec: Vec<u32>,
    /// Total cost (sum of path lengths - 1 for each agent)
    pub cost: u32,
    /// Nodes expanded during search
    pub nodes_expanded: u64,
}

/// Why the solver has no solution to give.
#[derive(Debug, Clone, Copy, PartialEq, Eq, Structural)]
pub enum SolveError {
    /// The map data has not one byte for each cell.
    MapLength,
    /// The start and goal arrays differ in length or hold an odd number.
    AgentLists,
    /// The search found no plan.
    NoPlan,
}

pub open spec fn error_text(e: SolveError) -> Seq<char> {
    match e {
        SolveError::MapLength => "Map data length doesn't match width*height"@,
        SolveError::AgentLists => "starts and goals must have same length and be pairs"@,
        SolveError::NoPlan => "Failed to find collision-free paths for all agents"@,
    }
}

impl SolveError {
    /// The sentence that describes this error.
    pub fn message(&self) -> (out: String)
        ensures
            out@ == error_text(*self),
    {
        match self {
            SolveError::MapLength => String::from_str("Map data length doesn't match width*height"),
            SolveError::AgentLists => String::from_str(
                "starts and goals must have same length and be pairs",
            ),
            SolveError::NoPlan => String::from_str(
                "Failed to find collision-free paths for all agents",
            ),
        }
    }
}

/// The tasks that two flat arrays of coordinates stand for: agent `i`
/// starts on `(starts[2i], starts[2i+1])` and is bound for `(goals[2i],
/// goals[2i+1])`.
pub open spec fn tasks_of(starts: Seq<u32>, goals: Seq<u32>) -> Seq<Task> {
    Seq::new(
        starts.len() / 2,
        |i: int| ((starts[2 * i], starts[2 * i + 1]), (goals[2 * i], goals[2 * i + 1])),
    )
}

/// A length as the 32-bit number it is laid out as.
pub open spec fn laid_out_len(len: nat) -> u32 {
    (len % 0x1_0000_0000) as u32
}

/// One path laid out: its length, then each step's x and y.
pub open spec fn flat_path(steps: Seq<Coordinate>, upto: int) -> Seq<u32>
    decreases upto,
{
    if upto <= 0 {
        seq![laid_out_len(steps.len())]
    } else {
        flat_path(steps, upto - 1).push(steps[upto - 1].x).push(steps[upto - 1].y)
    }
}

/// The first `upto` paths laid out one behind the other.
pub open spec fn flat_plan(plan: Seq<Seq<Coordinate>>, upto: int) -> Seq<u32>
    decreases upto,
{
    if upto <= 0 {
        Seq::empty()
    } else {
        flat_plan(plan, upto - 1) + flat_path(plan[upto - 1], plan[upto - 1].len() as int)
    }
}

/// The moves of the first `upto` paths together.
pub open spec fn moves_sum(plan: Seq<Seq<Coordinate>>, upto: int) -> nat
    decreases upto,
{
    if upto <= 0 {
        0
    } else {
        moves_sum(plan, upto - 1) + Path::moves(plan[upto - 1])
    }
}

/// A sum as the 32-bit number it is reported as: itself, or the largest
/// such number if it does not fit.
pub open spec fn capped(v: nat) -> u32 {
    if v > u32::MAX {
        u32::MAX
    } else {
        v as u32
    }
}

/// Lays a plan out in one array and sums up its cost.
pub fn lay_out(paths: &Vec<Path>) -> (solution: WasmSolution)
    ensures
        solution.paths_vec@ == flat_plan(plan_of(paths@), paths@.len() as int),
        solution.cost == capped(moves_sum(plan_of(paths@), paths@.len() as int)),
        solution.nodes_expanded == 0,
{
    let ghost plan = plan_of(paths@);
    let mut all: Vec<u32> = Vec::new();
    let mut total: u32 = 0;
    let mut i: usize = 0;
    while i < paths.len()
        invariant
            i <= paths@.len(),
            plan == plan_of(paths@),
            all@ == flat_plan(plan, i as int),
            total == capped(moves_sum(plan, i as int)),
        decreases paths@.len() - i,
    {
        let path = &paths[i];
        let ghost before = all@;
        all.push((path.steps.len() as u64 % 0x1_0000_0000) as u32);
        let mut t: usize = 0;
        while t < path.steps.len()
            invariant
                t <= path.steps@.len(),
                all@ == before + flat_path(path@, t as int),
            decreases path.steps@.len() - t,
        {
            all.push(path.steps[t].x);
            all.push(path.steps[t].y);
            t += 1;
        }
        let cost = path.cost();
        total = if cost > u32::MAX - total {
            u32::MAX
        } else {
            total + cost
        };
        i += 1;
    }
    WasmSolution { paths_vec: all, cost: total, nodes_expanded: 0 }
}

fn pair_up(starts: &[u32], goals: &[u32]) -> (agents: Vec<Task>)
    requires
        starts@.len() == goals@.len(),
        starts@.len() % 2 == 0,
    ensures
        agents@ == tasks_of(starts@, goals@),
{
    let n: usize = starts.len() / 2;
    let mut agents: Vec<Task> = Vec::new();
    let mut i: usize = 0;
    while i < n
        invariant
            i <= n,
            n == starts@.len() / 2,
            starts@.len() <= usize::MAX,
            starts@.len() == goals@.len(),
            starts@.len() % 2 == 0,
            agents@.len() == i,
            forall|k: int| 0 <= k < i ==> #[trigger] agents@[k] == tasks_of(starts@, goals@)[k],
        decreases n - i,
    {
        agents.push(((starts[i * 2], starts[i * 2 + 1]), (goals[i * 2], goals[i * 2 + 1])));
        i += 1;
    }
    assert(agents@ =~= tasks_of(starts@, goals@));
    agents
}

impl MapfSolver {
    /// Initialize the solver with map data once. The data must hold one
    /// byte for each cell.
    pub fn new(map_data: &[u8], width: u32, height: u32) -> (r: Result<MapfSolver, SolveError>)
        ensures
            map_data@.len() == width * height ==> (r matches Ok(solver) && solver.grid.tiles()
                == map_data@ && solver.grid.width == width && solver.grid.height == height),
            map_data@.len() != width * height ==> r == Err::<MapfSolver, _>(SolveError::MapLength),
    {
        assert(width * height <= 0xffff_ffff * 0xffff_ffff) by (nonlinear_arith)
            requires
                0 <= width <= 0xffff_ffff,
                0 <= height <= 0xffff_ffff,
        ;
        if map_data.len() as u64 != width as u64 * height as u64 {
            return Err(SolveError::MapLength);
        }
        Ok(MapfSolver { grid: Grid::from_raw(map_data, width, height) })
    }

    /// Get the map width.
    pub fn width(&self) -> (w: u32)
        ensures
            w == self.grid.width,
    {
        self.grid.width
    }

    /// Get the map height.
    pub fn height(&self) -> (h: u32)
        ensures
            h == self.grid.height,
    {
        self.grid.height
    }

    /// Solve for a specific set of agents on the pre-loaded map. The two
    /// arrays hold the agents' starts and goals as `x, y` pairs.
    ///
    /// The solution lays out the plan that `searched` gives for the agents'
    /// tasks on the grid; that plan solves the tasks. Where the search finds
    /// no plan, no plan of at most `horizon()` timesteps solves the tasks.
    pub fn solve(&self, starts: &[u32], goals: &[u32]) -> (r: Result<WasmSolution, SolveError>)
        ensures
            (starts@.len() != goals@.len() || starts@.len() % 2 != 0) <==> r == Err::<WasmSolution, _>(
                SolveError::AgentLists,
            ),
            r != Err::<WasmSolution, _>(SolveError::MapLength),
            starts@.len() == goals@.len() && starts@.len() % 2 == 0 ==> (match searched(
                self.grid.tiles(),
                self.grid.width,
                self.grid.height,
                true,
                tasks_of(starts@, goals@),
            ) {
                Some(plan) => r matches Ok(solution) && solution.paths_vec@ == flat_plan(
                    plan,
                    plan.len() as int,
                ) && solution.cost == capped(moves_sum(plan, plan.len() as int))
                    && solution.nodes_expanded == 0,
                None => r == Err::<WasmSolution, _>(SolveError::NoPlan),
            }),
            r == Err::<WasmSolution, _>(SolveError::NoPlan) ==> forall|plan: Seq<Seq<Coordinate>>| #[trigger]
                solves(
                    plan,
                    self.grid.tiles(),
                    self.grid.width,
                    self.grid.height,
                    true,
                    starts_of(tasks_of(starts@, goals@)),
                    goals_of(tasks_of(starts@, goals@)),
                ) ==> plan_len(plan) > horizon(),
            r matches Ok(solution) ==> exists|plan: Seq<Seq<Coordinate>>|
                {
                    &&& #[trigger] solves(
                        plan,
                        self.grid.tiles(),
                        self.grid.width,
                        self.grid.height,
                        true,
                        starts_of(tasks_of(starts@, goals@)),
                        goals_of(tasks_of(starts@, goals@)),
                    )
                    &&& solution.paths_vec@ == flat_plan(plan, plan.len() as int)
                    &&& solution.cost == capped(moves_sum(plan, plan.len() as int))
                },
    {
        if starts.len() != goals.len() || starts.len() % 2 != 0 {
            return Err(SolveError::AgentLists);
        }
        let agents = pair_up(starts, goals);
        match solve_mapf_centralized_grid(&self.grid, agents.as_slice()) {
            Some(paths) => {
                let solution = lay_out(&paths);
                assert(plan_of(paths@).len() == paths@.len());
                Ok(solution)
            },
            None => Err(SolveError::NoPlan),
        }
    }
}

impl WasmSolution {
    /// Get the paths in one array.
    /// Format: [path1_len, x1, y1, x2, y2, ..., path2_len, ...]
    pub fn paths(&self) -> (out: &Vec<u32>)
        ensures
            out@ == self.paths_vec@,
    {
        &self.paths_vec
    }

    pub fn cost(&self) -> (cost: u32)
        ensures
            cost == self.cost,
    {
        self.cost
    }

    pub fn nodes_expanded(&self) -> (count: u64)
        ensures
            count == self.nodes_expanded,
    {
        self.nodes_expanded
    }
}

/// Solver information.
pub fn solver_info() -> (info: String)
    ensures
        info@ == "A* Reference Solver v0.2.0 (Multi-Agent with Prioritized Planning)"@,
{
    String::from_str("A* Reference Solver v0.2.0 (Multi-Agent with Prioritized Planning)")
}

/// Solve a MAPF instance (one-shot, creates solver internally).
pub fn solve(map_data: &[u8], width: u32, height: u32, starts: &[u32], goals: &[u32]) -> (r: Result<
    WasmSolution,
    SolveError,
>)
    ensures
        map_data@.len() != width * height ==> r == Err::<WasmSolution, _>(SolveError::MapLength),
        map_data@.len() == width * height && (starts@.len() != goals@.len() || starts@.len() % 2
            != 0) ==> r == Err::<WasmSolution, _>(SolveError::AgentLists),
        map_data@.len() == width * height && starts@.len() == goals@.len() && starts@.len() % 2
            == 0 ==> (match searched(map_data@, width, height, true, tasks_of(starts@, goals@)) {
            Some(plan) => r matches Ok(solution) && solution.paths_vec@ == flat_plan(
                plan,
                plan.len() as int,
            ) && solution.cost == capped(moves_sum(plan, plan.len() as int))
                && solution.nodes_expanded == 0,
            None => r == Err::<WasmSolution, _>(SolveError::NoPlan),
        }),
        r matches Ok(solution) ==> exists|plan: Seq<Seq<Coordinate>>|
            {
                &&& #[trigger] solves(
                    plan,
                    map_data@,
                    width,
                    height,
                    true,
                    starts_of(tasks_of(starts@, goals@)),
                    goals_of(tasks_of(starts@, goals@)),
                )
                &&& solution.paths_vec@ == flat_plan(plan, plan.len() as int)
                &&& solution.cost == capped(moves_sum(plan, plan.len() as int))
            },
        r == Err::<WasmSolution, _>(SolveError::NoPlan) ==> forall|plan: Seq<Seq<Coordinate>>| #[trigger]
            solves(
                plan,
                map_data@,
                width,
                height,
                true,
                starts_of(tasks_of(starts@, goals@)),
                goals_of(tasks_of(starts@, goals@)),
            ) ==> plan_len(plan) > horizon(),
{
    let solver = MapfSolver::new(map_data, width, height)?;
    solver.solve(starts, goals)
}

} // verus!
