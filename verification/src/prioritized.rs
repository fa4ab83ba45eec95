//! The fallback solver: step-by-step prioritized planning.
//!
//! At each timestep the agents choose in index order. Each takes the best of
//! its actions that does not conflict with what the agents before it have
//! chosen. The planner is incomplete: an agent without such an action is
//! stuck, and the planner gives up.

use vstd::prelude::*;
use crate::astar::{
    cells_of, heuristic, lemma_open_neighbors, manhattan, moves_ok, neighbors_of, open_at,
    open_neighbors, plan_of, step_ok, ActionType, Coordinate, Grid, Path,
};
use crate::joint::{
    copy_cells, goals_from, goals_of, into_paths, rows, same_cells, single_steps, standing_plan,
    starts_from, starts_of, Task,
};

verus! {

/// An action an agent can take.
#[derive(Debug, Clone, Copy, PartialEq, Eq, Structural)]
pub struct Action {
    pub action_type: ActionType,
    pub from: Coordinate,
    pub target: Coordinate,
    /// lower is better (distance to goal)
    pub priority: u64,
}

/// The move from `pos` to the neighbour `to`, ranked by what is left to the
/// goal from there.
pub open spec fn move_to(pos: Coordinate, to: Coordinate, goal: Coordinate) -> Action {
    Action {
        action_type: ActionType::Move,
        from: pos,
        target: to,
        priority: manhattan(to, goal) as u64,
    }
}

/// The wait on `pos`, ranked one worse than a move that keeps the distance.
pub open spec fn wait_at(pos: Coordinate, goal: Coordinate) -> Action {
    Action {
        action_type: ActionType::NoOp,
        from: pos,
        target: pos,
        priority: (manhattan(pos, goal) + 1) as u64,
    }
}

/// The actions of an agent on `pos` before they are ranked: a move to each
/// open neighbour, in the neighbours' order, then the wait.
pub open spec fn candidates(
    tiles: Seq<u8>,
    width: u32,
    height: u32,
    strict: bool,
    pos: Coordinate,
    goal: Coordinate,
) -> Seq<Action> {
    let near = open_neighbors(tiles, width, height, strict, pos, 4);
    Seq::new(near.len(), |k: int| move_to(pos, near[k], goal)).push(wait_at(pos, goal))
}

/// A ranked list with one more action: behind every action that is ranked
/// no worse, before every action that is ranked worse.
pub open spec fn placed(ranked: Seq<Action>, a: Action) -> Seq<Action>
    decreases ranked.len(),
{
    if ranked.len() == 0 {
        seq![a]
    } else if ranked.last().priority <= a.priority {
        ranked.push(a)
    } else {
        placed(ranked.drop_last(), a).push(ranked.last())
    }
}

/// The first `upto` actions, ranked best first; actions of equal rank keep
/// their order.
pub open spec fn by_priority(actions: Seq<Action>, upto: int) -> Seq<Action>
    decreases upto,
{
    if upto <= 0 {
        Seq::empty()
    } else {
        placed(by_priority(actions, upto - 1), actions[upto - 1])
    }
}

/// The actions of an agent on `pos`, best first.
pub open spec fn prioritized(
    tiles: Seq<u8>,
    width: u32,
    height: u32,
    strict: bool,
    pos: Coordinate,
    goal: Coordinate,
) -> Seq<Action> {
    let all = candidates(tiles, width, height, strict, pos, goal);
    by_priority(all, all.len() as int)
}

/// An action that an agent on `pos` may take: a wait, or a cardinal step to
/// an open cell.
pub open spec fn fits(a: Action, tiles: Seq<u8>, width: u32, height: u32, strict: bool, pos: Coordinate) -> bool {
    &&& a.from == pos
    &&& step_ok(pos, a.target)
    &&& a.target == pos || open_at(tiles, width, height, strict, a.target)
}

/// Two actions of one timestep conflict: both lead to the same cell, or
/// both are moves and the agents trade places.
pub open spec fn conflict(a: Action, b: Action) -> bool {
    a.target == b.target || (a.action_type == ActionType::Move && b.action_type
        == ActionType::Move && a.from == b.target && a.target == b.from)
}

proof fn lemma_placed(ranked: Seq<Action>, a: Action, at: int)
    requires
        0 <= at <= ranked.len(),
        forall|k: int| at <= k < ranked.len() ==> (#[trigger] ranked[k]).priority > a.priority,
        at > 0 ==> ranked[at - 1].priority <= a.priority,
    ensures
        placed(ranked, a) == ranked.insert(at, a),
    decreases ranked.len(),
{
    if ranked.len() == 0 {
        assert(ranked.insert(at, a) =~= seq![a]);
    } else if at == ranked.len() {
        assert(ranked.insert(at, a) =~= ranked.push(a));
    } else {
        lemma_placed(ranked.drop_last(), a, at);
        assert(ranked.insert(at, a) =~= ranked.drop_last().insert(at, a).push(ranked.last()));
    }
}

/// Get prioritized actions for an agent at a position: the moves to its
/// open neighbours and the wait, sorted by how close they bring the agent to
/// its goal.
pub fn prioritized_actions(
    pos: Coordinate,
    goal: Coordinate,
    tiles: &[u8],
    width: u32,
    height: u32,
    strict: bool,
) -> (actions: Vec<Action>)
    ensures
        actions@ == prioritized(tiles@, width, height, strict, pos, goal),
        forall|k: int|
            0 <= k < actions@.len() ==> fits(#[trigger] actions@[k], tiles@, width, height, strict, pos),
{
    let near = neighbors_of(tiles, width, height, strict, pos);
    let ghost all = candidates(tiles@, width, height, strict, pos, goal);
    let ghost cells = open_neighbors(tiles@, width, height, strict, pos, 4);
    proof {
        lemma_open_neighbors(tiles@, width, height, strict, pos, 4);
    }
    let mut actions: Vec<Action> = Vec::new();
    let mut i: usize = 0;
    while i <= near.len()
        invariant
            i <= near@.len() + 1,
            near@.len() <= 4,
            cells_of(near@) == cells,
            cells == open_neighbors(tiles@, width, height, strict, pos, 4),
            all == candidates(tiles@, width, height, strict, pos, goal),
            actions@ == by_priority(all, i as int),
            forall|k: int|
                0 <= k < cells.len() ==> open_at(tiles@, width, height, strict, #[trigger] cells[k])
                    && step_ok(pos, cells[k]),
            forall|k: int|
                0 <= k < actions@.len() ==> fits(
                    #[trigger] actions@[k],
                    tiles@,
                    width,
                    height,
                    strict,
                    pos,
                ),
        decreases near@.len() + 1 - i,
    {
        let next = if i < near.len() {
            assert(cells_of(near@)[i as int] == near@[i as int].0);
            Action {
                action_type: ActionType::Move,
                from: pos,
                target: near[i].0,
                priority: heuristic(near[i].0, goal),
            }
        } else {
            Action {
                action_type: ActionType::NoOp,
                from: pos,
                target: pos,
                priority: heuristic(pos, goal) + 1,
            }
        };
        assert(next == all[i as int]);
        assert(fits(next, tiles@, width, height, strict, pos));
        let mut at: usize = actions.len();
        while at > 0 && actions[at - 1].priority > next.priority
            invariant
                at <= actions@.len(),
                forall|k: int| at <= k < actions@.len() ==> (#[trigger] actions@[k]).priority > next.priority,
            decreases at,
        {
            at -= 1;
        }
        proof {
            lemma_placed(actions@, next, at as int);
        }
        let ghost before = actions@;
        actions.insert(at, next);
        assert forall|k: int| 0 <= k < actions@.len() implies fits(
            #[trigger] actions@[k],
            tiles@,
            width,
            height,
            strict,
            pos,
        ) by {
            if k < at {
                assert(actions@[k] == before[k]);
            } else if k > at {
                assert(actions@[k] == before[k - 1]);
            }
        }
        i += 1;
    }
    actions
}

/// Get prioritized actions for an agent at a position on raw map data.
pub fn get_prioritized_actions(
    pos: Coordinate,
    goal: Coordinate,
    width: u32,
    height: u32,
    map: &[u8],
) -> (actions: Vec<Action>)
    ensures
        actions@ == prioritized(map@, width, height, false, pos, goal),
{
    prioritized_actions(pos, goal, map, width, height, false)
}

/// Get prioritized actions using Grid.
pub fn get_prioritized_actions_grid(pos: Coordinate, goal: Coordinate, grid: &Grid) -> (actions: Vec<
    Action,
>)
    ensures
        actions@ == prioritized(grid.tiles(), grid.width, grid.height, true, pos, goal),
{
    prioritized_actions(pos, goal, grid.data(), grid.width, grid.height, true)
}

/// Check for conflicts between two agents' actions.
///
/// Conflict types:
/// 1. Vertex conflict: Two agents move to the same cell
/// 2. Edge conflict: Two agents swap positions (A->B and B->A)
pub fn has_conflict(action_a: &Action, action_b: &Action) -> (yes: bool)
    ensures
        yes == conflict(*action_a, *action_b),
{
    if action_a.target == action_b.target {
        return true;
    }
    if action_a.action_type == ActionType::Move && action_b.action_type == ActionType::Move {
        if action_a.from == action_b.target && action_a.target == action_b.from {
            return true;
        }
    }
    false
}

// ---------------------------------------------------------------------------
// The planner
// ---------------------------------------------------------------------------

/// Paths that the planner may return: one per agent, each from the agent's
/// start to `ends[i]` by cardinal steps and waits, over open cells and the
/// agent's own start.
pub open spec fn each_leads(
    plan: Seq<Seq<Coordinate>>,
    tiles: Seq<u8>,
    width: u32,
    height: u32,
    strict: bool,
    starts: Seq<Coordinate>,
    ends: Seq<Coordinate>,
) -> bool {
    &&& plan.len() == starts.len()
    &&& forall|i: int|
        0 <= i < plan.len() ==> {
            let steps = #[trigger] plan[i];
            &&& steps.len() > 0
            &&& steps[0] == starts[i]
            &&& steps[steps.len() - 1] == ends[i]
            &&& moves_ok(steps)
            &&& forall|t: int|
                0 <= t < steps.len() ==> open_at(tiles, width, height, strict, #[trigger] steps[t])
                    || steps[t] == starts[i]
        }
}

/// The action conflicts with none of those chosen before it.
pub open spec fn free(a: Action, chosen: Seq<Action>) -> bool {
    forall|j: int| 0 <= j < chosen.len() ==> !conflict(a, #[trigger] chosen[j])
}

/// The place, at or after `from`, of the first action that is free.
pub open spec fn first_free(actions: Seq<Action>, chosen: Seq<Action>, from: int) -> Option<int>
    decreases actions.len() - from,
{
    if from < 0 || from >= actions.len() {
        None
    } else if free(actions[from], chosen) {
        Some(from)
    } else {
        first_free(actions, chosen, from + 1)
    }
}

/// What the first `upto` agents choose in one timestep: each the best of its
/// actions that is free of what the agents before it chose. `None` if one of
/// them has no such action.
pub open spec fn chosen_by(
    tiles: Seq<u8>,
    width: u32,
    height: u32,
    strict: bool,
    positions: Seq<Coordinate>,
    goals: Seq<Coordinate>,
    upto: int,
) -> Option<Seq<Action>>
    decreases upto,
{
    if upto <= 0 {
        Some(Seq::empty())
    } else {
        match chosen_by(tiles, width, height, strict, positions, goals, upto - 1) {
            None => None,
            Some(before) => {
                let actions = prioritized(
                    tiles,
                    width,
                    height,
                    strict,
                    positions[upto - 1],
                    goals[upto - 1],
                );
                match first_free(actions, before, 0) {
                    None => None,
                    Some(k) => Some(before.push(actions[k])),
                }
            },
        }
    }
}

/// Where the agents are after their actions.
pub open spec fn targets(actions: Seq<Action>) -> Seq<Coordinate> {
    Seq::new(actions.len(), |i: int| actions[i].target)
}

/// A path after its agent has acted: one step longer, unless the agent has
/// waited on its goal.
pub open spec fn stepped(path: Seq<Coordinate>, target: Coordinate, goal: Coordinate) -> Seq<
    Coordinate,
> {
    if target != path[path.len() - 1] || target != goal {
        path.push(target)
    } else {
        path
    }
}

/// The paths after every agent has acted.
pub open spec fn all_stepped(
    plan: Seq<Seq<Coordinate>>,
    actions: Seq<Action>,
    goals: Seq<Coordinate>,
) -> Seq<Seq<Coordinate>> {
    Seq::new(plan.len(), |i: int| stepped(plan[i], actions[i].target, goals[i]))
}

/// What the planner arrives at from given positions and paths with `left`
/// timesteps to go: the paths as they are once every agent stands on its
/// goal; nothing if an agent gets stuck or the time runs out before.
pub open spec fn run(
    tiles: Seq<u8>,
    width: u32,
    height: u32,
    strict: bool,
    positions: Seq<Coordinate>,
    plan: Seq<Seq<Coordinate>>,
    goals: Seq<Coordinate>,
    left: nat,
) -> Option<Seq<Seq<Coordinate>>>
    decreases left,
{
    if positions == goals {
        Some(plan)
    } else if left == 0 {
        None
    } else {
        match chosen_by(tiles, width, height, strict, positions, goals, positions.len() as int) {
            None => None,
            Some(actions) => run(
                tiles,
                width,
                height,
                strict,
                targets(actions),
                all_stepped(plan, actions, goals),
                goals,
                (left - 1) as nat,
            ),
        }
    }
}

/// What the planner returns for given tasks and a limit on the timesteps.
pub open spec fn planned(
    tiles: Seq<u8>,
    width: u32,
    height: u32,
    strict: bool,
    agents: Seq<Task>,
    max_timesteps: nat,
) -> Option<Seq<Seq<Coordinate>>> {
    run(
        tiles,
        width,
        height,
        strict,
        starts_of(agents),
        standing_plan(starts_of(agents)),
        goals_of(agents),
        max_timesteps,
    )
}

/// The first action that conflicts with none of those chosen before.
fn choose_action(actions: &Vec<Action>, chosen: &Vec<Action>) -> (pick: Option<usize>)
    ensures
        match first_free(actions@, chosen@, 0) {
            Some(k) => pick == Some(k as usize) && 0 <= k < actions@.len(),
            None => pick is None,
        },
{
    let mut k: usize = 0;
    while k < actions.len()
        invariant
            k <= actions@.len(),
            first_free(actions@, chosen@, 0) == first_free(actions@, chosen@, k as int),
        decreases actions@.len() - k,
    {
        let mut j: usize = 0;
        let mut clear = true;
        while j < chosen.len() && clear
            invariant
                j <= chosen@.len(),
                k < actions@.len(),
                clear ==> forall|m: int| 0 <= m < j ==> !conflict(actions@[k as int], #[trigger] chosen@[m]),
                !clear ==> !free(actions@[k as int], chosen@),
            decreases chosen@.len() - j,
        {
            if has_conflict(&actions[k], &chosen[j]) {
                clear = false;
            }
            j += 1;
        }
        if clear {
            return Some(k);
        }
        k += 1;
    }
    None
}

/// One timestep: the action of every agent, chosen in index order; `None`
/// if an agent is stuck.
fn choose_all(
    tiles: &[u8],
    width: u32,
    height: u32,
    strict: bool,
    positions: &Vec<Coordinate>,
    goals: &Vec<Coordinate>,
) -> (chosen: Option<Vec<Action>>)
    requires
        positions@.len() == goals@.len(),
    ensures
        match chosen_by(tiles@, width, height, strict, positions@, goals@, positions@.len() as int) {
            Some(actions) => chosen matches Some(list) && list@ == actions,
            None => chosen is None,
        },
        chosen matches Some(actions) ==> actions@.len() == positions@.len() && forall|i: int|
            0 <= i < actions@.len() ==> fits(
                #[trigger] actions@[i],
                tiles@,
                width,
                height,
                strict,
                positions@[i],
            ),
{
    let mut chosen: Vec<Action> = Vec::new();
    let mut i: usize = 0;
    while i < positions.len()
        invariant
            i <= positions@.len(),
            positions@.len() == goals@.len(),
            chosen@.len() == i,
            chosen_by(tiles@, width, height, strict, positions@, goals@, i as int) == Some(chosen@),
            forall|k: int|
                0 <= k < i ==> fits(#[trigger] chosen@[k], tiles@, width, height, strict, positions@[k]),
        decreases positions@.len() - i,
    {
        let actions = prioritized_actions(positions[i], goals[i], tiles, width, height, strict);
        match choose_action(&actions, &chosen) {
            Some(k) => {
                chosen.push(actions[k]);
            },
            None => {
                proof {
                    lemma_stuck(
                        tiles@,
                        width,
                        height,
                        strict,
                        positions@,
                        goals@,
                        i + 1,
                        positions@.len() as int,
                    );
                }
                return None;
            },
        }
        i += 1;
    }
    Some(chosen)
}

/// Once an agent is stuck, the timestep has no outcome.
proof fn lemma_stuck(
    tiles: Seq<u8>,
    width: u32,
    height: u32,
    strict: bool,
    positions: Seq<Coordinate>,
    goals: Seq<Coordinate>,
    stuck: int,
    upto: int,
)
    requires
        stuck <= upto,
        chosen_by(tiles, width, height, strict, positions, goals, stuck) is None,
    ensures
        chosen_by(tiles, width, height, strict, positions, goals, upto) is None,
    decreases upto - stuck,
{
    if stuck < upto {
        lemma_stuck(tiles, width, height, strict, positions, goals, stuck, upto - 1);
    }
}

/// Step-by-step prioritized planning on raw tiles, for at most
/// `max_timesteps` timesteps.
///
/// The result is what `planned` says. Paths that are returned lead every
/// agent from its start to its goal: see `each_leads`. A timestep that an
/// agent waits out on its goal is not written to its path.
pub fn plan_prioritized(
    tiles: &[u8],
    width: u32,
    height: u32,
    strict: bool,
    agents: &[Task],
    max_timesteps: u64,
) -> (result: Option<Vec<Path>>)
    ensures
        match planned(tiles@, width, height, strict, agents@, max_timesteps as nat) {
            Some(plan) => result matches Some(paths) && plan_of(paths@) == plan,
            None => result is None,
        },
        result matches Some(paths) ==> each_leads(
            plan_of(paths@),
            tiles@,
            width,
            height,
            strict,
            starts_of(agents@),
            goals_of(agents@),
        ),
{
    let starts = starts_from(agents);
    let goals = goals_from(agents);
    let n = agents.len();
    let mut positions = copy_cells(&starts);
    let mut paths = single_steps(&starts);
    let mut done = same_cells(&positions, &goals);
    let mut t: u64 = 0;
    assert(rows(paths@) =~= standing_plan(starts@));
    let ghost outcome = planned(tiles@, width, height, strict, agents@, max_timesteps as nat);
    while t < max_timesteps && !done
        invariant
            t <= max_timesteps,
            starts@ == starts_of(agents@),
            goals@ == goals_of(agents@),
            n == agents@.len(),
            positions@.len() == n,
            done == (positions@ == goals@),
            each_leads(rows(paths@), tiles@, width, height, strict, starts@, positions@),
            outcome == planned(tiles@, width, height, strict, agents@, max_timesteps as nat),
            outcome == run(
                tiles@,
                width,
                height,
                strict,
                positions@,
                rows(paths@),
                goals@,
                (max_timesteps - t) as nat,
            ),
        decreases max_timesteps - t,
    {
        let chosen = match choose_all(tiles, width, height, strict, &positions, &goals) {
            Some(chosen) => chosen,
            None => {
                return None;
            },
        };
        let ghost before = positions@;
        let ghost plan_at_start = rows(paths@);
        let mut i: usize = 0;
        while i < n
            invariant
                i <= n,
                n == agents@.len(),
                starts@ == starts_of(agents@),
                goals@ == goals_of(agents@),
                positions@.len() == n,
                chosen@.len() == n,
                paths@.len() == n,
                plan_at_start.len() == n,
                before.len() == n,
                forall|k: int|
                    0 <= k < n ==> fits(#[trigger] chosen@[k], tiles@, width, height, strict, before[k]),
                forall|k: int| i <= k < n ==> positions@[k] == before[k],
                forall|k: int| 0 <= k < i ==> #[trigger] positions@[k] == chosen@[k].target,
                forall|k: int| i <= k < n ==> #[trigger] rows(paths@)[k] == plan_at_start[k],
                forall|k: int|
                    0 <= k < i ==> #[trigger] rows(paths@)[k] == stepped(
                        plan_at_start[k],
                        chosen@[k].target,
                        goals@[k],
                    ),
                each_leads(rows(paths@), tiles@, width, height, strict, starts@, positions@),
            decreases n - i,
        {
            let target = chosen[i].target;
            let ghost plan_before = rows(paths@);
            let ghost positions_before = positions@;
            assert(fits(chosen@[i as int], tiles@, width, height, strict, before[i as int]));
            assert(plan_before[i as int] == paths@[i as int]@);
            let last = paths[i][paths[i].len() - 1];
            positions[i] = target;
            if target != last || target != goals[i] {
                paths[i].push(target);
            }
            proof {
                let plan = rows(paths@);
                assert(plan[i as int] == stepped(plan_before[i as int], target, goals@[i as int]));
                assert forall|k: int| 0 <= k < plan.len() && k != i implies #[trigger] plan[k]
                    == plan_before[k] by {}
                assert forall|k: int| 0 <= k < plan.len() implies {
                    let steps = #[trigger] plan[k];
                    &&& steps.len() > 0
                    &&& steps[0] == starts@[k]
                    &&& steps[steps.len() - 1] == positions@[k]
                    &&& moves_ok(steps)
                    &&& forall|t: int|
                        0 <= t < steps.len() ==> open_at(
                            tiles@,
                            width,
                            height,
                            strict,
                            #[trigger] steps[t],
                        ) || steps[t] == starts@[k]
                } by {
                    let old_steps = plan_before[k];
                    assert(old_steps.len() > 0);
                    if k != i {
                        assert(plan[k] == old_steps);
                        assert(positions@[k] == positions_before[k]);
                    } else if plan[k] == old_steps {
                    } else {
                        let steps = plan[k];
                        assert(steps == old_steps.push(target));
                        assert forall|t: int| 0 <= t < steps.len() - 1 implies step_ok(
                            #[trigger] steps[t],
                            steps[t + 1],
                        ) by {
                            if t < old_steps.len() - 1 {
                                assert(steps[t] == old_steps[t]);
                                assert(steps[t + 1] == old_steps[t + 1]);
                            }
                        }
                        assert forall|t: int| 0 <= t < steps.len() implies open_at(
                            tiles@,
                            width,
                            height,
                            strict,
                            #[trigger] steps[t],
                        ) || steps[t] == starts@[k] by {
                            if t < old_steps.len() {
                                assert(steps[t] == old_steps[t]);
                            }
                        }
                    }
                }
            }
            i += 1;
        }
        proof {
            assert(positions@ =~= targets(chosen@));
            assert(rows(paths@) =~= all_stepped(plan_at_start, chosen@, goals@));
        }
        t += 1;
        done = same_cells(&positions, &goals);
    }
    if !done {
        return None;
    }
    Some(into_paths(paths))
}

/// Where every agent starts on its goal, the planner returns the plan in
/// which no agent moves.
pub proof fn lemma_planned_on_goals(
    tiles: Seq<u8>,
    width: u32,
    height: u32,
    strict: bool,
    agents: Seq<Task>,
    max_timesteps: nat,
)
    requires
        starts_of(agents) == goals_of(agents),
    ensures
        planned(tiles, width, height, strict, agents, max_timesteps) == Some(
            standing_plan(starts_of(agents)),
        ),
{
}

/// Solve MAPF for multiple agents using step-by-step prioritized planning,
/// on raw map data on which every tile value but 0 is passable.
///
/// At each timestep:
/// 1. Each agent ranks its actions (Move + NoOp)
/// 2. Agents commit to actions in index order
/// 3. If the best action conflicts, try the next action
/// 4. Continue until all agents reach their goals
///
/// Returns paths for all agents, or None if any agent gets stuck or the
/// agents have not arrived after `(width + height) * 1000` timesteps.
pub fn solve_mapf(map: &[u8], width: u32, height: u32, agents: &[Task]) -> (result: Option<Vec<Path>>)
    ensures
        match planned(map@, width, height, false, agents@, ((width + height) * 1000) as nat) {
            Some(plan) => result matches Some(paths) && plan_of(paths@) == plan,
            None => result is None,
        },
        result matches Some(paths) ==> each_leads(
            plan_of(paths@),
            map@,
            width,
            height,
            false,
            starts_of(agents@),
            goals_of(agents@),
        ),
{
    let max_timesteps: u64 = (width as u64 + height as u64) * 1000;
    plan_prioritized(map, width, height, false, agents, max_timesteps)
}

/// Solve MAPF using a pre-parsed Grid, on which the tile value 1 is
/// passable, for at most `(width + height) * 4` timesteps.
pub fn solve_mapf_grid(grid: &Grid, agents: &[Task]) -> (result: Option<Vec<Path>>)
    ensures
        match planned(
            grid.tiles(),
            grid.width,
            grid.height,
            true,
            agents@,
            ((grid.width + grid.height) * 4) as nat,
        ) {
            Some(plan) => result matches Some(paths) && plan_of(paths@) == plan,
            None => result is None,
        },
        result matches Some(paths) ==> each_leads(
            plan_of(paths@),
            grid.tiles(),
            grid.width,
            grid.height,
            true,
            starts_of(agents@),
            goals_of(agents@),
        ),
{
    let max_timesteps: u64 = (grid.width as u64 + grid.height as u64) * 4;
    plan_prioritized(grid.data(), grid.width, grid.height, true, agents, max_timesteps)
}

} // verus!
