//! Rule checks for multi-agent plans: cardinal moves only, no obstacles,
//! correct endpoints, no collisions. Every check runs to completion and
//! reports every violation it finds.

use vstd::prelude::*;
use vstd::string::*;
use crate::text::{decimal, signed_decimal, push_decimal, push_signed};

verus! {

/// A cell address as a solver reports it. Negative values are representable
/// so that they can be reported as out of bounds.
#[derive(Debug, Clone, Copy, PartialEq, Eq, Structural)]
pub struct Coordinate {
    pub x: i32,
    pub y: i32,
}

/// One agent's positions, indexed by timestep.
#[derive(Debug, Clone)]
pub struct Path {
    pub steps: Vec<Coordinate>,
}

/// A plan: one path per agent, in agent order.
#[derive(Debug, Clone)]
pub struct Solution {
    pub paths: Vec<Path>,
}

/// A row-major grid of tiles; 0 is blocked, anything else is passable.
#[derive(Debug, Clone)]
pub struct GridMap {
    pub width: u32,
    pub height: u32,
    pub tiles: Vec<u8>,
}

#[derive(Debug, Clone, Copy, PartialEq, Eq, Structural)]
pub enum ValidationErrorType {
    DiagonalMove,
    OutOfBounds,
    BlockedCell,
    InvalidStart,
    InvalidGoal,
    VertexCollision,
    EdgeCollision,
    EmptyPath,
}

/// One broken rule: which, by which agent, when, and a sentence for the user.
#[derive(Debug, Clone)]
pub struct ValidationError {
    pub error_type: ValidationErrorType,
    pub agent_index: usize,
    pub timestep: Option<usize>,
    pub details: String,
}

#[derive(Debug, Clone)]
pub struct ValidationResult {
    pub valid: bool,
    pub errors: Vec<ValidationError>,
}

/// What a `ValidationError` says, as mathematical values.
pub struct ErrorRecord {
    pub kind: ValidationErrorType,
    pub agent: nat,
    pub timestep: Option<nat>,
    pub details: Seq<char>,
}

impl View for Path {
    type V = Seq<Coordinate>;

    open spec fn view(&self) -> Seq<Coordinate> {
        self.steps@
    }
}

impl View for Solution {
    type V = Seq<Seq<Coordinate>>;

    open spec fn view(&self) -> Seq<Seq<Coordinate>> {
        plan_of(self.paths@)
    }
}

impl View for ValidationError {
    type V = ErrorRecord;

    open spec fn view(&self) -> ErrorRecord {
        ErrorRecord {
            kind: self.error_type,
            agent: self.agent_index as nat,
            timestep: match self.timestep {
                Some(t) => Some(t as nat),
                None => None,
            },
            details: self.details@,
        }
    }
}

/// The step sequences of a list of paths.
pub open spec fn plan_of(paths: Seq<Path>) -> Seq<Seq<Coordinate>> {
    Seq::new(paths.len(), |i: int| paths[i]@)
}

/// The records of a list of errors.
pub open spec fn records(errors: Seq<ValidationError>) -> Seq<ErrorRecord> {
    Seq::new(errors.len(), |i: int| errors[i]@)
}

// ---------------------------------------------------------------------------
// The rules
// ---------------------------------------------------------------------------

pub open spec fn magnitude(v: int) -> int {
    if v < 0 {
        -v
    } else {
        v
    }
}

/// A step is allowed when it changes at most one coordinate, by at most one.
pub open spec fn cardinal_step(from: Coordinate, to: Coordinate) -> bool {
    magnitude(to.x - from.x) + magnitude(to.y - from.y) <= 1
}

pub open spec fn in_bounds(width: u32, height: u32, c: Coordinate) -> bool {
    0 <= c.x < width && 0 <= c.y < height
}

/// The tile under an in-bounds cell is recorded as blocked.
pub open spec fn on_blocked_tile(width: u32, tiles: Seq<u8>, c: Coordinate) -> bool {
    let idx = c.y * width + c.x;
    0 <= idx < tiles.len() && tiles[idx] == 0
}

/// Where an agent is at time `t`: on its path while it lasts, parked on its
/// last cell afterwards.
pub open spec fn position(steps: Seq<Coordinate>, t: int) -> Coordinate
    recommends
        steps.len() > 0,
        0 <= t,
{
    if t < steps.len() {
        steps[t]
    } else {
        steps[steps.len() - 1]
    }
}

/// The longest path length among the first `upto` paths.
pub open spec fn longest(plan: Seq<Seq<Coordinate>>, upto: int) -> nat
    decreases upto,
{
    if upto <= 0 {
        0
    } else {
        let rest = longest(plan, upto - 1);
        if plan[upto - 1].len() > rest {
            plan[upto - 1].len()
        } else {
            rest
        }
    }
}

/// The number of timesteps a plan spans: the length of its longest path.
pub open spec fn makespan(plan: Seq<Seq<Coordinate>>) -> nat {
    longest(plan, plan.len() as int)
}

/// Both agents have a position and share it at time `t`.
pub open spec fn vertex_conflict(a: Seq<Coordinate>, b: Seq<Coordinate>, t: int) -> bool {
    a.len() > 0 && b.len() > 0 && position(a, t) == position(b, t)
}

/// Both agents have a position and trade places between `t` and `t + 1`.
pub open spec fn edge_conflict(a: Seq<Coordinate>, b: Seq<Coordinate>, t: int) -> bool {
    a.len() > 0 && b.len() > 0 && position(a, t) == position(b, t + 1) && position(b, t)
        == position(a, t + 1)
}

// ---------------------------------------------------------------------------
// The sentences
// ---------------------------------------------------------------------------

pub open spec fn cell_text(c: Coordinate) -> Seq<char> {
    "("@ + signed_decimal(c.x as int) + ","@ + signed_decimal(c.y as int) + ")"@
}

pub open spec fn empty_path_text(agent: nat) -> Seq<char> {
    "Agent "@ + decimal(agent) + " has empty path"@
}

pub open spec fn diagonal_text(agent: nat, from: Coordinate, to: Coordinate, t: nat) -> Seq<char> {
    "Agent "@ + decimal(agent) + " made diagonal move from "@ + cell_text(from) + " to "@
        + cell_text(to) + " at timestep "@ + decimal(t)
}

pub open spec fn out_of_bounds_text(agent: nat, at: Coordinate, t: nat) -> Seq<char> {
    "Agent "@ + decimal(agent) + " at "@ + cell_text(at) + " is out of bounds at timestep "@
        + decimal(t)
}

pub open spec fn blocked_text(agent: nat, at: Coordinate, t: nat) -> Seq<char> {
    "Agent "@ + decimal(agent) + " at "@ + cell_text(at) + " is on blocked cell at timestep "@
        + decimal(t)
}

pub open spec fn vertex_text(first: nat, second: nat, at: Coordinate, t: nat) -> Seq<char> {
    "Agents "@ + decimal(first) + " and "@ + decimal(second) + " collide at "@ + cell_text(at)
        + " at timestep "@ + decimal(t)
}

pub open spec fn edge_text(first: nat, second: nat, t: nat) -> Seq<char> {
    "Agents "@ + decimal(first) + " and "@ + decimal(second)
        + " swap positions between timesteps "@ + decimal(t) + " and "@ + decimal(t + 1)
}

pub open spec fn start_text(agent: nat, found: Coordinate, expected: Coordinate) -> Seq<char> {
    "Agent "@ + decimal(agent) + " path starts at "@ + cell_text(found)
        + " but should start at "@ + cell_text(expected)
}

pub open spec fn goal_text(agent: nat, found: Coordinate, expected: Coordinate) -> Seq<char> {
    "Agent "@ + decimal(agent) + " path ends at "@ + cell_text(found) + " but should end at "@
        + cell_text(expected)
}

fn push_cell(out: &mut String, c: &Coordinate)
    ensures
        final(out)@ == old(out)@ + cell_text(*c),
{
    out.append("(");
    push_signed(out, c.x as i64);
    out.append(",");
    push_signed(out, c.y as i64);
    out.append(")");
}

fn empty_path_message(agent: usize) -> (s: String)
    ensures
        s@ == empty_path_text(agent as nat),
{
    let mut s = String::new();
    s.append("Agent ");
    push_decimal(&mut s, agent as u64);
    s.append(" has empty path");
    s
}

fn diagonal_message(agent: usize, from: &Coordinate, to: &Coordinate, t: usize) -> (s: String)
    ensures
        s@ == diagonal_text(agent as nat, *from, *to, t as nat),
{
    let mut s = String::new();
    s.append("Agent ");
    push_decimal(&mut s, agent as u64);
    s.append(" made diagonal move from ");
    push_cell(&mut s, from);
    s.append(" to ");
    push_cell(&mut s, to);
    s.append(" at timestep ");
    push_decimal(&mut s, t as u64);
    s
}

fn out_of_bounds_message(agent: usize, at: &Coordinate, t: usize) -> (s: String)
    ensures
        s@ == out_of_bounds_text(agent as nat, *at, t as nat),
{
    let mut s = String::new();
    s.append("Agent ");
    push_decimal(&mut s, agent as u64);
    s.append(" at ");
    push_cell(&mut s, at);
    s.append(" is out of bounds at timestep ");
    push_decimal(&mut s, t as u64);
    s
}

fn blocked_message(agent: usize, at: &Coordinate, t: usize) -> (s: String)
    ensures
        s@ == blocked_text(agent as nat, *at, t as nat),
{
    let mut s = String::new();
    s.append("Agent ");
    push_decimal(&mut s, agent as u64);
    s.append(" at ");
    push_cell(&mut s, at);
    s.append(" is on blocked cell at timestep ");
    push_decimal(&mut s, t as u64);
    s
}

fn vertex_message(first: usize, second: usize, at: &Coordinate, t: usize) -> (s: String)
    ensures
        s@ == vertex_text(first as nat, second as nat, *at, t as nat),
{
    let mut s = String::new();
    s.append("Agents ");
    push_decimal(&mut s, first as u64);
    s.append(" and ");
    push_decimal(&mut s, second as u64);
    s.append(" collide at ");
    push_cell(&mut s, at);
    s.append(" at timestep ");
    push_decimal(&mut s, t as u64);
    s
}

fn edge_message(first: usize, second: usize, t: usize) -> (s: String)
    requires
        t < usize::MAX,
    ensures
        s@ == edge_text(first as nat, second as nat, t as nat),
{
    let mut s = String::new();
    s.append("Agents ");
    push_decimal(&mut s, first as u64);
    s.append(" and ");
    push_decimal(&mut s, second as u64);
    s.append(" swap positions between timesteps ");
    push_decimal(&mut s, t as u64);
    s.append(" and ");
    push_decimal(&mut s, (t + 1) as u64);
    s
}

fn start_message(agent: usize, found: &Coordinate, expected: &Coordinate) -> (s: String)
    ensures
        s@ == start_text(agent as nat, *found, *expected),
{
    let mut s = String::new();
    s.append("Agent ");
    push_decimal(&mut s, agent as u64);
    s.append(" path starts at ");
    push_cell(&mut s, found);
    s.append(" but should start at ");
    push_cell(&mut s, expected);
    s
}

fn goal_message(agent: usize, found: &Coordinate, expected: &Coordinate) -> (s: String)
    ensures
        s@ == goal_text(agent as nat, *found, *expected),
{
    let mut s = String::new();
    s.append("Agent ");
    push_decimal(&mut s, agent as u64);
    s.append(" path ends at ");
    push_cell(&mut s, found);
    s.append(" but should end at ");
    push_cell(&mut s, expected);
    s
}

// ---------------------------------------------------------------------------
// What each check reports
// ---------------------------------------------------------------------------

pub open spec fn empty_path_record(agent: nat) -> ErrorRecord {
    ErrorRecord {
        kind: ValidationErrorType::EmptyPath,
        agent,
        timestep: None,
        details: empty_path_text(agent),
    }
}

pub open spec fn diagonal_record(agent: nat, steps: Seq<Coordinate>, t: int) -> ErrorRecord {
    ErrorRecord {
        kind: ValidationErrorType::DiagonalMove,
        agent,
        timestep: Some(t as nat),
        details: diagonal_text(agent, steps[t], steps[t + 1], t as nat),
    }
}

/// The diagonal moves among the first `upto` steps, in timestep order.
pub open spec fn diagonal_records(steps: Seq<Coordinate>, agent: nat, upto: int) -> Seq<
    ErrorRecord,
>
    decreases upto,
{
    if upto <= 0 {
        Seq::empty()
    } else {
        let before = diagonal_records(steps, agent, upto - 1);
        if cardinal_step(steps[upto - 1], steps[upto]) {
            before
        } else {
            before.push(diagonal_record(agent, steps, upto - 1))
        }
    }
}

/// What `validate_path_cardinal` reports: an empty path, or else every
/// diagonal move with its timestep.
pub open spec fn cardinal_records(steps: Seq<Coordinate>, agent: nat) -> Seq<ErrorRecord> {
    if steps.len() == 0 {
        seq![empty_path_record(agent)]
    } else {
        diagonal_records(steps, agent, steps.len() - 1)
    }
}

pub open spec fn out_of_bounds_record(agent: nat, at: Coordinate, t: int) -> ErrorRecord {
    ErrorRecord {
        kind: ValidationErrorType::OutOfBounds,
        agent,
        timestep: Some(t as nat),
        details: out_of_bounds_text(agent, at, t as nat),
    }
}

pub open spec fn blocked_record(agent: nat, at: Coordinate, t: int) -> ErrorRecord {
    ErrorRecord {
        kind: ValidationErrorType::BlockedCell,
        agent,
        timestep: Some(t as nat),
        details: blocked_text(agent, at, t as nat),
    }
}

/// What `validate_path_on_map` reports for the first `upto` steps: each step
/// outside the grid, and each step inside it on a blocked tile.
pub open spec fn map_records(
    steps: Seq<Coordinate>,
    agent: nat,
    width: u32,
    height: u32,
    tiles: Seq<u8>,
    upto: int,
) -> Seq<ErrorRecord>
    decreases upto,
{
    if upto <= 0 {
        Seq::empty()
    } else {
        let before = map_records(steps, agent, width, height, tiles, upto - 1);
        let at = steps[upto - 1];
        if !in_bounds(width, height, at) {
            before.push(out_of_bounds_record(agent, at, upto - 1))
        } else if on_blocked_tile(width, tiles, at) {
            before.push(blocked_record(agent, at, upto - 1))
        } else {
            before
        }
    }
}

pub open spec fn start_record(agent: nat, found: Coordinate, expected: Coordinate) -> ErrorRecord {
    ErrorRecord {
        kind: ValidationErrorType::InvalidStart,
        agent,
        timestep: Some(0nat),
        details: start_text(agent, found, expected),
    }
}

pub open spec fn goal_record(agent: nat, steps: Seq<Coordinate>, expected: Coordinate) -> ErrorRecord {
    ErrorRecord {
        kind: ValidationErrorType::InvalidGoal,
        agent,
        timestep: Some((steps.len() - 1) as nat),
        details: goal_text(agent, steps[steps.len() - 1], expected),
    }
}

/// The endpoint errors of one agent: a wrong first cell, then a wrong last
/// cell. An empty path has neither.
pub open spec fn endpoint_records_of(
    steps: Seq<Coordinate>,
    agent: nat,
    start: Coordinate,
    goal: Coordinate,
) -> Seq<ErrorRecord> {
    if steps.len() == 0 {
        Seq::empty()
    } else {
        let first = if steps[0] != start {
            seq![start_record(agent, steps[0], start)]
        } else {
            Seq::empty()
        };
        let second = if steps[steps.len() - 1] != goal {
            seq![goal_record(agent, steps, goal)]
        } else {
            Seq::empty()
        };
        first + second
    }
}

/// What `validate_starts_and_goals` reports for the first `upto` agents.
pub open spec fn endpoint_records(
    plan: Seq<Seq<Coordinate>>,
    starts: Seq<Coordinate>,
    goals: Seq<Coordinate>,
    upto: int,
) -> Seq<ErrorRecord>
    decreases upto,
{
    if upto <= 0 {
        Seq::empty()
    } else {
        endpoint_records(plan, starts, goals, upto - 1) + endpoint_records_of(
            plan[upto - 1],
            (upto - 1) as nat,
            starts[upto - 1],
            goals[upto - 1],
        )
    }
}

pub open spec fn vertex_record(first: nat, second: nat, at: Coordinate, t: int) -> ErrorRecord {
    ErrorRecord {
        kind: ValidationErrorType::VertexCollision,
        agent: second,
        timestep: Some(t as nat),
        details: vertex_text(first, second, at, t as nat),
    }
}

/// The collisions at time `t` of agent `agent` with the agents below `upto`.
pub open spec fn vertex_records_agent(
    plan: Seq<Seq<Coordinate>>,
    t: int,
    agent: int,
    upto: int,
) -> Seq<ErrorRecord>
    decreases upto,
{
    if upto <= 0 {
        Seq::empty()
    } else {
        let before = vertex_records_agent(plan, t, agent, upto - 1);
        if vertex_conflict(plan[upto - 1], plan[agent], t) {
            before.push(
                vertex_record((upto - 1) as nat, agent as nat, position(plan[agent], t), t),
            )
        } else {
            before
        }
    }
}

/// The collisions at time `t` among the first `upto` agents: each pair once,
/// under its higher index.
pub open spec fn vertex_records_at(plan: Seq<Seq<Coordinate>>, t: int, upto: int) -> Seq<
    ErrorRecord,
>
    decreases upto,
{
    if upto <= 0 {
        Seq::empty()
    } else {
        vertex_records_at(plan, t, upto - 1) + vertex_records_agent(plan, t, upto - 1, upto - 1)
    }
}

/// The collisions during the first `upto` timesteps.
pub open spec fn vertex_records_upto(plan: Seq<Seq<Coordinate>>, upto: int) -> Seq<ErrorRecord>
    decreases upto,
{
    if upto <= 0 {
        Seq::empty()
    } else {
        vertex_records_upto(plan, upto - 1) + vertex_records_at(
            plan,
            upto - 1,
            plan.len() as int,
        )
    }
}

/// What `validate_no_vertex_collisions` reports.
pub open spec fn vertex_records(plan: Seq<Seq<Coordinate>>) -> Seq<ErrorRecord> {
    vertex_records_upto(plan, makespan(plan) as int)
}

pub open spec fn edge_record(first: nat, second: nat, t: int) -> ErrorRecord {
    ErrorRecord {
        kind: ValidationErrorType::EdgeCollision,
        agent: first,
        timestep: Some(t as nat),
        details: edge_text(first, second, t as nat),
    }
}

/// The swaps between `t` and `t + 1` of agent `agent` with the agents from
/// `agent + 1` up to, not including, `upto`.
pub open spec fn edge_records_agent(
    plan: Seq<Seq<Coordinate>>,
    t: int,
    agent: int,
    upto: int,
) -> Seq<ErrorRecord>
    decreases upto,
{
    if upto <= agent + 1 || upto <= 0 {
        Seq::empty()
    } else {
        let before = edge_records_agent(plan, t, agent, upto - 1);
        if edge_conflict(plan[agent], plan[upto - 1], t) {
            before.push(edge_record(agent as nat, (upto - 1) as nat, t))
        } else {
            before
        }
    }
}

/// The swaps between `t` and `t + 1` in which the lower agent is below `upto`.
pub open spec fn edge_records_at(plan: Seq<Seq<Coordinate>>, t: int, upto: int) -> Seq<
    ErrorRecord,
>
    decreases upto,
{
    if upto <= 0 {
        Seq::empty()
    } else {
        edge_records_at(plan, t, upto - 1) + edge_records_agent(
            plan,
            t,
            upto - 1,
            plan.len() as int,
        )
    }
}

/// The swaps that begin during the first `upto` timesteps.
pub open spec fn edge_records_upto(plan: Seq<Seq<Coordinate>>, upto: int) -> Seq<ErrorRecord>
    decreases upto,
{
    if upto <= 0 {
        Seq::empty()
    } else {
        edge_records_upto(plan, upto - 1) + edge_records_at(plan, upto - 1, plan.len() as int)
    }
}

/// What `validate_no_edge_collisions` reports.
pub open spec fn edge_records(plan: Seq<Seq<Coordinate>>) -> Seq<ErrorRecord> {
    edge_records_upto(plan, makespan(plan) - 1)
}

/// The per-path errors of the first `upto` agents: for each agent its move
/// errors, then its map errors.
pub open spec fn path_records(
    plan: Seq<Seq<Coordinate>>,
    width: u32,
    height: u32,
    tiles: Seq<u8>,
    upto: int,
) -> Seq<ErrorRecord>
    decreases upto,
{
    if upto <= 0 {
        Seq::empty()
    } else {
        let steps = plan[upto - 1];
        path_records(plan, width, height, tiles, upto - 1) + cardinal_records(
            steps,
            (upto - 1) as nat,
        ) + map_records(steps, (upto - 1) as nat, width, height, tiles, steps.len() as int)
    }
}

/// The collision errors of a plan; a plan of fewer than two paths has none.
pub open spec fn collision_records(plan: Seq<Seq<Coordinate>>) -> Seq<ErrorRecord> {
    if plan.len() > 1 {
        vertex_records(plan) + edge_records(plan)
    } else {
        Seq::empty()
    }
}

/// Everything `validate_solution` reports, in its order: per-path errors,
/// endpoint errors, vertex collisions, edge collisions.
pub open spec fn solution_records(
    plan: Seq<Seq<Coordinate>>,
    width: u32,
    height: u32,
    tiles: Seq<u8>,
    starts: Seq<Coordinate>,
    goals: Seq<Coordinate>,
) -> Seq<ErrorRecord> {
    path_records(plan, width, height, tiles, plan.len() as int) + endpoint_records(
        plan,
        starts,
        goals,
        plan.len() as int,
    ) + collision_records(plan)
}

// ---------------------------------------------------------------------------
// The checks
// ---------------------------------------------------------------------------

fn push_record(errors: &mut Vec<ValidationError>, e: ValidationError)
    ensures
        records(final(errors)@) == records(old(errors)@).push(e@),
        final(errors)@.len() == old(errors)@.len() + 1,
{
    errors.push(e);
    assert(records(errors@) =~= records(old(errors)@).push(e@));
}

fn append_records(errors: &mut Vec<ValidationError>, more: Vec<ValidationError>)
    ensures
        records(final(errors)@) == records(old(errors)@) + records(more@),
{
    let mut more = more;
    let ghost added = more@;
    errors.append(&mut more);
    assert(records(errors@) =~= records(old(errors)@) + records(added));
}

/// Check if a move is cardinal (N/S/E/W or wait, no diagonals).
pub fn is_cardinal_move(from: &Coordinate, to: &Coordinate) -> (ok: bool)
    ensures
        ok == cardinal_step(*from, *to),
{
    let dx: i64 = to.x as i64 - from.x as i64;
    let dy: i64 = to.y as i64 - from.y as i64;
    let ax: i64 = if dx < 0 { -dx } else { dx };
    let ay: i64 = if dy < 0 { -dy } else { dy };
    ax + ay <= 1
}

/// Validate that a single path is not empty and uses only cardinal moves.
pub fn validate_path_cardinal(path: &Path, agent_index: usize) -> (errors: Vec<ValidationError>)
    ensures
        records(errors@) == cardinal_records(path@, agent_index as nat),
{
    let mut errors: Vec<ValidationError> = Vec::new();
    if path.steps.len() == 0 {
        push_record(
            &mut errors,
            ValidationError {
                error_type: ValidationErrorType::EmptyPath,
                agent_index,
                timestep: None,
                details: empty_path_message(agent_index),
            },
        );
        assert(records(errors@) =~= seq![empty_path_record(agent_index as nat)]);
        return errors;
    }
    let last: usize = path.steps.len() - 1;
    let mut t: usize = 0;
    while t < last
        invariant
            t <= last,
            last == path.steps.len() - 1,
            records(errors@) == diagonal_records(path@, agent_index as nat, t as int),
        decreases last - t,
    {
        let from = &path.steps[t];
        let to = &path.steps[t + 1];
        if !is_cardinal_move(from, to) {
            push_record(
                &mut errors,
                ValidationError {
                    error_type: ValidationErrorType::DiagonalMove,
                    agent_index,
                    timestep: Some(t),
                    details: diagonal_message(agent_index, from, to, t),
                },
            );
        }
        t += 1;
    }
    errors
}

/// Validate that a path stays within map bounds and on passable cells.
pub fn validate_path_on_map(path: &Path, agent_index: usize, map: &GridMap) -> (errors: Vec<
    ValidationError,
>)
    ensures
        records(errors@) == map_records(
            path@,
            agent_index as nat,
            map.width,
            map.height,
            map.tiles@,
            path@.len() as int,
        ),
{
    let mut errors: Vec<ValidationError> = Vec::new();
    let mut t: usize = 0;
    while t < path.steps.len()
        invariant
            t <= path.steps.len(),
            records(errors@) == map_records(
                path@,
                agent_index as nat,
                map.width,
                map.height,
                map.tiles@,
                t as int,
            ),
        decreases path.steps.len() - t,
    {
        let pos = &path.steps[t];
        if pos.x < 0 || pos.x as i64 >= map.width as i64 || pos.y < 0 || pos.y as i64
            >= map.height as i64 {
            push_record(
                &mut errors,
                ValidationError {
                    error_type: ValidationErrorType::OutOfBounds,
                    agent_index,
                    timestep: Some(t),
                    details: out_of_bounds_message(agent_index, pos, t),
                },
            );
        } else {
            assert(pos.y * map.width <= 0xffff_ffff * 0xffff_ffff) by (nonlinear_arith)
                requires
                    0 <= pos.y <= 0xffff_ffff,
                    0 <= map.width <= 0xffff_ffff,
            ;
            let idx: u64 = pos.y as u64 * map.width as u64 + pos.x as u64;
            if idx < map.tiles.len() as u64 && map.tiles[idx as usize] == 0 {
                push_record(
                    &mut errors,
                    ValidationError {
                        error_type: ValidationErrorType::BlockedCell,
                        agent_index,
                        timestep: Some(t),
                        details: blocked_message(agent_index, pos, t),
                    },
                );
            }
        }
        t += 1;
    }
    errors
}

/// The length of the longest path.
pub fn longest_path(paths: &[Path]) -> (max_t: usize)
    ensures
        max_t == makespan(plan_of(paths@)),
{
    let mut max_t: usize = 0;
    let mut i: usize = 0;
    while i < paths.len()
        invariant
            i <= paths.len(),
            max_t == longest(plan_of(paths@), i as int),
        decreases paths.len() - i,
    {
        if paths[i].steps.len() > max_t {
            max_t = paths[i].steps.len();
        }
        i += 1;
    }
    max_t
}

/// Where the path's agent is at time `t`, parked on the last cell once the
/// path has ended.
fn position_at(path: &Path, t: usize) -> (at: Coordinate)
    requires
        path.steps.len() > 0,
    ensures
        at == position(path@, t as int),
{
    if t < path.steps.len() {
        path.steps[t]
    } else {
        path.steps[path.steps.len() - 1]
    }
}

/// Validate that no two agents are on the same cell at the same time. An
/// agent whose path has ended stays on its last cell.
pub fn validate_no_vertex_collisions(paths: &[Path]) -> (errors: Vec<ValidationError>)
    ensures
        records(errors@) == vertex_records(plan_of(paths@)),
{
    let mut errors: Vec<ValidationError> = Vec::new();
    let max_t = longest_path(paths);
    let n = paths.len();
    let ghost plan = plan_of(paths@);
    let mut t: usize = 0;
    while t < max_t
        invariant
            t <= max_t,
            n == paths.len(),
            plan == plan_of(paths@),
            records(errors@) == vertex_records_upto(plan, t as int),
        decreases max_t - t,
    {
        let ghost done = records(errors@);
        let mut agent: usize = 0;
        while agent < n
            invariant
                agent <= n,
                n == paths.len(),
                plan == plan_of(paths@),
                t < max_t,
                records(errors@) == done + vertex_records_at(plan, t as int, agent as int),
            decreases n - agent,
        {
            let ghost done_at = records(errors@);
            let mut other: usize = 0;
            while other < agent
                invariant
                    other <= agent,
                    agent < n,
                    n == paths.len(),
                    plan == plan_of(paths@),
                    records(errors@) == done_at + vertex_records_agent(
                        plan,
                        t as int,
                        agent as int,
                        other as int,
                    ),
                decreases agent - other,
            {
                if paths[other].steps.len() > 0 && paths[agent].steps.len() > 0 {
                    let mine = position_at(&paths[agent], t);
                    let theirs = position_at(&paths[other], t);
                    if mine.x == theirs.x && mine.y == theirs.y {
                        push_record(
                            &mut errors,
                            ValidationError {
                                error_type: ValidationErrorType::VertexCollision,
                                agent_index: agent,
                                timestep: Some(t),
                                details: vertex_message(other, agent, &mine, t),
                            },
                        );
                    }
                }
                other += 1;
            }
            agent += 1;
        }
        t += 1;
    }
    errors
}

/// Validate that no two agents trade places between consecutive timesteps.
pub fn validate_no_edge_collisions(paths: &[Path]) -> (errors: Vec<ValidationError>)
    ensures
        records(errors@) == edge_records(plan_of(paths@)),
{
    let mut errors: Vec<ValidationError> = Vec::new();
    let max_t = longest_path(paths);
    let n = paths.len();
    let ghost plan = plan_of(paths@);
    let last: usize = if max_t == 0 {
        0
    } else {
        max_t - 1
    };
    let mut t: usize = 0;
    while t < last
        invariant
            t <= last,
            n == paths.len(),
            plan == plan_of(paths@),
            records(errors@) == edge_records_upto(plan, t as int),
        decreases last - t,
    {
        let ghost done = records(errors@);
        let mut first: usize = 0;
        while first < n
            invariant
                first <= n,
                n == paths.len(),
                plan == plan_of(paths@),
                t < last,
                records(errors@) == done + edge_records_at(plan, t as int, first as int),
            decreases n - first,
        {
            let ghost done_at = records(errors@);
            let mut second: usize = first + 1;
            while second < n
                invariant
                    first < second <= n,
                    n == paths.len(),
                    plan == plan_of(paths@),
                    t < last,
                    records(errors@) == done_at + edge_records_agent(
                        plan,
                        t as int,
                        first as int,
                        second as int,
                    ),
                decreases n - second,
            {
                if paths[first].steps.len() > 0 && paths[second].steps.len() > 0 {
                    let first_now = position_at(&paths[first], t);
                    let first_next = position_at(&paths[first], t + 1);
                    let second_now = position_at(&paths[second], t);
                    let second_next = position_at(&paths[second], t + 1);
                    if first_now.x == second_next.x && first_now.y == second_next.y
                        && second_now.x == first_next.x && second_now.y == first_next.y {
                        push_record(
                            &mut errors,
                            ValidationError {
                                error_type: ValidationErrorType::EdgeCollision,
                                agent_index: first,
                                timestep: Some(t),
                                details: edge_message(first, second, t),
                            },
                        );
                    }
                }
                second += 1;
            }
            first += 1;
        }
        t += 1;
    }
    errors
}

/// Validate that each path begins on its agent's start and ends on its goal.
pub fn validate_starts_and_goals(paths: &[Path], starts: &[Coordinate], goals: &[Coordinate]) -> (errors:
    Vec<ValidationError>)
    requires
        paths@.len() <= starts@.len(),
        paths@.len() <= goals@.len(),
    ensures
        records(errors@) == endpoint_records(
            plan_of(paths@),
            starts@,
            goals@,
            paths@.len() as int,
        ),
{
    let mut errors: Vec<ValidationError> = Vec::new();
    let ghost plan = plan_of(paths@);
    let mut i: usize = 0;
    while i < paths.len()
        invariant
            i <= paths.len(),
            paths@.len() <= starts@.len(),
            paths@.len() <= goals@.len(),
            plan == plan_of(paths@),
            records(errors@) == endpoint_records(plan, starts@, goals@, i as int),
        decreases paths.len() - i,
    {
        let path = &paths[i];
        let ghost before = records(errors@);
        if path.steps.len() > 0 {
            let path_start = &path.steps[0];
            let path_end = &path.steps[path.steps.len() - 1];
            let expected_start = &starts[i];
            let expected_goal = &goals[i];
            if path_start.x != expected_start.x || path_start.y != expected_start.y {
                push_record(
                    &mut errors,
                    ValidationError {
                        error_type: ValidationErrorType::InvalidStart,
                        agent_index: i,
                        timestep: Some(0),
                        details: start_message(i, path_start, expected_start),
                    },
                );
            }
            if path_end.x != expected_goal.x || path_end.y != expected_goal.y {
                push_record(
                    &mut errors,
                    ValidationError {
                        error_type: ValidationErrorType::InvalidGoal,
                        agent_index: i,
                        timestep: Some(path.steps.len() - 1),
                        details: goal_message(i, path_end, expected_goal),
                    },
                );
            }
        }
        assert(records(errors@) =~= before + endpoint_records_of(
            plan[i as int],
            i as nat,
            starts@[i as int],
            goals@[i as int],
        ));
        i += 1;
    }
    errors
}

/// Fully validate a plan against a grid and the agents' starts and goals.
///
/// Reports, in this order: for each agent its empty path or diagonal moves,
/// then its steps outside the grid or on blocked tiles; wrong first and last
/// cells; and, where the plan has more than one path, vertex collisions and
/// edge collisions. The plan is valid exactly when nothing is reported, and
/// that is exactly when it respects the rules of the game. The plan must not
/// hold more paths than there are starts and goals.
pub fn validate_solution(
    solution: &Solution,
    map: &GridMap,
    starts: &[Coordinate],
    goals: &[Coordinate],
) -> (result: ValidationResult)
    requires
        solution.paths@.len() <= starts@.len(),
        solution.paths@.len() <= goals@.len(),
    ensures
        records(result.errors@) == solution_records(
            solution@,
            map.width,
            map.height,
            map.tiles@,
            starts@,
            goals@,
        ),
        result.valid == (result.errors@.len() == 0),
        result.valid <==> respects_rules(
            solution@,
            map.width,
            map.height,
            map.tiles@,
            starts@,
            goals@,
        ),
{
    let mut errors: Vec<ValidationError> = Vec::new();
    let ghost plan = solution@;
    let n = solution.paths.len();
    let mut i: usize = 0;
    while i < n
        invariant
            i <= n,
            n == solution.paths.len(),
            plan == solution@,
            records(errors@) == path_records(
                plan,
                map.width,
                map.height,
                map.tiles@,
                i as int,
            ),
        decreases n - i,
    {
        let path = &solution.paths[i];
        append_records(&mut errors, validate_path_cardinal(path, i));
        append_records(&mut errors, validate_path_on_map(path, i, map));
        i += 1;
    }
    append_records(&mut errors, validate_starts_and_goals(solution.paths.as_slice(), starts, goals));
    if n > 1 {
        append_records(&mut errors, validate_no_vertex_collisions(solution.paths.as_slice()));
        append_records(&mut errors, validate_no_edge_collisions(solution.paths.as_slice()));
    }
    proof {
        lemma_no_errors_iff_rules(plan, map.width, map.height, map.tiles@, starts@, goals@);
        assert(records(errors@).len() == errors@.len());
    }
    ValidationResult { valid: errors.len() == 0, errors }
}

// ---------------------------------------------------------------------------
// What a valid plan is
// ---------------------------------------------------------------------------

/// Every move of the path is a cardinal step or a wait.
pub open spec fn moves_ok(steps: Seq<Coordinate>) -> bool {
    forall|t: int| 0 <= t < steps.len() - 1 ==> cardinal_step(#[trigger] steps[t], steps[t + 1])
}

/// Every step of the path is inside the grid and not on a blocked tile.
pub open spec fn cells_ok(steps: Seq<Coordinate>, width: u32, height: u32, tiles: Seq<u8>) -> bool {
    forall|t: int|
        0 <= t < steps.len() ==> in_bounds(width, height, #[trigger] steps[t]) && !on_blocked_tile(
            width,
            tiles,
            steps[t],
        )
}

/// The path begins on `start` and ends on `goal`.
pub open spec fn endpoints_ok(steps: Seq<Coordinate>, start: Coordinate, goal: Coordinate) -> bool {
    steps[0] == start && steps[steps.len() - 1] == goal
}

/// No two agents share a cell at any timestep of the plan.
pub open spec fn collision_free(plan: Seq<Seq<Coordinate>>) -> bool {
    forall|i: int, j: int, t: int|
        0 <= i < j < plan.len() && 0 <= t < makespan(plan) ==> !#[trigger] vertex_conflict(
            plan[i],
            plan[j],
            t,
        )
}

/// No two agents trade places between consecutive timesteps of the plan.
pub open spec fn swap_free(plan: Seq<Seq<Coordinate>>) -> bool {
    forall|i: int, j: int, t: int|
        0 <= i < j < plan.len() && 0 <= t < makespan(plan) - 1 ==> !#[trigger] edge_conflict(
            plan[i],
            plan[j],
            t,
        )
}

/// The rules of the game: every path is non-empty, moves by cardinal steps
/// or waits, stays on passable cells of the grid, leads from its agent's
/// start to its goal; and, with agents parked on their last cell, no two of
/// them ever share a cell or trade places.
pub open spec fn respects_rules(
    plan: Seq<Seq<Coordinate>>,
    width: u32,
    height: u32,
    tiles: Seq<u8>,
    starts: Seq<Coordinate>,
    goals: Seq<Coordinate>,
) -> bool {
    &&& forall|i: int|
        0 <= i < plan.len() ==> {
            let steps = #[trigger] plan[i];
            &&& steps.len() > 0
            &&& moves_ok(steps)
            &&& cells_ok(steps, width, height, tiles)
            &&& endpoints_ok(steps, starts[i], goals[i])
        }
    &&& collision_free(plan)
    &&& swap_free(plan)
}

proof fn lemma_diagonal_records(steps: Seq<Coordinate>, agent: nat, upto: int)
    requires
        0 <= upto <= steps.len() - 1,
    ensures
        diagonal_records(steps, agent, upto).len() == 0 <==> forall|t: int|
            0 <= t < upto ==> cardinal_step(#[trigger] steps[t], steps[t + 1]),
    decreases upto,
{
    if upto > 0 {
        lemma_diagonal_records(steps, agent, upto - 1);
        if diagonal_records(steps, agent, upto).len() == 0 {
            assert forall|t: int| 0 <= t < upto implies cardinal_step(
                #[trigger] steps[t],
                steps[t + 1],
            ) by {
                if t == upto - 1 {
                }
            }
        }
    }
}

proof fn lemma_map_records(
    steps: Seq<Coordinate>,
    agent: nat,
    width: u32,
    height: u32,
    tiles: Seq<u8>,
    upto: int,
)
    requires
        0 <= upto <= steps.len(),
    ensures
        map_records(steps, agent, width, height, tiles, upto).len() == 0 <==> forall|t: int|
            0 <= t < upto ==> in_bounds(width, height, #[trigger] steps[t]) && !on_blocked_tile(
                width,
                tiles,
                steps[t],
            ),
    decreases upto,
{
    if upto > 0 {
        lemma_map_records(steps, agent, width, height, tiles, upto - 1);
        if map_records(steps, agent, width, height, tiles, upto).len() == 0 {
            assert forall|t: int| 0 <= t < upto implies in_bounds(
                width,
                height,
                #[trigger] steps[t],
            ) && !on_blocked_tile(width, tiles, steps[t]) by {
                if t == upto - 1 {
                }
            }
        }
    }
}

proof fn lemma_path_records(
    plan: Seq<Seq<Coordinate>>,
    width: u32,
    height: u32,
    tiles: Seq<u8>,
    upto: int,
)
    requires
        0 <= upto <= plan.len(),
    ensures
        path_records(plan, width, height, tiles, upto).len() == 0 <==> forall|i: int|
            0 <= i < upto ==> {
                let steps = #[trigger] plan[i];
                steps.len() > 0 && moves_ok(steps) && cells_ok(steps, width, height, tiles)
            },
    decreases upto,
{
    if upto > 0 {
        lemma_path_records(plan, width, height, tiles, upto - 1);
        let steps = plan[upto - 1];
        let agent = (upto - 1) as nat;
        lemma_map_records(steps, agent, width, height, tiles, steps.len() as int);
        if steps.len() > 0 {
            lemma_diagonal_records(steps, agent, steps.len() - 1);
        }
        if path_records(plan, width, height, tiles, upto).len() == 0 {
            assert forall|i: int| 0 <= i < upto implies {
                let steps = #[trigger] plan[i];
                steps.len() > 0 && moves_ok(steps) && cells_ok(steps, width, height, tiles)
            } by {
                if i == upto - 1 {
                }
            }
        }
    }
}

proof fn lemma_endpoint_records(
    plan: Seq<Seq<Coordinate>>,
    starts: Seq<Coordinate>,
    goals: Seq<Coordinate>,
    upto: int,
)
    requires
        0 <= upto <= plan.len(),
    ensures
        endpoint_records(plan, starts, goals, upto).len() == 0 <==> forall|i: int|
            0 <= i < upto ==> {
                let steps = #[trigger] plan[i];
                steps.len() == 0 || endpoints_ok(steps, starts[i], goals[i])
            },
    decreases upto,
{
    if upto > 0 {
        lemma_endpoint_records(plan, starts, goals, upto - 1);
        if endpoint_records(plan, starts, goals, upto).len() == 0 {
            assert forall|i: int| 0 <= i < upto implies {
                let steps = #[trigger] plan[i];
                steps.len() == 0 || endpoints_ok(steps, starts[i], goals[i])
            } by {
                if i == upto - 1 {
                }
            }
        }
    }
}

proof fn lemma_vertex_records_agent(plan: Seq<Seq<Coordinate>>, t: int, agent: int, upto: int)
    requires
        0 <= upto <= agent < plan.len(),
    ensures
        vertex_records_agent(plan, t, agent, upto).len() == 0 <==> forall|i: int|
            0 <= i < upto ==> !#[trigger] vertex_conflict(plan[i], plan[agent], t),
    decreases upto,
{
    if upto > 0 {
        lemma_vertex_records_agent(plan, t, agent, upto - 1);
        if vertex_records_agent(plan, t, agent, upto).len() == 0 {
            assert forall|i: int| 0 <= i < upto implies !#[trigger] vertex_conflict(
                plan[i],
                plan[agent],
                t,
            ) by {
                if i == upto - 1 {
                }
            }
        }
    }
}

proof fn lemma_vertex_records_at(plan: Seq<Seq<Coordinate>>, t: int, upto: int)
    requires
        0 <= upto <= plan.len(),
    ensures
        vertex_records_at(plan, t, upto).len() == 0 <==> forall|i: int, j: int|
            0 <= i < j < upto ==> !#[trigger] vertex_conflict(plan[i], plan[j], t),
    decreases upto,
{
    if upto > 0 {
        lemma_vertex_records_at(plan, t, upto - 1);
        lemma_vertex_records_agent(plan, t, upto - 1, upto - 1);
        if vertex_records_at(plan, t, upto).len() == 0 {
            assert forall|i: int, j: int| 0 <= i < j < upto implies !#[trigger] vertex_conflict(
                plan[i],
                plan[j],
                t,
            ) by {
                if j == upto - 1 {
                }
            }
        }
    }
}

proof fn lemma_vertex_records_upto(plan: Seq<Seq<Coordinate>>, upto: int)
    requires
        0 <= upto,
    ensures
        vertex_records_upto(plan, upto).len() == 0 <==> forall|i: int, j: int, t: int|
            0 <= i < j < plan.len() && 0 <= t < upto ==> !#[trigger] vertex_conflict(
                plan[i],
                plan[j],
                t,
            ),
    decreases upto,
{
    if upto > 0 {
        lemma_vertex_records_upto(plan, upto - 1);
        lemma_vertex_records_at(plan, upto - 1, plan.len() as int);
        if vertex_records_upto(plan, upto).len() == 0 {
            assert forall|i: int, j: int, t: int|
                0 <= i < j < plan.len() && 0 <= t < upto implies !#[trigger] vertex_conflict(
                plan[i],
                plan[j],
                t,
            ) by {
                if t == upto - 1 {
                }
            }
        }
    }
}

proof fn lemma_edge_records_agent(plan: Seq<Seq<Coordinate>>, t: int, agent: int, upto: int)
    requires
        0 <= agent < upto <= plan.len(),
    ensures
        edge_records_agent(plan, t, agent, upto).len() == 0 <==> forall|j: int|
            agent < j < upto ==> !#[trigger] edge_conflict(plan[agent], plan[j], t),
    decreases upto,
{
    if upto > agent + 1 {
        lemma_edge_records_agent(plan, t, agent, upto - 1);
        if edge_records_agent(plan, t, agent, upto).len() == 0 {
            assert forall|j: int| agent < j < upto implies !#[trigger] edge_conflict(
                plan[agent],
                plan[j],
                t,
            ) by {
                if j == upto - 1 {
                }
            }
        }
    }
}

proof fn lemma_edge_records_at(plan: Seq<Seq<Coordinate>>, t: int, upto: int)
    requires
        0 <= upto <= plan.len(),
    ensures
        edge_records_at(plan, t, upto).len() == 0 <==> forall|i: int, j: int|
            0 <= i < upto && i < j < plan.len() ==> !#[trigger] edge_conflict(
                plan[i],
                plan[j],
                t,
            ),
    decreases upto,
{
    if upto > 0 {
        lemma_edge_records_at(plan, t, upto - 1);
        lemma_edge_records_agent(plan, t, upto - 1, plan.len() as int);
        if edge_records_at(plan, t, upto).len() == 0 {
            assert forall|i: int, j: int|
                0 <= i < upto && i < j < plan.len() implies !#[trigger] edge_conflict(
                plan[i],
                plan[j],
                t,
            ) by {
                if i == upto - 1 {
                }
            }
        }
    }
}

proof fn lemma_edge_records_upto(plan: Seq<Seq<Coordinate>>, upto: int)
    ensures
        edge_records_upto(plan, upto).len() == 0 <==> forall|i: int, j: int, t: int|
            0 <= i < j < plan.len() && 0 <= t < upto ==> !#[trigger] edge_conflict(
                plan[i],
                plan[j],
                t,
            ),
    decreases upto,
{
    if upto > 0 {
        lemma_edge_records_upto(plan, upto - 1);
        lemma_edge_records_at(plan, upto - 1, plan.len() as int);
        if edge_records_upto(plan, upto).len() == 0 {
            assert forall|i: int, j: int, t: int|
                0 <= i < j < plan.len() && 0 <= t < upto implies !#[trigger] edge_conflict(
                plan[i],
                plan[j],
                t,
            ) by {
                if t == upto - 1 {
                }
            }
        }
    }
}

/// A plan is reported free of errors exactly when it respects the rules of
/// the game.
pub proof fn lemma_no_errors_iff_rules(
    plan: Seq<Seq<Coordinate>>,
    width: u32,
    height: u32,
    tiles: Seq<u8>,
    starts: Seq<Coordinate>,
    goals: Seq<Coordinate>,
)
    ensures
        solution_records(plan, width, height, tiles, starts, goals).len() == 0 <==> respects_rules(
            plan,
            width,
            height,
            tiles,
            starts,
            goals,
        ),
{
    let n = plan.len() as int;
    lemma_path_records(plan, width, height, tiles, n);
    lemma_endpoint_records(plan, starts, goals, n);
    lemma_vertex_records_upto(plan, makespan(plan) as int);
    lemma_edge_records_upto(plan, makespan(plan) - 1);
    if solution_records(plan, width, height, tiles, starts, goals).len() == 0 {
        assert forall|i: int| 0 <= i < plan.len() implies {
            let steps = #[trigger] plan[i];
            &&& steps.len() > 0
            &&& moves_ok(steps)
            &&& cells_ok(steps, width, height, tiles)
            &&& endpoints_ok(steps, starts[i], goals[i])
        } by {}
    }
    if respects_rules(plan, width, height, tiles, starts, goals) {
        assert forall|i: int| 0 <= i < n implies {
            let steps = #[trigger] plan[i];
            steps.len() > 0 && moves_ok(steps) && cells_ok(steps, width, height, tiles)
        } by {}
        assert forall|i: int| 0 <= i < n implies {
            let steps = #[trigger] plan[i];
            steps.len() == 0 || endpoints_ok(steps, starts[i], goals[i])
        } by {}
    }
}

/// What `validate_solution` promises of its result for the given inputs.
pub open spec fn validates_to(
    result: ValidationResult,
    plan: Seq<Seq<Coordinate>>,
    width: u32,
    height: u32,
    tiles: Seq<u8>,
    starts: Seq<Coordinate>,
    goals: Seq<Coordinate>,
) -> bool {
    &&& records(result.errors@) == solution_records(plan, width, height, tiles, starts, goals)
    &&& result.valid == (result.errors@.len() == 0)
}

/// Validation is a function of its inputs: two results for the same plan,
/// grid, starts and goals agree on the verdict and on every reported error.
pub proof fn lemma_validation_is_deterministic(
    first: ValidationResult,
    second: ValidationResult,
    plan: Seq<Seq<Coordinate>>,
    width: u32,
    height: u32,
    tiles: Seq<u8>,
    starts: Seq<Coordinate>,
    goals: Seq<Coordinate>,
)
    requires
        validates_to(first, plan, width, height, tiles, starts, goals),
        validates_to(second, plan, width, height, tiles, starts, goals),
    ensures
        first.valid == second.valid,
        records(first.errors@) == records(second.errors@),
{
    assert(records(first.errors@).len() == first.errors@.len());
    assert(records(second.errors@).len() == second.errors@.len());
}

/// The verdict of `validate_solution` is `valid` exactly when the plan
/// respects the rules of the game.
pub proof fn lemma_valid_iff_rules(
    result: ValidationResult,
    plan: Seq<Seq<Coordinate>>,
    width: u32,
    height: u32,
    tiles: Seq<u8>,
    starts: Seq<Coordinate>,
    goals: Seq<Coordinate>,
)
    requires
        validates_to(result, plan, width, height, tiles, starts, goals),
    ensures
        result.valid <==> respects_rules(plan, width, height, tiles, starts, goals),
{
    lemma_no_errors_iff_rules(plan, width, height, tiles, starts, goals);
    assert(records(result.errors@).len() == result.errors@.len());
}

} // verus!
