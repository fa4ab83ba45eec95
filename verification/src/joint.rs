//! The reference solver: A* search over the joint states of all agents.
//!
//! A joint state holds one position per agent and a timestep. Each
//! transition moves every agent by one cardinal step or lets it wait, and
//! costs 1. States are ordered by cost so far plus the sum of the agents'
//! Manhattan distances to their goals.

use vstd::prelude::*;
use vstd::seq_lib::seq_to_set_is_finite;
use vstd::set_lib::{lemma_int_range, lemma_set_subset_finite, set_int_range};
use crate::finite::{lemma_fewer_left, lemma_pairs_finite, lemma_seqs_over_finite, pairs, seqs_over};
use crate::astar::{
    cells_of, heuristic, lemma_manhattan_along, lemma_open_neighbors, lemma_reaches_neighbor,
    manhattan, neighbors_of,
    open_at, open_neighbors, plan_of, step_ok, tile_open, Coordinate, Grid, Path,
};

verus! {

/// An agent's task as callers give it: its start, then its goal, each as
/// `(x, y)`.
pub type Task = ((u32, u32), (u32, u32));

pub open spec fn start_of(task: Task) -> Coordinate {
    Coordinate { x: task.0.0, y: task.0.1 }
}

pub open spec fn goal_of(task: Task) -> Coordinate {
    Coordinate { x: task.1.0, y: task.1.1 }
}

pub open spec fn starts_of(agents: Seq<Task>) -> Seq<Coordinate> {
    Seq::new(agents.len(), |i: int| start_of(agents[i]))
}

pub open spec fn goals_of(agents: Seq<Task>) -> Seq<Coordinate> {
    Seq::new(agents.len(), |i: int| goal_of(agents[i]))
}

/// The step sequences of a list of raw paths.
pub open spec fn rows(v: Seq<Vec<Coordinate>>) -> Seq<Seq<Coordinate>> {
    Seq::new(v.len(), |i: int| v[i]@)
}

// ---------------------------------------------------------------------------
// What a joint plan has to satisfy
// ---------------------------------------------------------------------------

/// Two agents trade places between `t` and `t + 1`.
pub open spec fn swaps(a: Seq<Coordinate>, b: Seq<Coordinate>, t: int) -> bool {
    a[t] == b[t + 1] && b[t] == a[t + 1]
}

/// The agents of a joint position stand on pairwise different cells.
pub open spec fn all_apart(positions: Seq<Coordinate>) -> bool {
    forall|i: int, j: int|
        0 <= i < j < positions.len() ==> #[trigger] positions[i] != #[trigger] positions[j]
}

/// No two agents trade places between two joint positions.
pub open spec fn no_swap(now: Seq<Coordinate>, next: Seq<Coordinate>) -> bool {
    forall|i: int, j: int|
        0 <= i < j < now.len() ==> !(#[trigger] now[i] == #[trigger] next[j] && now[j] == next[i])
}

/// A joint plan of `len` timesteps that the search may hold: one path per
/// agent, each of `len` steps and beginning on the agent's start; every cell
/// is open; every move is a cardinal step or a wait; no two agents ever
/// share a cell; and no two agents ever trade places.
pub open spec fn joint_plan_ok(
    plan: Seq<Seq<Coordinate>>,
    tiles: Seq<u8>,
    width: u32,
    height: u32,
    strict: bool,
    starts: Seq<Coordinate>,
    len: int,
) -> bool {
    &&& plan.len() == starts.len()
    &&& len >= 1
    &&& forall|i: int|
        0 <= i < plan.len() ==> (#[trigger] plan[i]).len() == len && plan[i][0] == starts[i]
    &&& forall|i: int, t: int|
        0 <= i < plan.len() && 0 <= t < len ==> open_at(
            tiles,
            width,
            height,
            strict,
            #[trigger] plan[i][t],
        )
    &&& forall|i: int, t: int|
        0 <= i < plan.len() && 0 <= t < len - 1 ==> step_ok(#[trigger] plan[i][t], plan[i][t + 1])
    &&& forall|i: int, j: int, t: int|
        0 <= i < j < plan.len() && 0 <= t < len ==> #[trigger] plan[i][t] != #[trigger] plan[j][t]
    &&& forall|i: int, j: int, t: int|
        0 <= i < j < plan.len() && 0 <= t < len - 1 ==> !#[trigger] swaps(plan[i], plan[j], t)
}

/// The number of timesteps of a joint plan; 1 for the plan of no agent.
pub open spec fn plan_len(plan: Seq<Seq<Coordinate>>) -> int {
    if plan.len() > 0 {
        plan[0].len() as int
    } else {
        1
    }
}

/// A joint plan that the search may return: it may be held, and every path
/// ends on its agent's goal.
pub open spec fn solves(
    plan: Seq<Seq<Coordinate>>,
    tiles: Seq<u8>,
    width: u32,
    height: u32,
    strict: bool,
    starts: Seq<Coordinate>,
    goals: Seq<Coordinate>,
) -> bool {
    &&& joint_plan_ok(plan, tiles, width, height, strict, starts, plan_len(plan))
    &&& forall|i: int| 0 <= i < plan.len() ==> (#[trigger] plan[i])[plan_len(plan) - 1] == goals[i]
}

// ---------------------------------------------------------------------------
// Small helpers
// ---------------------------------------------------------------------------

pub(crate) fn copy_cells(v: &Vec<Coordinate>) -> (out: Vec<Coordinate>)
    ensures
        out@ == v@,
{
    let mut out: Vec<Coordinate> = Vec::new();
    let mut i: usize = 0;
    while i < v.len()
        invariant
            i <= v.len(),
            out@ == v@.take(i as int),
        decreases v.len() - i,
    {
        out.push(v[i]);
        i += 1;
        assert(v@.take(i as int) =~= v@.take(i - 1).push(v@[i - 1]));
    }
    assert(v@.take(v@.len() as int) =~= v@);
    out
}

pub(crate) fn same_cells(a: &Vec<Coordinate>, b: &Vec<Coordinate>) -> (same: bool)
    ensures
        same == (a@ == b@),
{
    if a.len() != b.len() {
        return false;
    }
    let mut i: usize = 0;
    while i < a.len()
        invariant
            i <= a.len(),
            a.len() == b.len(),
            forall|k: int| 0 <= k < i ==> a@[k] == b@[k],
        decreases a.len() - i,
    {
        if a[i].x != b[i].x || a[i].y != b[i].y {
            return false;
        }
        i += 1;
    }
    assert(a@ =~= b@);
    true
}

fn apart(positions: &Vec<Coordinate>) -> (ok: bool)
    ensures
        ok == all_apart(positions@),
{
    let n = positions.len();
    let mut j: usize = 0;
    while j < n
        invariant
            j <= n,
            n == positions.len(),
            forall|a: int, b: int|
                0 <= a < b < j ==> #[trigger] positions@[a] != #[trigger] positions@[b],
        decreases n - j,
    {
        let mut i: usize = 0;
        while i < j
            invariant
                i <= j < n,
                n == positions.len(),
                forall|a: int| 0 <= a < i ==> #[trigger] positions@[a] != positions@[j as int],
            decreases j - i,
        {
            if positions[i].x == positions[j].x && positions[i].y == positions[j].y {
                return false;
            }
            i += 1;
        }
        j += 1;
    }
    true
}

fn swap_free(now: &Vec<Coordinate>, next: &Vec<Coordinate>) -> (ok: bool)
    requires
        now.len() == next.len(),
    ensures
        ok == no_swap(now@, next@),
{
    let n = now.len();
    let mut i: usize = 0;
    while i < n
        invariant
            i <= n,
            n == now.len(),
            n == next.len(),
            forall|a: int, b: int|
                0 <= a < i && a < b < n ==> !(#[trigger] now@[a] == #[trigger] next@[b] && now@[b]
                    == next@[a]),
        decreases n - i,
    {
        let mut j: usize = i + 1;
        while j < n
            invariant
                i < j <= n,
                n == now.len(),
                n == next.len(),
                forall|b: int|
                    i < b < j ==> !(now@[i as int] == #[trigger] next@[b] && now@[b]
                        == next@[i as int]),
            decreases n - j,
        {
            if now[i].x == next[j].x && now[i].y == next[j].y && now[j].x == next[i].x && now[j].y
                == next[i].y {
                return false;
            }
            j += 1;
        }
        i += 1;
    }
    true
}

// ---------------------------------------------------------------------------
// What the agents can do next
// ---------------------------------------------------------------------------

/// What an agent on `c` can do next: step to an open neighbour, or wait.
pub open spec fn options(tiles: Seq<u8>, width: u32, height: u32, strict: bool, c: Coordinate) -> Seq<
    Coordinate,
> {
    open_neighbors(tiles, width, height, strict, c, 4).push(c)
}

/// The options of every agent of a joint position.
pub open spec fn all_options(
    tiles: Seq<u8>,
    width: u32,
    height: u32,
    strict: bool,
    positions: Seq<Coordinate>,
) -> Seq<Seq<Coordinate>> {
    Seq::new(positions.len(), |i: int| options(tiles, width, height, strict, positions[i]))
}

/// Every option of an agent is a cardinal step or a wait, and leads to an
/// open cell unless it is the wait.
pub proof fn lemma_options(tiles: Seq<u8>, width: u32, height: u32, strict: bool, c: Coordinate)
    ensures
        forall|k: int|
            0 <= k < options(tiles, width, height, strict, c).len() ==> {
                let to = #[trigger] options(tiles, width, height, strict, c)[k];
                step_ok(c, to) && (to == c || open_at(tiles, width, height, strict, to))
            },
{
    lemma_open_neighbors(tiles, width, height, strict, c, 4);
    let near = open_neighbors(tiles, width, height, strict, c, 4);
    assert forall|k: int| 0 <= k < options(tiles, width, height, strict, c).len() implies {
        let to = #[trigger] options(tiles, width, height, strict, c)[k];
        step_ok(c, to) && (to == c || open_at(tiles, width, height, strict, to))
    } by {
        if k < near.len() {
            assert(options(tiles, width, height, strict, c)[k] == near[k]);
        }
    }
}

fn options_of(tiles: &[u8], width: u32, height: u32, strict: bool, c: Coordinate) -> (out: Vec<
    Coordinate,
>)
    ensures
        out@ == options(tiles@, width, height, strict, c),
{
    let near = neighbors_of(tiles, width, height, strict, c);
    let mut out: Vec<Coordinate> = Vec::new();
    let mut k: usize = 0;
    while k < near.len()
        invariant
            k <= near.len(),
            out@ == cells_of(near@).take(k as int),
        decreases near.len() - k,
    {
        out.push(near[k].0);
        k += 1;
        assert(cells_of(near@).take(k as int) =~= cells_of(near@).take(k - 1).push(near@[k - 1].0));
    }
    assert(cells_of(near@).take(near@.len() as int) =~= cells_of(near@));
    out.push(c);
    out
}

fn options_per_agent(
    tiles: &[u8],
    width: u32,
    height: u32,
    strict: bool,
    positions: &Vec<Coordinate>,
) -> (out: Vec<Vec<Coordinate>>)
    ensures
        rows(out@) == all_options(tiles@, width, height, strict, positions@),
{
    let mut out: Vec<Vec<Coordinate>> = Vec::new();
    let mut i: usize = 0;
    while i < positions.len()
        invariant
            i <= positions.len(),
            out@.len() == i,
            forall|k: int|
                0 <= k < i ==> (#[trigger] out@[k])@ == options(
                    tiles@,
                    width,
                    height,
                    strict,
                    positions@[k],
                ),
        decreases positions.len() - i,
    {
        out.push(options_of(tiles, width, height, strict, positions[i]));
        i += 1;
    }
    assert(rows(out@) =~= all_options(tiles@, width, height, strict, positions@));
    out
}

/// The joint moves that complete `prefix`: one option for each further agent,
/// the last agent's option changing fastest.
pub open spec fn product_from(moves: Seq<Seq<Coordinate>>, prefix: Seq<Coordinate>) -> Seq<
    Seq<Coordinate>,
>
    decreases moves.len() - prefix.len(), 1int, 0int,
{
    if prefix.len() >= moves.len() {
        seq![prefix]
    } else {
        product_choices(moves, prefix, moves[prefix.len() as int].len() as int)
    }
}

/// The joint moves that complete `prefix` with one of the first `upto`
/// options of the next agent.
pub open spec fn product_choices(
    moves: Seq<Seq<Coordinate>>,
    prefix: Seq<Coordinate>,
    upto: int,
) -> Seq<Seq<Coordinate>>
    decreases moves.len() - prefix.len(), 0int, upto,
{
    if upto <= 0 || prefix.len() >= moves.len() {
        Seq::empty()
    } else {
        product_choices(moves, prefix, upto - 1) + product_from(
            moves,
            prefix.push(moves[prefix.len() as int][upto - 1]),
        )
    }
}

/// Every joint move: one option per agent.
pub open spec fn product(moves: Seq<Seq<Coordinate>>) -> Seq<Seq<Coordinate>> {
    product_from(moves, Seq::empty())
}

/// A joint move takes for each agent one of the agent's options.
pub open spec fn picks_from(moves: Seq<Seq<Coordinate>>, joint: Seq<Coordinate>) -> bool {
    joint.len() == moves.len() && forall|i: int|
        0 <= i < moves.len() ==> (#[trigger] moves[i]).contains(joint[i])
}

proof fn lemma_product_from(moves: Seq<Seq<Coordinate>>, prefix: Seq<Coordinate>, k: int)
    requires
        prefix.len() <= moves.len(),
        0 <= k < product_from(moves, prefix).len(),
    ensures
        ({
            let joint = product_from(moves, prefix)[k];
            &&& joint.len() == moves.len()
            &&& forall|i: int| 0 <= i < prefix.len() ==> joint[i] == prefix[i]
            &&& forall|i: int|
                prefix.len() <= i < moves.len() ==> (#[trigger] moves[i]).contains(joint[i])
        }),
    decreases moves.len() - prefix.len(), 1int, 0int,
{
    if prefix.len() < moves.len() {
        lemma_product_choices(moves, prefix, moves[prefix.len() as int].len() as int, k);
    }
}

proof fn lemma_product_choices(
    moves: Seq<Seq<Coordinate>>,
    prefix: Seq<Coordinate>,
    upto: int,
    k: int,
)
    requires
        prefix.len() < moves.len(),
        0 <= upto <= moves[prefix.len() as int].len(),
        0 <= k < product_choices(moves, prefix, upto).len(),
    ensures
        ({
            let joint = product_choices(moves, prefix, upto)[k];
            &&& joint.len() == moves.len()
            &&& forall|i: int| 0 <= i < prefix.len() ==> joint[i] == prefix[i]
            &&& forall|i: int|
                prefix.len() <= i < moves.len() ==> (#[trigger] moves[i]).contains(joint[i])
        }),
    decreases moves.len() - prefix.len(), 0int, upto,
{
    let before = product_choices(moves, prefix, upto - 1);
    if k < before.len() {
        lemma_product_choices(moves, prefix, upto - 1, k);
    } else {
        let at = prefix.len() as int;
        let longer = prefix.push(moves[at][upto - 1]);
        lemma_product_from(moves, longer, k - before.len());
        let joint = product_from(moves, longer)[k - before.len()];
        assert(joint == product_choices(moves, prefix, upto)[k]);
        assert(joint[at] == longer[at]);
        assert forall|i: int| 0 <= i < prefix.len() implies joint[i] == prefix[i] by {
            assert(joint[i] == longer[i]);
        }
    }
}

/// Every joint move of the product takes one option per agent.
pub proof fn lemma_product_picks(moves: Seq<Seq<Coordinate>>, k: int)
    requires
        0 <= k < product(moves).len(),
    ensures
        picks_from(moves, product(moves)[k]),
{
    lemma_product_from(moves, Seq::empty(), k);
}

proof fn lemma_product_from_complete(
    moves: Seq<Seq<Coordinate>>,
    prefix: Seq<Coordinate>,
    joint: Seq<Coordinate>,
)
    requires
        prefix.len() <= moves.len(),
        picks_from(moves, joint),
        forall|i: int| 0 <= i < prefix.len() ==> joint[i] == prefix[i],
    ensures
        product_from(moves, prefix).contains(joint),
    decreases moves.len() - prefix.len(), 1int, 0int,
{
    if prefix.len() >= moves.len() {
        assert(joint =~= prefix);
        assert(product_from(moves, prefix)[0] == joint);
    } else {
        let at = prefix.len() as int;
        assert(moves[at].contains(joint[at]));
        let k = choose|k: int| 0 <= k < moves[at].len() && moves[at][k] == joint[at];
        lemma_product_choices_complete(moves, prefix, moves[at].len() as int, k, joint);
    }
}

proof fn lemma_product_choices_complete(
    moves: Seq<Seq<Coordinate>>,
    prefix: Seq<Coordinate>,
    upto: int,
    k: int,
    joint: Seq<Coordinate>,
)
    requires
        prefix.len() < moves.len(),
        0 <= k < upto <= moves[prefix.len() as int].len(),
        moves[prefix.len() as int][k] == joint[prefix.len() as int],
        picks_from(moves, joint),
        forall|i: int| 0 <= i < prefix.len() ==> joint[i] == prefix[i],
    ensures
        product_choices(moves, prefix, upto).contains(joint),
    decreases moves.len() - prefix.len(), 0int, upto,
{
    let at = prefix.len() as int;
    let before = product_choices(moves, prefix, upto - 1);
    let longer = prefix.push(moves[at][upto - 1]);
    let last = product_from(moves, longer);
    let all = product_choices(moves, prefix, upto);
    assert(all == before + last);
    if k == upto - 1 {
        lemma_product_from_complete(moves, longer, joint);
        let found = choose|found: int| 0 <= found < last.len() && last[found] == joint;
        assert(all[before.len() + found] == joint);
    } else {
        lemma_product_choices_complete(moves, prefix, upto - 1, k, joint);
        let found = choose|found: int| 0 <= found < before.len() && before[found] == joint;
        assert(all[found] == joint);
    }
}

/// Every joint move that takes one option per agent is in the product.
pub proof fn lemma_product_complete(moves: Seq<Seq<Coordinate>>, joint: Seq<Coordinate>)
    requires
        picks_from(moves, joint),
    ensures
        product(moves).contains(joint),
{
    lemma_product_from_complete(moves, Seq::empty(), joint);
}

fn backtrack(moves: &Vec<Vec<Coordinate>>, current: &mut Vec<Coordinate>, out: &mut Vec<Vec<Coordinate>>)
    requires
        old(current)@.len() <= moves@.len(),
    ensures
        final(current)@ == old(current)@,
        rows(final(out)@) == rows(old(out)@) + product_from(rows(moves@), old(current)@),
    decreases moves@.len() - old(current)@.len(),
{
    if current.len() >= moves.len() {
        let done = copy_cells(current);
        let ghost before = out@;
        out.push(done);
        assert(rows(out@) =~= rows(before) + seq![current@]);
        return ;
    }
    let idx: usize = current.len();
    let ghost prefix = current@;
    let ghost start = rows(out@);
    let mut k: usize = 0;
    while k < moves[idx].len()
        invariant
            k <= moves@[idx as int]@.len(),
            idx == prefix.len(),
            idx < moves@.len(),
            current@ == prefix,
            prefix == old(current)@,
            rows(out@) == start + product_choices(rows(moves@), prefix, k as int),
        decreases moves@[idx as int]@.len() - k,
    {
        current.push(moves[idx][k]);
        backtrack(moves, current, out);
        current.pop();
        assert(current@ =~= prefix);
        k += 1;
    }
}

/// Generates all joint moves: the cartesian product of the agents' options.
fn joint_moves(moves: &Vec<Vec<Coordinate>>) -> (out: Vec<Vec<Coordinate>>)
    ensures
        rows(out@) == product(rows(moves@)),
{
    let mut out: Vec<Vec<Coordinate>> = Vec::new();
    let mut current: Vec<Coordinate> = Vec::new();
    backtrack(moves, &mut current, &mut out);
    assert(rows(out@) =~= product(rows(moves@)));
    out
}

// ---------------------------------------------------------------------------
// States
// ---------------------------------------------------------------------------

/// Global state for centralized MAPF A*: where the agents are, how each got
/// there, and at what cost and time.
struct GlobalState {
    positions: Vec<Coordinate>,
    paths: Vec<Vec<Coordinate>>,
    cost: u32,
    timestep: u32,
}

/// What marks a joint state as visited: its positions and its timestep.
struct VisitKey {
    positions: Vec<Coordinate>,
    timestep: u32,
}

/// The sum of the first `upto` agents' Manhattan distances to their goals.
pub open spec fn distance_sum(positions: Seq<Coordinate>, goals: Seq<Coordinate>, upto: int) -> nat
    decreases upto,
{
    if upto <= 0 {
        0
    } else {
        distance_sum(positions, goals, upto - 1) + manhattan(positions[upto - 1], goals[upto - 1])
    }
}

spec fn state_ok(
    s: GlobalState,
    tiles: Seq<u8>,
    width: u32,
    height: u32,
    strict: bool,
    starts: Seq<Coordinate>,
) -> bool {
    &&& joint_plan_ok(rows(s.paths@), tiles, width, height, strict, starts, s.timestep + 1)
    &&& s.positions@.len() == starts.len()
    &&& forall|i: int|
        0 <= i < starts.len() ==> #[trigger] s.positions@[i] == rows(s.paths@)[i][s.timestep as int]
    &&& s.cost == s.timestep
}

/// The priority of a state: cost so far plus estimated cost to go.
spec fn priority(s: GlobalState, goals: Seq<Coordinate>) -> nat {
    s.cost as nat + distance_sum(s.positions@, goals, goals.len() as int)
}

spec fn key_of(k: VisitKey) -> (Seq<Coordinate>, int) {
    (k.positions@, k.timestep as int)
}

spec fn key_set(visited: Seq<VisitKey>) -> Set<(Seq<Coordinate>, int)> {
    Set::new(
        |key: (Seq<Coordinate>, int)|
            exists|i: int| 0 <= i < visited.len() && key_of(#[trigger] visited[i]) == key,
    )
}

impl GlobalState {
    /// Heuristic: sum of Manhattan distances to goals
    fn heuristic(&self, goals: &Vec<Coordinate>) -> (h: u128)
        requires
            self.positions@.len() == goals@.len(),
        ensures
            h == distance_sum(self.positions@, goals@, goals@.len() as int),
            h <= goals@.len() * 0x2_0000_0000,
    {
        let mut h: u128 = 0;
        let mut i: usize = 0;
        while i < goals.len()
            invariant
                i <= goals.len(),
                self.positions@.len() == goals@.len(),
                h == distance_sum(self.positions@, goals@, i as int),
                h <= i * 0x2_0000_0000,
            decreases goals.len() - i,
        {
            h = h + heuristic(self.positions[i], goals[i]) as u128;
            i += 1;
        }
        h
    }

    /// Total estimated cost (g + h)
    fn f_cost(&self, goals: &Vec<Coordinate>) -> (f: u128)
        requires
            self.positions@.len() == goals@.len(),
        ensures
            f == priority(*self, goals@),
    {
        let h = self.heuristic(goals);
        let n = goals.len();
        assert(goals@.len() <= 0xffff_ffff_ffff_ffff);
        assert(h <= 0xffff_ffff_ffff_ffff * 0x2_0000_0000) by (nonlinear_arith)
            requires
                h <= goals@.len() * 0x2_0000_0000,
                goals@.len() <= 0xffff_ffff_ffff_ffff,
        ;
        self.cost as u128 + h
    }
}

/// The state to expand next: the first among those of least priority.
fn pick_best(open: &Vec<GlobalState>, goals: &Vec<Coordinate>) -> (best: usize)
    requires
        open@.len() > 0,
        forall|k: int|
            0 <= k < open@.len() ==> (#[trigger] open@[k]).positions@.len() == goals@.len() && open@[k].cost
                == open@[k].timestep,
    ensures
        best < open@.len(),
        best == first_best(held_all(open@), goals@, open@.len() as int),
        forall|k: int|
            0 <= k < open@.len() ==> priority(open@[best as int], goals@) <= priority(
                #[trigger] open@[k],
                goals@,
            ),
{
    let mut best: usize = 0;
    let mut least: u128 = open[0].f_cost(goals);
    let mut k: usize = 1;
    while k < open.len()
        invariant
            1 <= k <= open@.len(),
            best < k,
            least == priority(open@[best as int], goals@),
            best == first_best(held_all(open@), goals@, k as int),
            forall|j: int|
                0 <= j < open@.len() ==> (#[trigger] open@[j]).positions@.len() == goals@.len()
                    && open@[j].cost == open@[j].timestep,
            forall|j: int| 0 <= j < k ==> least <= priority(#[trigger] open@[j], goals@),
        decreases open@.len() - k,
    {
        let f = open[k].f_cost(goals);
        assert(rank(held_all(open@)[k as int], goals@) == priority(open@[k as int], goals@));
        assert(rank(held_all(open@)[best as int], goals@) == priority(open@[best as int], goals@));
        if f < least {
            least = f;
            best = k;
        }
        k += 1;
    }
    best
}

fn was_visited(visited: &Vec<VisitKey>, positions: &Vec<Coordinate>, timestep: u32) -> (found: bool)
    ensures
        found == key_set(visited@).contains((positions@, timestep as int)),
{
    let mut i: usize = 0;
    while i < visited.len()
        invariant
            i <= visited.len(),
            forall|k: int| 0 <= k < i ==> key_of(#[trigger] visited@[k]) != (positions@, timestep as int),
        decreases visited.len() - i,
    {
        if visited[i].timestep == timestep && same_cells(&visited[i].positions, positions) {
            assert(key_of(visited@[i as int]) == (positions@, timestep as int));
            return true;
        }
        i += 1;
    }
    false
}

fn extend_paths(paths: &Vec<Vec<Coordinate>>, next: &Vec<Coordinate>) -> (out: Vec<Vec<Coordinate>>)
    requires
        paths@.len() == next@.len(),
    ensures
        out@.len() == paths@.len(),
        forall|i: int| 0 <= i < paths@.len() ==> (#[trigger] out@[i])@ == paths@[i]@.push(next@[i]),
{
    let mut out: Vec<Vec<Coordinate>> = Vec::new();
    let mut i: usize = 0;
    while i < paths.len()
        invariant
            i <= paths@.len(),
            paths@.len() == next@.len(),
            out@.len() == i,
            forall|k: int| 0 <= k < i ==> (#[trigger] out@[k])@ == paths@[k]@.push(next@[k]),
        decreases paths@.len() - i,
    {
        let mut path = copy_cells(&paths[i]);
        path.push(next[i]);
        out.push(path);
        i += 1;
    }
    out
}

pub(crate) fn into_paths(paths: Vec<Vec<Coordinate>>) -> (out: Vec<Path>)
    ensures
        plan_of(out@) == rows(paths@),
{
    let mut out: Vec<Path> = Vec::new();
    let mut i: usize = 0;
    while i < paths.len()
        invariant
            i <= paths@.len(),
            out@.len() == i,
            forall|k: int| 0 <= k < i ==> (#[trigger] out@[k])@ == paths@[k]@,
        decreases paths@.len() - i,
    {
        out.push(Path { steps: copy_cells(&paths[i]) });
        i += 1;
    }
    assert(plan_of(out@) =~= rows(paths@));
    out
}

// ---------------------------------------------------------------------------
// The bound of the search
// ---------------------------------------------------------------------------

/// The cells an agent can ever stand on: those of the grid, and the starts.
pub open spec fn cell_alphabet(width: u32, height: u32, starts: Seq<Coordinate>) -> Set<Coordinate> {
    Set::new(|c: Coordinate| (c.x < width && c.y < height) || starts.contains(c))
}

/// Every key the search can ever mark as visited.
pub open spec fn universe(width: u32, height: u32, starts: Seq<Coordinate>) -> Set<(Seq<Coordinate>, int)> {
    pairs(seqs_over(cell_alphabet(width, height, starts), starts.len()), set_int_range(0, 0x1_0000_0000))
}

pub proof fn lemma_universe_finite(width: u32, height: u32, starts: Seq<Coordinate>)
    ensures
        universe(width, height, starts).finite(),
{
    let columns = set_int_range(0, width as int);
    let lines = set_int_range(0, height as int);
    lemma_int_range(0, width as int);
    lemma_int_range(0, height as int);
    lemma_pairs_finite(columns, lines);
    let cell = |p: (int, int)| Coordinate { x: p.0 as u32, y: p.1 as u32 };
    let in_grid = pairs(columns, lines).map(cell);
    pairs(columns, lines).lemma_map_finite(cell);
    seq_to_set_is_finite(starts);
    let both = in_grid.union(starts.to_set());
    let alphabet = cell_alphabet(width, height, starts);
    assert forall|c: Coordinate| alphabet.contains(c) implies both.contains(c) by {
        if c.x < width && c.y < height {
            let p = (c.x as int, c.y as int);
            assert(pairs(columns, lines).contains(p));
            assert(cell(p) == c);
        }
    }
    assert(alphabet.subset_of(both));
    lemma_set_subset_finite(both, alphabet);
    lemma_seqs_over_finite(alphabet, starts.len());
    lemma_int_range(0, 0x1_0000_0000);
    lemma_pairs_finite(seqs_over(alphabet, starts.len()), set_int_range(0, 0x1_0000_0000));
}

/// A joint plan stays a joint plan when every agent takes one of its
/// options, the agents end up apart, and no two of them trade places.
proof fn lemma_extended_plan_ok(
    plan: Seq<Seq<Coordinate>>,
    now: Seq<Coordinate>,
    next: Seq<Coordinate>,
    longer: Seq<Seq<Coordinate>>,
    tiles: Seq<u8>,
    width: u32,
    height: u32,
    strict: bool,
    starts: Seq<Coordinate>,
    len: int,
)
    requires
        joint_plan_ok(plan, tiles, width, height, strict, starts, len),
        now.len() == plan.len(),
        forall|i: int| 0 <= i < plan.len() ==> #[trigger] now[i] == plan[i][len - 1],
        picks_from(all_options(tiles, width, height, strict, now), next),
        all_apart(next),
        no_swap(now, next),
        longer.len() == plan.len(),
        forall|i: int| 0 <= i < plan.len() ==> #[trigger] longer[i] == plan[i].push(next[i]),
    ensures
        joint_plan_ok(longer, tiles, width, height, strict, starts, len + 1),
        forall|i: int|
            0 <= i < plan.len() ==> cell_alphabet(width, height, starts).contains(#[trigger] next[i]),
{
    let n = plan.len() as int;
    let every = all_options(tiles, width, height, strict, now);
    assert forall|i: int| 0 <= i < n implies step_ok(now[i], #[trigger] next[i]) && (next[i] == now[i]
        || open_at(tiles, width, height, strict, next[i])) by {
        lemma_options(tiles, width, height, strict, now[i]);
        assert(every[i].contains(next[i]));
        let k = choose|k: int| 0 <= k < every[i].len() && every[i][k] == next[i];
        assert(options(tiles, width, height, strict, now[i])[k] == next[i]);
    }
    assert forall|i: int, t: int| 0 <= i < n && 0 <= t < len + 1 implies open_at(
        tiles,
        width,
        height,
        strict,
        #[trigger] longer[i][t],
    ) by {
        if t < len {
            assert(longer[i][t] == plan[i][t]);
        } else {
            assert(longer[i][t] == next[i]);
            assert(now[i] == plan[i][len - 1]);
            assert(open_at(tiles, width, height, strict, plan[i][len - 1]));
        }
    }
    assert forall|i: int, t: int| 0 <= i < n && 0 <= t < len implies step_ok(
        #[trigger] longer[i][t],
        longer[i][t + 1],
    ) by {
        if t < len - 1 {
            assert(longer[i][t] == plan[i][t]);
            assert(longer[i][t + 1] == plan[i][t + 1]);
        } else {
            assert(longer[i][t] == now[i]);
            assert(longer[i][t + 1] == next[i]);
        }
    }
    assert forall|i: int, j: int, t: int| 0 <= i < j < n && 0 <= t < len + 1 implies #[trigger] longer[i][t]
        != #[trigger] longer[j][t] by {
        if t < len {
            assert(longer[i][t] == plan[i][t]);
            assert(longer[j][t] == plan[j][t]);
        } else {
            assert(longer[i][t] == next[i]);
            assert(longer[j][t] == next[j]);
        }
    }
    assert forall|i: int, j: int, t: int| 0 <= i < j < n && 0 <= t < len implies !#[trigger] swaps(
        longer[i],
        longer[j],
        t,
    ) by {
        if t < len - 1 {
            assert(!swaps(plan[i], plan[j], t));
            assert(longer[i][t] == plan[i][t] && longer[i][t + 1] == plan[i][t + 1]);
            assert(longer[j][t] == plan[j][t] && longer[j][t + 1] == plan[j][t + 1]);
        } else {
            assert(longer[i][t] == now[i] && longer[i][t + 1] == next[i]);
            assert(longer[j][t] == now[j] && longer[j][t + 1] == next[j]);
        }
    }
    assert forall|i: int| 0 <= i < n implies (#[trigger] longer[i]).len() == len + 1 && longer[i][0]
        == starts[i] by {
        assert(longer[i][0] == plan[i][0]);
    }
    assert forall|i: int| 0 <= i < n implies cell_alphabet(width, height, starts).contains(
        #[trigger] next[i],
    ) by {
        assert(now[i] == plan[i][len - 1]);
        assert(open_at(tiles, width, height, strict, plan[i][len - 1]));
    }
}

// ---------------------------------------------------------------------------
// What the search covers
// ---------------------------------------------------------------------------

/// A joint move that the search follows: every agent takes one of its
/// options, the agents end up on different cells, and no two of them trade
/// places.
pub open spec fn feasible(
    tiles: Seq<u8>,
    width: u32,
    height: u32,
    strict: bool,
    now: Seq<Coordinate>,
    next: Seq<Coordinate>,
) -> bool {
    &&& picks_from(all_options(tiles, width, height, strict, now), next)
    &&& all_apart(next)
    &&& no_swap(now, next)
}

/// Where the agents of a joint plan are at time `t`.
pub open spec fn joint_at(plan: Seq<Seq<Coordinate>>, t: int) -> Seq<Coordinate> {
    Seq::new(plan.len(), |i: int| plan[i][t])
}

/// Every agent starts on an open cell.
pub open spec fn starts_open(
    tiles: Seq<u8>,
    width: u32,
    height: u32,
    strict: bool,
    starts: Seq<Coordinate>,
) -> bool {
    forall|i: int| 0 <= i < starts.len() ==> open_at(tiles, width, height, strict, #[trigger] starts[i])
}

/// Every joint move from a key's position leads to a key that was seen.
spec fn expanded(
    key: (Seq<Coordinate>, int),
    seen: Set<(Seq<Coordinate>, int)>,
    tiles: Seq<u8>,
    width: u32,
    height: u32,
    strict: bool,
) -> bool {
    forall|next: Seq<Coordinate>| #[trigger]
        feasible(tiles, width, height, strict, key.0, next) ==> seen.contains((next, key.1 + 1))
}

/// What holds of the keys the search is done with: each was seen, is no
/// goal, and is expanded unless it lies on the horizon.
spec fn closed_ok(
    closed: Set<(Seq<Coordinate>, int)>,
    seen: Set<(Seq<Coordinate>, int)>,
    goals: Seq<Coordinate>,
    tiles: Seq<u8>,
    width: u32,
    height: u32,
    strict: bool,
) -> bool {
    forall|key: (Seq<Coordinate>, int)| #[trigger]
        closed.contains(key) ==> {
            &&& seen.contains(key)
            &&& key.0 != goals
            &&& key.1 < u32::MAX ==> expanded(key, seen, tiles, width, height, strict)
        }
}

proof fn lemma_closed_ok_grows(
    closed: Set<(Seq<Coordinate>, int)>,
    seen: Set<(Seq<Coordinate>, int)>,
    more: Set<(Seq<Coordinate>, int)>,
    goals: Seq<Coordinate>,
    tiles: Seq<u8>,
    width: u32,
    height: u32,
    strict: bool,
)
    requires
        closed_ok(closed, seen, goals, tiles, width, height, strict),
        seen.subset_of(more),
    ensures
        closed_ok(closed, more, goals, tiles, width, height, strict),
{
    assert forall|key: (Seq<Coordinate>, int)| #[trigger] closed.contains(key) implies {
        &&& more.contains(key)
        &&& key.0 != goals
        &&& key.1 < u32::MAX ==> expanded(key, more, tiles, width, height, strict)
    } by {
        if key.1 < u32::MAX {
            assert(expanded(key, seen, tiles, width, height, strict));
            assert forall|next: Seq<Coordinate>| #[trigger]
                feasible(tiles, width, height, strict, key.0, next) implies more.contains(
                (next, key.1 + 1),
            ) by {
                assert(seen.contains((next, key.1 + 1)));
            }
        }
    }
}

/// From one timestep of a joint plan to the next, the agents make a joint
/// move that the search follows.
proof fn lemma_plan_moves_are_feasible(
    plan: Seq<Seq<Coordinate>>,
    tiles: Seq<u8>,
    width: u32,
    height: u32,
    strict: bool,
    starts: Seq<Coordinate>,
    len: int,
    t: int,
)
    requires
        joint_plan_ok(plan, tiles, width, height, strict, starts, len),
        starts_open(tiles, width, height, strict, starts),
        1 <= t < len,
    ensures
        feasible(tiles, width, height, strict, joint_at(plan, t - 1), joint_at(plan, t)),
{
    let now = joint_at(plan, t - 1);
    let next = joint_at(plan, t);
    let every = all_options(tiles, width, height, strict, now);
    assert forall|i: int| 0 <= i < every.len() implies (#[trigger] every[i]).contains(next[i]) by {
        let from = plan[i][t - 1];
        let to = plan[i][t];
        assert(now[i] == from && next[i] == to);
        assert(step_ok(from, to));
        assert(open_at(tiles, width, height, strict, to));
        let near = open_neighbors(tiles, width, height, strict, from, 4);
        let listed = options(tiles, width, height, strict, from);
        assert(every[i] == listed);
        if to == from {
            assert(listed[near.len() as int] == to);
        } else {
            lemma_reaches_neighbor(tiles, width, height, strict, from, to);
            let at = choose|at: int| 0 <= at < near.len() && near[at] == to;
            assert(listed[at] == to);
        }
    }
    assert forall|i: int, j: int| 0 <= i < j < next.len() implies #[trigger] next[i] != #[trigger] next[j] by {
        assert(plan[i][t] != plan[j][t]);
    }
    assert forall|i: int, j: int| 0 <= i < j < now.len() implies !(#[trigger] now[i] == #[trigger] next[j]
        && now[j] == next[i]) by {
        assert(!swaps(plan[i], plan[j], t - 1));
    }
}

/// Once the search has closed every key it has seen, it has closed every
/// joint position of every joint plan within the horizon.
proof fn lemma_plan_is_explored(
    plan: Seq<Seq<Coordinate>>,
    t: int,
    closed: Set<(Seq<Coordinate>, int)>,
    tiles: Seq<u8>,
    width: u32,
    height: u32,
    strict: bool,
    starts: Seq<Coordinate>,
    goals: Seq<Coordinate>,
    len: int,
)
    requires
        joint_plan_ok(plan, tiles, width, height, strict, starts, len),
        starts_open(tiles, width, height, strict, starts),
        0 <= t < len <= 0x1_0000_0000,
        closed.contains((starts, 0int)),
        closed_ok(closed, closed, goals, tiles, width, height, strict),
    ensures
        closed.contains((joint_at(plan, t), t)),
    decreases t,
{
    if t == 0 {
        assert(joint_at(plan, 0) =~= starts);
    } else {
        lemma_plan_is_explored(plan, t - 1, closed, tiles, width, height, strict, starts, goals, len);
        lemma_plan_moves_are_feasible(plan, tiles, width, height, strict, starts, len, t);
        let key = (joint_at(plan, t - 1), t - 1);
        assert(closed.contains(key));
        assert(expanded(key, closed, tiles, width, height, strict));
    }
}

// ---------------------------------------------------------------------------
// The search
// ---------------------------------------------------------------------------

pub(crate) fn starts_from(agents: &[Task]) -> (out: Vec<Coordinate>)
    ensures
        out@ == starts_of(agents@),
{
    let mut out: Vec<Coordinate> = Vec::new();
    let mut i: usize = 0;
    while i < agents.len()
        invariant
            i <= agents@.len(),
            out@.len() == i,
            forall|k: int| 0 <= k < i ==> #[trigger] out@[k] == start_of(agents@[k]),
        decreases agents@.len() - i,
    {
        out.push(Coordinate { x: agents[i].0.0, y: agents[i].0.1 });
        i += 1;
    }
    assert(out@ =~= starts_of(agents@));
    out
}

pub(crate) fn goals_from(agents: &[Task]) -> (out: Vec<Coordinate>)
    ensures
        out@ == goals_of(agents@),
{
    let mut out: Vec<Coordinate> = Vec::new();
    let mut i: usize = 0;
    while i < agents.len()
        invariant
            i <= agents@.len(),
            out@.len() == i,
            forall|k: int| 0 <= k < i ==> #[trigger] out@[k] == goal_of(agents@[k]),
        decreases agents@.len() - i,
    {
        out.push(Coordinate { x: agents[i].1.0, y: agents[i].1.1 });
        i += 1;
    }
    assert(out@ =~= goals_of(agents@));
    out
}

pub(crate) fn single_steps(cells: &Vec<Coordinate>) -> (out: Vec<Vec<Coordinate>>)
    ensures
        out@.len() == cells@.len(),
        forall|i: int| 0 <= i < cells@.len() ==> (#[trigger] out@[i])@ == seq![cells@[i]],
{
    let mut out: Vec<Vec<Coordinate>> = Vec::new();
    let mut i: usize = 0;
    while i < cells.len()
        invariant
            i <= cells@.len(),
            out@.len() == i,
            forall|k: int| 0 <= k < i ==> (#[trigger] out@[k])@ == seq![cells@[k]],
        decreases cells@.len() - i,
    {
        let mut path: Vec<Coordinate> = Vec::new();
        path.push(cells[i]);
        assert(path@ =~= seq![cells@[i as int]]);
        out.push(path);
        i += 1;
    }
    out
}

/// The plan in which no agent moves: each path is the agent's start alone.
pub open spec fn standing_plan(starts: Seq<Coordinate>) -> Seq<Seq<Coordinate>> {
    Seq::new(starts.len(), |i: int| seq![starts[i]])
}

// ---------------------------------------------------------------------------
// What the search returns
// ---------------------------------------------------------------------------

/// A joint state that the search holds: where the agents are, how each got
/// there, and when.
pub struct Held {
    pub positions: Seq<Coordinate>,
    pub plan: Seq<Seq<Coordinate>>,
    pub timestep: int,
}

/// The rank of a state: its timestep, which is its cost so far, plus the sum
/// of the agents' Manhattan distances to their goals.
pub open spec fn rank(s: Held, goals: Seq<Coordinate>) -> int {
    s.timestep + distance_sum(s.positions, goals, goals.len() as int)
}

/// The place of the state to expand next among the first `upto` of the open
/// list: the first among those of least rank.
pub open spec fn first_best(open: Seq<Held>, goals: Seq<Coordinate>, upto: int) -> int
    decreases upto,
{
    if upto <= 1 {
        0
    } else {
        let before = first_best(open, goals, upto - 1);
        if rank(open[upto - 1], goals) < rank(open[before], goals) {
            upto - 1
        } else {
            before
        }
    }
}

/// The state that a joint move leads to.
pub open spec fn successor(s: Held, next: Seq<Coordinate>) -> Held {
    Held {
        positions: next,
        plan: Seq::new(s.plan.len(), |i: int| s.plan[i].push(next[i])),
        timestep: s.timestep + 1,
    }
}

/// The open list and the keys seen after the first `upto` joint moves from
/// `s` were looked at in their order: a move joins the open list, and its
/// key the keys seen, if the agents end up apart, no two of them trade
/// places, and the key was not seen before.
pub open spec fn expanded_by(
    s: Held,
    joint: Seq<Seq<Coordinate>>,
    upto: int,
    open: Seq<Held>,
    seen: Set<(Seq<Coordinate>, int)>,
) -> (Seq<Held>, Set<(Seq<Coordinate>, int)>)
    decreases upto,
{
    if upto <= 0 {
        (open, seen)
    } else {
        let before = expanded_by(s, joint, upto - 1, open, seen);
        let next = joint[upto - 1];
        if all_apart(next) && no_swap(s.positions, next) && !before.1.contains(
            (next, s.timestep + 1),
        ) {
            (before.0.push(successor(s, next)), before.1.insert((next, s.timestep + 1)))
        } else {
            before
        }
    }
}

/// The state has one position per agent, each on a cell an agent can stand
/// on, and a timestep the search can reach.
pub open spec fn held_fits(s: Held, width: u32, height: u32, starts: Seq<Coordinate>) -> bool {
    &&& s.positions.len() == starts.len()
    &&& forall|i: int|
        0 <= i < s.positions.len() ==> cell_alphabet(width, height, starts).contains(
            #[trigger] s.positions[i],
        )
    &&& 0 <= s.timestep <= u32::MAX
}

/// An open list and a set of keys that the search can arrive at.
pub open spec fn search_fits(
    open: Seq<Held>,
    seen: Set<(Seq<Coordinate>, int)>,
    width: u32,
    height: u32,
    starts: Seq<Coordinate>,
) -> bool {
    &&& seen.subset_of(universe(width, height, starts))
    &&& forall|j: int| 0 <= j < open.len() ==> held_fits(#[trigger] open[j], width, height, starts)
}

/// What the search arrives at from a given open list and given keys seen.
///
/// With nothing left to expand there is no plan. Else the first state of
/// least rank leaves the open list. If its agents stand on their goals, its
/// plan is the result. Else every joint move from it is looked at, unless
/// the state lies on the horizon, and the search goes on.
pub open spec fn searched_from(
    open: Seq<Held>,
    seen: Set<(Seq<Coordinate>, int)>,
    tiles: Seq<u8>,
    width: u32,
    height: u32,
    strict: bool,
    starts: Seq<Coordinate>,
    goals: Seq<Coordinate>,
) -> Option<Seq<Seq<Coordinate>>>
    decreases universe(width, height, starts).difference(seen).len(), open.len(),
    when search_fits(open, seen, width, height, starts)
    via searched_from_decreases
{
    if open.len() == 0 {
        None
    } else {
        let best = first_best(open, goals, open.len() as int);
        let s = open[best];
        let rest = open.remove(best);
        if s.positions == goals {
            Some(s.plan)
        } else if s.timestep < u32::MAX {
            let joint = product(all_options(tiles, width, height, strict, s.positions));
            let after = expanded_by(s, joint, joint.len() as int, rest, seen);
            searched_from(after.0, after.1, tiles, width, height, strict, starts, goals)
        } else {
            searched_from(rest, seen, tiles, width, height, strict, starts, goals)
        }
    }
}

#[via_fn]
proof fn searched_from_decreases(
    open: Seq<Held>,
    seen: Set<(Seq<Coordinate>, int)>,
    tiles: Seq<u8>,
    width: u32,
    height: u32,
    strict: bool,
    starts: Seq<Coordinate>,
    goals: Seq<Coordinate>,
) {
    if open.len() > 0 {
        lemma_first_best(open, goals, open.len() as int);
        let best = first_best(open, goals, open.len() as int);
        let s = open[best];
        let rest = open.remove(best);
        if s.positions != goals && s.timestep < u32::MAX {
            lemma_rest_fits(open, best, seen, width, height, starts);
            lemma_expanded_fits(s, rest, seen, tiles, width, height, strict, starts);
        }
    }
}

/// The joint-state search as a function of its inputs: no plan where an
/// agent starts on a cell that is not open or two agents start on one cell;
/// else what the search arrives at from the agents' starts.
pub open spec fn searched(
    tiles: Seq<u8>,
    width: u32,
    height: u32,
    strict: bool,
    agents: Seq<Task>,
) -> Option<Seq<Seq<Coordinate>>> {
    let starts = starts_of(agents);
    if !starts_open(tiles, width, height, strict, starts) || !all_apart(starts) {
        None
    } else {
        searched_from(
            seq![Held { positions: starts, plan: standing_plan(starts), timestep: 0 }],
            Set::empty().insert((starts, 0int)),
            tiles,
            width,
            height,
            strict,
            starts,
            goals_of(agents),
        )
    }
}

pub proof fn lemma_first_best(open: Seq<Held>, goals: Seq<Coordinate>, upto: int)
    requires
        1 <= upto,
    ensures
        0 <= first_best(open, goals, upto) < upto,
    decreases upto,
{
    if upto > 1 {
        lemma_first_best(open, goals, upto - 1);
    }
}

proof fn lemma_rest_fits(
    open: Seq<Held>,
    best: int,
    seen: Set<(Seq<Coordinate>, int)>,
    width: u32,
    height: u32,
    starts: Seq<Coordinate>,
)
    requires
        0 <= best < open.len(),
        search_fits(open, seen, width, height, starts),
    ensures
        search_fits(open.remove(best), seen, width, height, starts),
        held_fits(open[best], width, height, starts),
{
    let rest = open.remove(best);
    assert forall|j: int| 0 <= j < rest.len() implies held_fits(
        #[trigger] rest[j],
        width,
        height,
        starts,
    ) by {
        if j < best {
            assert(rest[j] == open[j]);
        } else {
            assert(rest[j] == open[j + 1]);
        }
    }
}

/// Looking at joint moves keeps the open list and the keys seen within what
/// the search can arrive at, and every state that joins the open list adds
/// one key to the keys seen.
proof fn lemma_expanded_by(
    s: Held,
    joint: Seq<Seq<Coordinate>>,
    upto: int,
    open: Seq<Held>,
    seen: Set<(Seq<Coordinate>, int)>,
    tiles: Seq<u8>,
    width: u32,
    height: u32,
    strict: bool,
    starts: Seq<Coordinate>,
)
    requires
        0 <= upto <= joint.len(),
        search_fits(open, seen, width, height, starts),
        held_fits(s, width, height, starts),
        s.timestep < u32::MAX,
        forall|k: int|
            0 <= k < joint.len() ==> picks_from(
                all_options(tiles, width, height, strict, s.positions),
                #[trigger] joint[k],
            ),
    ensures
        ({
            let all = universe(width, height, starts);
            let after = expanded_by(s, joint, upto, open, seen);
            &&& search_fits(after.0, after.1, width, height, starts)
            &&& seen.subset_of(after.1)
            &&& after.0.len() >= open.len()
            &&& all.difference(after.1).len() + after.0.len() == all.difference(seen).len()
                + open.len()
        }),
    decreases upto,
{
    if upto > 0 {
        lemma_expanded_by(s, joint, upto - 1, open, seen, tiles, width, height, strict, starts);
        let all = universe(width, height, starts);
        let before = expanded_by(s, joint, upto - 1, open, seen);
        let next = joint[upto - 1];
        let key = (next, s.timestep + 1);
        if all_apart(next) && no_swap(s.positions, next) && !before.1.contains(key) {
            lemma_universe_finite(width, height, starts);
            let every = all_options(tiles, width, height, strict, s.positions);
            assert(picks_from(every, next));
            assert forall|i: int| 0 <= i < next.len() implies cell_alphabet(
                width,
                height,
                starts,
            ).contains(#[trigger] next[i]) by {
                lemma_options(tiles, width, height, strict, s.positions[i]);
                assert(every[i].contains(next[i]));
                let k = choose|k: int| 0 <= k < every[i].len() && every[i][k] == next[i];
                assert(options(tiles, width, height, strict, s.positions[i])[k] == next[i]);
                assert(cell_alphabet(width, height, starts).contains(s.positions[i]));
            }
            assert(seqs_over(cell_alphabet(width, height, starts), starts.len()).contains(next));
            assert(set_int_range(0, 0x1_0000_0000).contains(key.1));
            assert(all.contains(key));
            lemma_fewer_left(all, before.1, key);
            let after = expanded_by(s, joint, upto, open, seen);
            assert(after.0 == before.0.push(successor(s, next)));
            assert forall|j: int| 0 <= j < after.0.len() implies held_fits(
                #[trigger] after.0[j],
                width,
                height,
                starts,
            ) by {
                if j < before.0.len() {
                    assert(after.0[j] == before.0[j]);
                }
            }
        }
    }
}

/// The same for all joint moves from a state.
proof fn lemma_expanded_fits(
    s: Held,
    open: Seq<Held>,
    seen: Set<(Seq<Coordinate>, int)>,
    tiles: Seq<u8>,
    width: u32,
    height: u32,
    strict: bool,
    starts: Seq<Coordinate>,
)
    requires
        search_fits(open, seen, width, height, starts),
        held_fits(s, width, height, starts),
        s.timestep < u32::MAX,
    ensures
        ({
            let all = universe(width, height, starts);
            let joint = product(all_options(tiles, width, height, strict, s.positions));
            let after = expanded_by(s, joint, joint.len() as int, open, seen);
            &&& search_fits(after.0, after.1, width, height, starts)
            &&& seen.subset_of(after.1)
            &&& after.0.len() >= open.len()
            &&& all.difference(after.1).len() + after.0.len() == all.difference(seen).len()
                + open.len()
        }),
{
    let every = all_options(tiles, width, height, strict, s.positions);
    let joint = product(every);
    assert forall|k: int| 0 <= k < joint.len() implies picks_from(every, #[trigger] joint[k]) by {
        lemma_product_picks(every, k);
    }
    lemma_expanded_by(s, joint, joint.len() as int, open, seen, tiles, width, height, strict, starts);
}

/// A state of the search as mathematical values.
spec fn held_of(s: GlobalState) -> Held {
    Held { positions: s.positions@, plan: rows(s.paths@), timestep: s.timestep as int }
}

spec fn held_all(open: Seq<GlobalState>) -> Seq<Held> {
    Seq::new(open.len(), |j: int| held_of(open[j]))
}

proof fn lemma_state_fits(
    s: GlobalState,
    tiles: Seq<u8>,
    width: u32,
    height: u32,
    strict: bool,
    starts: Seq<Coordinate>,
)
    requires
        state_ok(s, tiles, width, height, strict, starts),
    ensures
        held_fits(held_of(s), width, height, starts),
{
    let plan = rows(s.paths@);
    assert forall|i: int| 0 <= i < s.positions@.len() implies cell_alphabet(
        width,
        height,
        starts,
    ).contains(#[trigger] s.positions@[i]) by {
        assert(s.positions@[i] == plan[i][s.timestep as int]);
        assert(open_at(tiles, width, height, strict, plan[i][s.timestep as int]));
    }
}

proof fn lemma_open_fits(
    open: Seq<GlobalState>,
    seen: Set<(Seq<Coordinate>, int)>,
    tiles: Seq<u8>,
    width: u32,
    height: u32,
    strict: bool,
    starts: Seq<Coordinate>,
)
    requires
        forall|k: int| 0 <= k < open.len() ==> state_ok(#[trigger] open[k], tiles, width, height, strict, starts),
        seen.subset_of(universe(width, height, starts)),
    ensures
        search_fits(held_all(open), seen, width, height, starts),
{
    assert forall|j: int| 0 <= j < held_all(open).len() implies held_fits(
        #[trigger] held_all(open)[j],
        width,
        height,
        starts,
    ) by {
        lemma_state_fits(open[j], tiles, width, height, strict, starts);
    }
}

/// One step of the search, written out.
proof fn lemma_searched_step(
    open: Seq<Held>,
    seen: Set<(Seq<Coordinate>, int)>,
    tiles: Seq<u8>,
    width: u32,
    height: u32,
    strict: bool,
    starts: Seq<Coordinate>,
    goals: Seq<Coordinate>,
)
    requires
        search_fits(open, seen, width, height, starts),
    ensures
        open.len() == 0 ==> searched_from(open, seen, tiles, width, height, strict, starts, goals)
            is None,
        open.len() > 0 ==> ({
            let best = first_best(open, goals, open.len() as int);
            let s = open[best];
            let rest = open.remove(best);
            let joint = product(all_options(tiles, width, height, strict, s.positions));
            let after = expanded_by(s, joint, joint.len() as int, rest, seen);
            searched_from(open, seen, tiles, width, height, strict, starts, goals) == (if s.positions
                == goals {
                Some(s.plan)
            } else if s.timestep < u32::MAX {
                searched_from(after.0, after.1, tiles, width, height, strict, starts, goals)
            } else {
                searched_from(rest, seen, tiles, width, height, strict, starts, goals)
            })
        }),
{
    if open.len() > 0 {
        lemma_first_best(open, goals, open.len() as int);
        let best = first_best(open, goals, open.len() as int);
        let s = open[best];
        let rest = open.remove(best);
        let joint = product(all_options(tiles, width, height, strict, s.positions));
        let after = expanded_by(s, joint, joint.len() as int, rest, seen);
        if s.positions == goals {
            assert(searched_from(open, seen, tiles, width, height, strict, starts, goals) == Some(
                s.plan,
            ));
        } else if s.timestep < u32::MAX {
            lemma_rest_fits(open, best, seen, width, height, starts);
            lemma_expanded_fits(s, rest, seen, tiles, width, height, strict, starts);
            assert(searched_from(open, seen, tiles, width, height, strict, starts, goals)
                == searched_from(after.0, after.1, tiles, width, height, strict, starts, goals));
        } else {
            assert(searched_from(open, seen, tiles, width, height, strict, starts, goals)
                == searched_from(rest, seen, tiles, width, height, strict, starts, goals));
        }
    }
}

/// Along a joint plan within the horizon, up to timestep `j`: some joint
/// position of the plan waits in the open list under its timestep, or the
/// search is done with the position at `j`.
proof fn lemma_plan_meets_open(
    plan: Seq<Seq<Coordinate>>,
    j: int,
    open: Seq<GlobalState>,
    seen: Set<(Seq<Coordinate>, int)>,
    closed: Set<(Seq<Coordinate>, int)>,
    tiles: Seq<u8>,
    width: u32,
    height: u32,
    strict: bool,
    starts: Seq<Coordinate>,
    goals: Seq<Coordinate>,
    len: int,
)
    requires
        joint_plan_ok(plan, tiles, width, height, strict, starts, len),
        starts_open(tiles, width, height, strict, starts),
        0 <= j < len <= horizon(),
        seen.contains((starts, 0int)),
        closed_ok(closed, seen, goals, tiles, width, height, strict),
        forall|key: (Seq<Coordinate>, int)| #[trigger]
            seen.contains(key) ==> closed.contains(key) || waiting(open, key),
    ensures
        (exists|i: int| 0 <= i <= j && waiting(open, (#[trigger] joint_at(plan, i), i)))
            || closed.contains((joint_at(plan, j), j)),
    decreases j,
{
    if j == 0 {
        assert(joint_at(plan, 0) =~= starts);
        if !closed.contains((joint_at(plan, 0), 0int)) {
            assert(waiting(open, (joint_at(plan, 0), 0int)));
        }
    } else {
        lemma_plan_meets_open(
            plan,
            j - 1,
            open,
            seen,
            closed,
            tiles,
            width,
            height,
            strict,
            starts,
            goals,
            len,
        );
        if exists|i: int| 0 <= i <= j - 1 && waiting(open, (#[trigger] joint_at(plan, i), i)) {
            let i = choose|i: int| 0 <= i <= j - 1 && waiting(open, (#[trigger] joint_at(plan, i), i));
            assert(0 <= i <= j && waiting(open, (joint_at(plan, i), i)));
        } else {
            let key = (joint_at(plan, j - 1), j - 1);
            assert(closed.contains(key));
            lemma_plan_moves_are_feasible(plan, tiles, width, height, strict, starts, len, j);
            assert(expanded(key, seen, tiles, width, height, strict));
            assert(seen.contains((joint_at(plan, j), j)));
            if !closed.contains((joint_at(plan, j), j)) {
                assert(waiting(open, (joint_at(plan, j), j)));
            }
        }
    }
}

/// For a single agent, the first state whose agent stands on its goal when
/// it leaves the open list has a plan no longer than any plan that solves
/// the problem.
proof fn lemma_first_goal_is_nearest(
    plan: Seq<Seq<Coordinate>>,
    open: Seq<GlobalState>,
    best: int,
    seen: Set<(Seq<Coordinate>, int)>,
    closed: Set<(Seq<Coordinate>, int)>,
    tiles: Seq<u8>,
    width: u32,
    height: u32,
    strict: bool,
    starts: Seq<Coordinate>,
    goals: Seq<Coordinate>,
)
    requires
        starts.len() == 1,
        goals.len() == 1,
        solves(plan, tiles, width, height, strict, starts, goals),
        seen.contains((starts, 0int)),
        closed_ok(closed, seen, goals, tiles, width, height, strict),
        forall|key: (Seq<Coordinate>, int)| #[trigger]
            seen.contains(key) ==> closed.contains(key) || waiting(open, key),
        forall|k: int| 0 <= k < open.len() ==> state_ok(#[trigger] open[k], tiles, width, height, strict, starts),
        0 <= best < open.len(),
        open[best].positions@ == goals,
        forall|k: int|
            0 <= k < open.len() ==> priority(open[best], goals) <= priority(#[trigger] open[k], goals),
    ensures
        open[best].timestep + 1 <= plan_len(plan),
{
    let len = plan_len(plan);
    if len <= horizon() {
        lemma_solved_starts(plan, tiles, width, height, strict, starts, goals);
        lemma_plan_meets_open(
            plan,
            len - 1,
            open,
            seen,
            closed,
            tiles,
            width,
            height,
            strict,
            starts,
            goals,
            len,
        );
        assert(joint_at(plan, len - 1) =~= goals);
        assert(!closed.contains((goals, len - 1)));
        let i = choose|i: int| 0 <= i <= len - 1 && waiting(open, (#[trigger] joint_at(plan, i), i));
        let k = choose|k: int|
            0 <= k < open.len() && state_key(#[trigger] open[k]) == (joint_at(plan, i), i);
        let steps = plan[0];
        assert(crate::astar::moves_ok(steps)) by {
            assert forall|t: int| 0 <= t < steps.len() - 1 implies step_ok(
                #[trigger] steps[t],
                steps[t + 1],
            ) by {
                assert(step_ok(plan[0][t], plan[0][t + 1]));
            }
        }
        lemma_manhattan_along(steps, i, len - 1);
        assert(steps[len - 1] == goals[0]);
        assert(open[k].positions@[0] == steps[i]);
        assert(state_ok(open[k], tiles, width, height, strict, starts));
        assert(state_ok(open[best], tiles, width, height, strict, starts));
        reveal_with_fuel(distance_sum, 2);
        assert(priority(open[k], goals) == i + manhattan(steps[i], goals[0]));
        assert(priority(open[best], goals) == open[best].timestep + manhattan(goals[0], goals[0]));
    }
}

/// Where the agents start apart on open cells that are their goals, the
/// search gives the plan in which no agent moves.
pub proof fn lemma_searched_on_goals(
    tiles: Seq<u8>,
    width: u32,
    height: u32,
    strict: bool,
    agents: Seq<Task>,
)
    requires
        starts_of(agents) == goals_of(agents),
        starts_open(tiles, width, height, strict, starts_of(agents)),
        all_apart(starts_of(agents)),
    ensures
        searched(tiles, width, height, strict, agents) == Some(standing_plan(starts_of(agents))),
{
    let starts = starts_of(agents);
    let first = seq![Held { positions: starts, plan: standing_plan(starts), timestep: 0 }];
    let seen = Set::empty().insert((starts, 0int));
    assert(seqs_over(cell_alphabet(width, height, starts), starts.len()).contains(starts)) by {
        assert forall|i: int| 0 <= i < starts.len() implies cell_alphabet(
            width,
            height,
            starts,
        ).contains(#[trigger] starts[i]) by {}
    }
    assert(set_int_range(0, 0x1_0000_0000).contains(0int));
    assert(universe(width, height, starts).contains((starts, 0int)));
    assert(search_fits(first, seen, width, height, starts));
    lemma_searched_step(first, seen, tiles, width, height, strict, starts, goals_of(agents));
    lemma_first_best(first, goals_of(agents), 1);
}

/// Every tile is 0 or 1.
pub open spec fn binary(tiles: Seq<u8>) -> bool {
    forall|k: int| 0 <= k < tiles.len() ==> #[trigger] tiles[k] <= 1
}

proof fn lemma_neighbors_agree(tiles: Seq<u8>, width: u32, height: u32, c: Coordinate, upto: int)
    requires
        binary(tiles),
        0 <= upto <= 4,
    ensures
        open_neighbors(tiles, width, height, true, c, upto) == open_neighbors(
            tiles,
            width,
            height,
            false,
            c,
            upto,
        ),
    decreases upto,
{
    if upto > 0 {
        lemma_neighbors_agree(tiles, width, height, c, upto - 1);
    }
}

proof fn lemma_options_agree(tiles: Seq<u8>, width: u32, height: u32, positions: Seq<Coordinate>)
    requires
        binary(tiles),
    ensures
        all_options(tiles, width, height, true, positions) == all_options(
            tiles,
            width,
            height,
            false,
            positions,
        ),
{
    assert forall|i: int| 0 <= i < positions.len() implies options(
        tiles,
        width,
        height,
        true,
        positions[i],
    ) == options(tiles, width, height, false, positions[i]) by {
        lemma_neighbors_agree(tiles, width, height, positions[i], 4);
    }
    assert(all_options(tiles, width, height, true, positions) =~= all_options(
        tiles,
        width,
        height,
        false,
        positions,
    ));
}

proof fn lemma_readings_agree_from(
    open: Seq<Held>,
    seen: Set<(Seq<Coordinate>, int)>,
    tiles: Seq<u8>,
    width: u32,
    height: u32,
    starts: Seq<Coordinate>,
    goals: Seq<Coordinate>,
)
    requires
        binary(tiles),
        search_fits(open, seen, width, height, starts),
    ensures
        searched_from(open, seen, tiles, width, height, true, starts, goals) == searched_from(
            open,
            seen,
            tiles,
            width,
            height,
            false,
            starts,
            goals,
        ),
    decreases universe(width, height, starts).difference(seen).len(), open.len(),
{
    lemma_searched_step(open, seen, tiles, width, height, true, starts, goals);
    lemma_searched_step(open, seen, tiles, width, height, false, starts, goals);
    if open.len() > 0 {
        lemma_first_best(open, goals, open.len() as int);
        let best = first_best(open, goals, open.len() as int);
        let s = open[best];
        let rest = open.remove(best);
        lemma_rest_fits(open, best, seen, width, height, starts);
        if s.positions != goals {
            if s.timestep < u32::MAX {
                lemma_options_agree(tiles, width, height, s.positions);
                lemma_expanded_fits(s, rest, seen, tiles, width, height, true, starts);
                let joint = product(all_options(tiles, width, height, true, s.positions));
                let after = expanded_by(s, joint, joint.len() as int, rest, seen);
                lemma_readings_agree_from(after.0, after.1, tiles, width, height, starts, goals);
            } else {
                lemma_readings_agree_from(rest, seen, tiles, width, height, starts, goals);
            }
        }
    }
}

/// On tiles of 0 and 1 the search gives the same, whether it takes only the
/// tile value 1 for passable or every value but 0.
pub proof fn lemma_readings_agree(tiles: Seq<u8>, width: u32, height: u32, agents: Seq<Task>)
    requires
        binary(tiles),
    ensures
        searched(tiles, width, height, true, agents) == searched(tiles, width, height, false, agents),
{
    let starts = starts_of(agents);
    assert(starts_open(tiles, width, height, true, starts) == starts_open(
        tiles,
        width,
        height,
        false,
        starts,
    )) by {
        if starts_open(tiles, width, height, true, starts) {
            assert forall|i: int| 0 <= i < starts.len() implies open_at(
                tiles,
                width,
                height,
                false,
                #[trigger] starts[i],
            ) by {
                assert(open_at(tiles, width, height, true, starts[i]));
            }
        }
        if starts_open(tiles, width, height, false, starts) {
            assert forall|i: int| 0 <= i < starts.len() implies open_at(
                tiles,
                width,
                height,
                true,
                #[trigger] starts[i],
            ) by {
                assert(open_at(tiles, width, height, false, starts[i]));
            }
        }
    }
    if starts_open(tiles, width, height, true, starts) && all_apart(starts) {
        let first = seq![Held { positions: starts, plan: standing_plan(starts), timestep: 0 }];
        let seen = Set::empty().insert((starts, 0int));
        assert(seqs_over(cell_alphabet(width, height, starts), starts.len()).contains(starts)) by {
            assert forall|i: int| 0 <= i < starts.len() implies cell_alphabet(
                width,
                height,
                starts,
            ).contains(#[trigger] starts[i]) by {}
        }
        assert(set_int_range(0, 0x1_0000_0000).contains(0int));
        assert(universe(width, height, starts).contains((starts, 0int)));
        assert(search_fits(first, seen, width, height, starts));
        lemma_readings_agree_from(first, seen, tiles, width, height, starts, goals_of(agents));
    }
}

/// No plan that solves the problem has fewer timesteps.
pub open spec fn shortest_plan(
    plan: Seq<Seq<Coordinate>>,
    tiles: Seq<u8>,
    width: u32,
    height: u32,
    strict: bool,
    starts: Seq<Coordinate>,
    goals: Seq<Coordinate>,
) -> bool {
    forall|other: Seq<Seq<Coordinate>>| #[trigger]
        solves(other, tiles, width, height, strict, starts, goals) ==> plan_len(plan) <= plan_len(
            other,
        )
}

/// A problem that has a solving plan has its agents start apart on open
/// cells.
pub proof fn lemma_solved_starts(
    plan: Seq<Seq<Coordinate>>,
    tiles: Seq<u8>,
    width: u32,
    height: u32,
    strict: bool,
    starts: Seq<Coordinate>,
    goals: Seq<Coordinate>,
)
    requires
        solves(plan, tiles, width, height, strict, starts, goals),
    ensures
        starts_open(tiles, width, height, strict, starts),
        all_apart(starts),
{
    assert forall|i: int| 0 <= i < starts.len() implies open_at(
        tiles,
        width,
        height,
        strict,
        #[trigger] starts[i],
    ) by {
        assert(plan[i][0] == starts[i]);
    }
    assert forall|i: int, j: int| 0 <= i < j < starts.len() implies #[trigger] starts[i]
        != #[trigger] starts[j] by {
        assert(plan[i][0] == starts[i] && plan[j][0] == starts[j]);
        assert(plan[i][0] != plan[j][0]);
    }
}

/// Tells whether every agent starts on an open cell.
fn all_open(tiles: &[u8], width: u32, height: u32, strict: bool, starts: &Vec<Coordinate>) -> (ok: bool)
    ensures
        ok == starts_open(tiles@, width, height, strict, starts@),
{
    let mut i: usize = 0;
    while i < starts.len()
        invariant
            i <= starts@.len(),
            forall|k: int| 0 <= k < i ==> open_at(tiles@, width, height, strict, #[trigger] starts@[k]),
        decreases starts@.len() - i,
    {
        if !tile_open(tiles, width, height, strict, starts[i].x, starts[i].y) {
            return false;
        }
        i += 1;
    }
    true
}

/// The key of a state.
spec fn state_key(s: GlobalState) -> (Seq<Coordinate>, int) {
    (s.positions@, s.timestep as int)
}

/// Some state of the open list has the key.
spec fn waiting(open: Seq<GlobalState>, key: (Seq<Coordinate>, int)) -> bool {
    exists|j: int| 0 <= j < open.len() && state_key(#[trigger] open[j]) == key
}

/// What is known of the keys seen, once a state has left the open list.
proof fn lemma_popped(
    before: Seq<GlobalState>,
    best: int,
    after: Seq<GlobalState>,
    seen: Set<(Seq<Coordinate>, int)>,
    closed: Set<(Seq<Coordinate>, int)>,
)
    requires
        0 <= best < before.len(),
        after == before.remove(best),
        forall|key: (Seq<Coordinate>, int)| #[trigger]
            seen.contains(key) ==> closed.contains(key) || waiting(before, key),
        forall|k: int| 0 <= k < before.len() ==> seen.contains(state_key(#[trigger] before[k])),
    ensures
        forall|key: (Seq<Coordinate>, int)| #[trigger]
            seen.contains(key) ==> closed.contains(key) || key == state_key(before[best]) || waiting(
                after,
                key,
            ),
        forall|k: int| 0 <= k < after.len() ==> seen.contains(state_key(#[trigger] after[k])),
{
    assert forall|key: (Seq<Coordinate>, int)| #[trigger] seen.contains(key) implies closed.contains(
        key,
    ) || key == state_key(before[best]) || waiting(after, key) by {
        if !closed.contains(key) {
            let j = choose|j: int| 0 <= j < before.len() && state_key(#[trigger] before[j]) == key;
            if j < best {
                assert(after[j] == before[j]);
            } else if j > best {
                assert(after[j - 1] == before[j]);
            }
        }
    }
    assert forall|k: int| 0 <= k < after.len() implies seen.contains(state_key(#[trigger] after[k])) by {
        if k < best {
            assert(after[k] == before[k]);
        } else {
            assert(after[k] == before[k + 1]);
        }
    }
}

/// What is known of the keys seen, once a new state has joined the open
/// list under a key not seen before.
proof fn lemma_pushed(
    before: Seq<GlobalState>,
    successor: GlobalState,
    seen: Set<(Seq<Coordinate>, int)>,
    closed: Set<(Seq<Coordinate>, int)>,
    here: (Seq<Coordinate>, int),
)
    requires
        forall|key: (Seq<Coordinate>, int)| #[trigger]
            seen.contains(key) ==> closed.contains(key) || key == here || waiting(before, key),
        forall|k: int| 0 <= k < before.len() ==> seen.contains(state_key(#[trigger] before[k])),
    ensures
        forall|key: (Seq<Coordinate>, int)| #[trigger]
            seen.insert(state_key(successor)).contains(key) ==> closed.contains(key) || key == here
                || waiting(before.push(successor), key),
        forall|k: int|
            0 <= k < before.push(successor).len() ==> seen.insert(state_key(successor)).contains(
                state_key(#[trigger] before.push(successor)[k]),
            ),
{
    let after = before.push(successor);
    assert forall|key: (Seq<Coordinate>, int)| #[trigger]
        seen.insert(state_key(successor)).contains(key) implies closed.contains(key) || key == here
        || waiting(after, key) by {
        if key == state_key(successor) {
            assert(state_key(after[after.len() - 1]) == key);
        } else if !closed.contains(key) && key != here {
            let j = choose|j: int| 0 <= j < before.len() && state_key(#[trigger] before[j]) == key;
            assert(after[j] == before[j]);
        }
    }
    assert forall|k: int| 0 <= k < after.len() implies seen.insert(state_key(successor)).contains(
        state_key(#[trigger] after[k]),
    ) by {
        if k < before.len() {
            assert(after[k] == before[k]);
        }
    }
}

/// A key is expanded once every joint move of the product was looked at.
proof fn lemma_all_moves_tried(
    joint: Seq<Seq<Coordinate>>,
    seen: Set<(Seq<Coordinate>, int)>,
    here: (Seq<Coordinate>, int),
    tiles: Seq<u8>,
    width: u32,
    height: u32,
    strict: bool,
)
    requires
        joint == product(all_options(tiles, width, height, strict, here.0)),
        forall|k: int|
            0 <= k < joint.len() && feasible(tiles, width, height, strict, here.0, #[trigger] joint[k])
                ==> seen.contains((joint[k], here.1 + 1)),
    ensures
        expanded(here, seen, tiles, width, height, strict),
{
    assert forall|next: Seq<Coordinate>| #[trigger]
        feasible(tiles, width, height, strict, here.0, next) implies seen.contains(
        (next, here.1 + 1),
    ) by {
        lemma_product_complete(all_options(tiles, width, height, strict, here.0), next);
        let k = choose|k: int| 0 <= k < joint.len() && joint[k] == next;
        assert(feasible(tiles, width, height, strict, here.0, joint[k]));
    }
}

/// The search is done with one more key.
proof fn lemma_closed_one_more(
    closed: Set<(Seq<Coordinate>, int)>,
    seen: Set<(Seq<Coordinate>, int)>,
    here: (Seq<Coordinate>, int),
    open: Seq<GlobalState>,
    goals: Seq<Coordinate>,
    tiles: Seq<u8>,
    width: u32,
    height: u32,
    strict: bool,
)
    requires
        closed_ok(closed, seen, goals, tiles, width, height, strict),
        seen.contains(here),
        here.0 != goals,
        here.1 < u32::MAX ==> expanded(here, seen, tiles, width, height, strict),
        forall|key: (Seq<Coordinate>, int)| #[trigger]
            seen.contains(key) ==> closed.contains(key) || key == here || waiting(open, key),
    ensures
        closed_ok(closed.insert(here), seen, goals, tiles, width, height, strict),
        forall|key: (Seq<Coordinate>, int)| #[trigger]
            seen.contains(key) ==> closed.insert(here).contains(key) || waiting(open, key),
{
    let done = closed.insert(here);
    assert forall|key: (Seq<Coordinate>, int)| #[trigger] done.contains(key) implies {
        &&& seen.contains(key)
        &&& key.0 != goals
        &&& key.1 < u32::MAX ==> expanded(key, seen, tiles, width, height, strict)
    } by {
        if key != here {
            assert(closed.contains(key));
        }
    }
}

/// With every key closed that was seen, no plan within the horizon solves
/// the problem.
proof fn lemma_nothing_left(
    plan: Seq<Seq<Coordinate>>,
    closed: Set<(Seq<Coordinate>, int)>,
    tiles: Seq<u8>,
    width: u32,
    height: u32,
    strict: bool,
    starts: Seq<Coordinate>,
    goals: Seq<Coordinate>,
)
    requires
        closed_ok(closed, closed, goals, tiles, width, height, strict),
        closed.contains((starts, 0int)),
        starts_open(tiles, width, height, strict, starts),
        solves(plan, tiles, width, height, strict, starts, goals),
        goals.len() == starts.len(),
    ensures
        plan_len(plan) > horizon(),
{
    let len = plan_len(plan);
    if len <= horizon() {
        lemma_plan_is_explored(plan, len - 1, closed, tiles, width, height, strict, starts, goals, len);
        assert(joint_at(plan, len - 1) =~= goals);
        assert(closed.contains((goals, len - 1)));
    }
}

/// A state whose agents stand on their goals holds a plan that solves the
/// problem.
proof fn lemma_goal_state_solves(
    state: GlobalState,
    tiles: Seq<u8>,
    width: u32,
    height: u32,
    strict: bool,
    starts: Seq<Coordinate>,
    goals: Seq<Coordinate>,
)
    requires
        state_ok(state, tiles, width, height, strict, starts),
        state.positions@ == goals,
    ensures
        solves(rows(state.paths@), tiles, width, height, strict, starts, goals),
{
    let plan = rows(state.paths@);
    assert forall|i: int| 0 <= i < plan.len() implies (#[trigger] plan[i])[plan_len(plan) - 1]
        == goals[i] by {
        assert(state.positions@[i] == plan[i][state.timestep as int]);
        assert(plan[0].len() == state.timestep + 1);
    }
    assert(plan.len() > 0 ==> plan[0].len() == state.timestep + 1);
    if plan.len() == 0 {
        assert(joint_plan_ok(plan, tiles, width, height, strict, starts, 1));
    }
}

/// The keys of a visited list with one more key.
proof fn lemma_key_set_push(visited: Seq<VisitKey>, fresh: VisitKey)
    ensures
        key_set(visited.push(fresh)) == key_set(visited).insert(key_of(fresh)),
{
    let longer = visited.push(fresh);
    assert forall|k: (Seq<Coordinate>, int)| key_set(longer).contains(k) <==> key_set(visited).insert(
        key_of(fresh),
    ).contains(k) by {
        if key_set(longer).contains(k) {
            let i = choose|i: int| 0 <= i < longer.len() && key_of(#[trigger] longer[i]) == k;
            if i < visited.len() {
                assert(visited[i] == longer[i]);
            }
        }
        if key_set(visited).contains(k) {
            let i = choose|i: int| 0 <= i < visited.len() && key_of(#[trigger] visited[i]) == k;
            assert(longer[i] == visited[i]);
        }
        if k == key_of(fresh) {
            assert(key_of(longer[longer.len() - 1]) == k);
        }
    }
    assert(key_set(longer) =~= key_set(visited).insert(key_of(fresh)));
}

/// The longest plan the search looks for: 2^32 timesteps.
pub open spec fn horizon() -> int {
    0x1_0000_0000
}

/// Some plan within the horizon solves the problem.
pub open spec fn solvable(
    tiles: Seq<u8>,
    width: u32,
    height: u32,
    strict: bool,
    starts: Seq<Coordinate>,
    goals: Seq<Coordinate>,
) -> bool {
    exists|plan: Seq<Seq<Coordinate>>| #[trigger]
        solves(plan, tiles, width, height, strict, starts, goals) && plan_len(plan) <= horizon()
}

/// Joint-state A* on raw tiles.
///
/// The result is what `searched` says. A plan that is returned solves the
/// problem: see `solves`. A plan is returned if one of at most `horizon()`
/// timesteps solves the problem, and none is returned only if there is no
/// such plan; there is none where an agent starts on a cell that is not
/// open or two agents start on one cell.
#[verifier::rlimit(40)]
pub fn search(tiles: &[u8], width: u32, height: u32, strict: bool, agents: &[Task]) -> (result:
    Option<Vec<Path>>)
    ensures
        result matches Some(paths) ==> solves(
            plan_of(paths@),
            tiles@,
            width,
            height,
            strict,
            starts_of(agents@),
            goals_of(agents@),
        ),
        !starts_open(tiles@, width, height, strict, starts_of(agents@)) ==> result is None,
        !all_apart(starts_of(agents@)) ==> result is None,
        result is None ==> forall|plan: Seq<Seq<Coordinate>>| #[trigger]
            solves(plan, tiles@, width, height, strict, starts_of(agents@), goals_of(agents@))
                ==> plan_len(plan) > horizon(),
        solvable(tiles@, width, height, strict, starts_of(agents@), goals_of(agents@))
            ==> result is Some,
        match searched(tiles@, width, height, strict, agents@) {
            Some(plan) => result matches Some(paths) && plan_of(paths@) == plan,
            None => result is None,
        },
        agents@.len() == 1 ==> (result matches Some(paths) ==> shortest_plan(
            plan_of(paths@),
            tiles@,
            width,
            height,
            strict,
            starts_of(agents@),
            goals_of(agents@),
        )),
{
    let starts = starts_from(agents);
    let goals = goals_from(agents);
    let ghost outcome = searched(tiles@, width, height, strict, agents@);
    if !all_open(tiles, width, height, strict, &starts) || !apart(&starts) {
        proof {
            assert forall|plan: Seq<Seq<Coordinate>>| #[trigger]
                solves(plan, tiles@, width, height, strict, starts@, goals@) implies plan_len(plan)
                > horizon() by {
                lemma_solved_starts(plan, tiles@, width, height, strict, starts@, goals@);
            }
        }
        return None;
    }
    let mut open: Vec<GlobalState> = Vec::new();
    let mut visited: Vec<VisitKey> = Vec::new();
    let first = GlobalState {
        positions: copy_cells(&starts),
        paths: single_steps(&starts),
        cost: 0,
        timestep: 0,
    };
    let ghost all = universe(width, height, starts@);
    proof {
        lemma_universe_finite(width, height, starts@);
        assert(rows(first.paths@) =~= standing_plan(starts@));
        assert(state_ok(first, tiles@, width, height, strict, starts@));
    }
    open.push(first);
    visited.push(VisitKey { positions: copy_cells(&starts), timestep: 0 });
    let ghost mut closed: Set<(Seq<Coordinate>, int)> = Set::empty();
    let ghost mut seen: Set<(Seq<Coordinate>, int)> = key_set(visited@);
    proof {
        assert(key_of(visited@[0]) == (starts@, 0int));
        assert(state_key(open@[0]) == (starts@, 0int));
        assert forall|key: (Seq<Coordinate>, int)| seen.contains(key) implies waiting(open@, key) by {
            let i = choose|i: int| 0 <= i < visited@.len() && key_of(#[trigger] visited@[i]) == key;
            assert(state_key(open@[0]) == key);
        }
        assert(seen =~= Set::empty().insert((starts@, 0int)));
        assert(held_all(open@) =~= seq![
            Held { positions: starts@, plan: standing_plan(starts@), timestep: 0 },
        ]);
        assert(seqs_over(cell_alphabet(width, height, starts@), starts@.len()).contains(starts@)) by {
            assert forall|i: int| 0 <= i < starts@.len() implies cell_alphabet(
                width,
                height,
                starts@,
            ).contains(#[trigger] starts@[i]) by {}
        }
        assert(set_int_range(0, 0x1_0000_0000).contains(0int));
        assert(all.contains((starts@, 0int)));
    }
    while open.len() > 0
        invariant
            starts@ == starts_of(agents@),
            goals@ == goals_of(agents@),
            all == universe(width, height, starts@),
            all.finite(),
            forall|k: int|
                0 <= k < open@.len() ==> state_ok(
                    #[trigger] open@[k],
                    tiles@,
                    width,
                    height,
                    strict,
                    starts@,
                ),
            starts_open(tiles@, width, height, strict, starts@),
            all_apart(starts@),
            seen == key_set(visited@),
            seen.contains((starts@, 0int)),
            seen.subset_of(all),
            outcome == searched(tiles@, width, height, strict, agents@),
            outcome == searched_from(
                held_all(open@),
                seen,
                tiles@,
                width,
                height,
                strict,
                starts@,
                goals@,
            ),
            closed_ok(closed, seen, goals@, tiles@, width, height, strict),
            forall|key: (Seq<Coordinate>, int)| #[trigger]
                seen.contains(key) ==> closed.contains(key) || waiting(open@, key),
            forall|k: int| 0 <= k < open@.len() ==> seen.contains(state_key(#[trigger] open@[k])),
        decreases all.difference(key_set(visited@)).len(), open@.len(),
    {
        let best = pick_best(&open, &goals);
        let ghost open_at_pop = open@;
        let state = open.remove(best);
        let ghost here = state_key(state);
        let ghost held = held_of(state);
        let ghost rest = held_all(open@);
        assert(state_ok(state, tiles@, width, height, strict, starts@));
        assert(state == open_at_pop[best as int]);
        proof {
            lemma_open_fits(open_at_pop, seen, tiles@, width, height, strict, starts@);
            lemma_searched_step(
                held_all(open_at_pop),
                seen,
                tiles@,
                width,
                height,
                strict,
                starts@,
                goals@,
            );
            assert(held_all(open_at_pop)[best as int] == held);
            assert(rest =~= held_all(open_at_pop).remove(best as int));
        }
        if same_cells(&state.positions, &goals) {
            proof {
                lemma_goal_state_solves(state, tiles@, width, height, strict, starts@, goals@);
                if starts@.len() == 1 {
                    let found = rows(state.paths@);
                    assert(found[0].len() == state.timestep + 1);
                    assert forall|other: Seq<Seq<Coordinate>>| #[trigger]
                        solves(other, tiles@, width, height, strict, starts@, goals@) implies plan_len(
                        found,
                    ) <= plan_len(other) by {
                        lemma_first_goal_is_nearest(
                            other,
                            open_at_pop,
                            best as int,
                            seen,
                            closed,
                            tiles@,
                            width,
                            height,
                            strict,
                            starts@,
                            goals@,
                        );
                    }
                }
            }
            return Some(into_paths(state.paths));
        }
        proof {
            assert(seen.contains(state_key(open_at_pop[best as int])));
            lemma_popped(open_at_pop, best as int, open@, seen, closed);
        }
        if state.timestep < u32::MAX {
            let moves = options_per_agent(tiles, width, height, strict, &state.positions);
            let joint = joint_moves(&moves);
            let ghost seen_before = key_set(visited@);
            let ghost open_before = open@.len();
            let mut m: usize = 0;
            while m < joint.len()
                invariant
                    m <= joint@.len(),
                    held == held_of(state),
                    seen.subset_of(all),
                    expanded_by(held, rows(joint@), m as int, rest, seen_before) == (
                        held_all(open@),
                        seen,
                    ),
                    starts@ == starts_of(agents@),
                    all == universe(width, height, starts@),
                    all.finite(),
                    state.timestep < u32::MAX,
                    here == state_key(state),
                    state_ok(state, tiles@, width, height, strict, starts@),
                    rows(moves@) == all_options(tiles@, width, height, strict, state.positions@),
                    rows(joint@) == product(rows(moves@)),
                    forall|k: int|
                        0 <= k < open@.len() ==> state_ok(
                            #[trigger] open@[k],
                            tiles@,
                            width,
                            height,
                            strict,
                            starts@,
                        ),
                    open@.len() >= open_before,
                    all.difference(key_set(visited@)).len() + (open@.len() - open_before)
                        == all.difference(seen_before).len(),
                    seen == key_set(visited@),
                    seen.contains((starts@, 0int)),
                    seen.contains(here),
                    closed_ok(closed, seen, goals@, tiles@, width, height, strict),
                    forall|key: (Seq<Coordinate>, int)| #[trigger]
                        seen.contains(key) ==> closed.contains(key) || key == here || waiting(
                            open@,
                            key,
                        ),
                    forall|k: int| 0 <= k < open@.len() ==> seen.contains(state_key(#[trigger] open@[k])),
                    forall|k: int|
                        0 <= k < m && feasible(
                            tiles@,
                            width,
                            height,
                            strict,
                            state.positions@,
                            #[trigger] rows(joint@)[k],
                        ) ==> seen.contains((rows(joint@)[k], state.timestep + 1)),
                decreases joint@.len() - m,
            {
                let next = &joint[m];
                proof {
                    lemma_product_picks(rows(moves@), m as int);
                    assert(rows(joint@)[m as int] == next@);
                }
                if apart(next) && swap_free(&state.positions, next) && !was_visited(
                    &visited,
                    next,
                    state.timestep + 1,
                ) {
                    let ghost key = (next@, state.timestep + 1);
                    let ghost open_now = open@;
                    let new_paths = extend_paths(&state.paths, next);
                    let successor = GlobalState {
                        positions: copy_cells(next),
                        paths: new_paths,
                        cost: state.cost + 1,
                        timestep: state.timestep + 1,
                    };
                    proof {
                        lemma_extended_plan_ok(
                            rows(state.paths@),
                            state.positions@,
                            next@,
                            rows(successor.paths@),
                            tiles@,
                            width,
                            height,
                            strict,
                            starts@,
                            state.timestep + 1,
                        );
                        assert forall|i: int| 0 <= i < starts@.len() implies #[trigger] successor.positions@[i]
                            == rows(successor.paths@)[i][successor.timestep as int] by {
                            assert(rows(successor.paths@)[i] == rows(state.paths@)[i].push(next@[i]));
                        }
                        assert(state_ok(successor, tiles@, width, height, strict, starts@));
                        assert(seqs_over(cell_alphabet(width, height, starts@), starts@.len()).contains(
                            next@,
                        ));
                        assert(set_int_range(0, 0x1_0000_0000).contains(key.1));
                        assert(all.contains(key));
                        lemma_fewer_left(all, seen, key);
                    }
                    let fresh = VisitKey { positions: copy_cells(next), timestep: state.timestep + 1 };
                    proof {
                        lemma_key_set_push(visited@, fresh);
                        lemma_closed_ok_grows(
                            closed,
                            seen,
                            seen.insert(key),
                            goals@,
                            tiles@,
                            width,
                            height,
                            strict,
                        );
                        lemma_pushed(open_now, successor, seen, closed, here);
                        seen = seen.insert(key);
                    }
                    visited.push(fresh);
                    open.push(successor);
                    assert(open@ == open_now.push(successor));
                    assert(state_key(successor) == key);
                    proof {
                        assert(held_of(successor).plan =~= self::successor(held, next@).plan);
                        assert(held_all(open@) =~= held_all(open_now).push(
                            self::successor(held, next@),
                        ));
                    }
                }
                m += 1;
            }
            proof {
                lemma_all_moves_tried(rows(joint@), seen, here, tiles@, width, height, strict);
            }
        }
        proof {
            lemma_closed_one_more(closed, seen, here, open@, goals@, tiles@, width, height, strict);
            closed = closed.insert(here);
        }
    }
    proof {
        assert forall|key: (Seq<Coordinate>, int)| #[trigger] seen.contains(key) implies closed.contains(
            key,
        ) by {
            if !closed.contains(key) {
                assert(waiting(open@, key));
            }
        }
        assert(seen.subset_of(closed));
        lemma_closed_ok_grows(closed, seen, closed, goals@, tiles@, width, height, strict);
        assert forall|plan: Seq<Seq<Coordinate>>| #[trigger]
            solves(plan, tiles@, width, height, strict, starts@, goals@) implies plan_len(plan)
            > horizon() by {
            lemma_nothing_left(plan, closed, tiles@, width, height, strict, starts@, goals@);
        }
    }
    None
}

/// Centralized A* MAPF solver using Grid, on which the tile value 1 is
/// passable.
///
/// The result is what `searched` says of the grid's tiles, read strictly. A
/// plan that is returned solves the problem. A plan is returned if one of at
/// most `horizon()` timesteps solves the problem, and none is returned only
/// if there is no such plan.
pub fn solve_mapf_centralized_grid(grid: &Grid, agents: &[Task]) -> (result: Option<Vec<Path>>)
    ensures
        result matches Some(paths) ==> solves(
            plan_of(paths@),
            grid.tiles(),
            grid.width,
            grid.height,
            true,
            starts_of(agents@),
            goals_of(agents@),
        ),
        !starts_open(grid.tiles(), grid.width, grid.height, true, starts_of(agents@))
            ==> result is None,
        !all_apart(starts_of(agents@)) ==> result is None,
        result is None ==> forall|plan: Seq<Seq<Coordinate>>| #[trigger]
            solves(
                plan,
                grid.tiles(),
                grid.width,
                grid.height,
                true,
                starts_of(agents@),
                goals_of(agents@),
            ) ==> plan_len(plan) > horizon(),
        solvable(
            grid.tiles(),
            grid.width,
            grid.height,
            true,
            starts_of(agents@),
            goals_of(agents@),
        ) ==> result is Some,
        match searched(grid.tiles(), grid.width, grid.height, true, agents@) {
            Some(plan) => result matches Some(paths) && plan_of(paths@) == plan,
            None => result is None,
        },
        agents@.len() == 1 ==> (result matches Some(paths) ==> shortest_plan(
            plan_of(paths@),
            grid.tiles(),
            grid.width,
            grid.height,
            true,
            starts_of(agents@),
            goals_of(agents@),
        )),
{
    search(grid.data(), grid.width, grid.height, true, agents)
}

/// Centralized A* MAPF solver on raw map data, on which every tile value
/// but 0 is passable.
///
/// The result is what `searched` says of the map, read loosely. A plan that
/// is returned solves the problem. A plan is returned if one of at most
/// `horizon()` timesteps solves the problem, and none is returned only if
/// there is no such plan.
pub fn solve_mapf_centralized(map: &[u8], width: u32, height: u32, agents: &[Task]) -> (result:
    Option<Vec<Path>>)
    ensures
        result matches Some(paths) ==> solves(
            plan_of(paths@),
            map@,
            width,
            height,
            false,
            starts_of(agents@),
            goals_of(agents@),
        ),
        !starts_open(map@, width, height, false, starts_of(agents@)) ==> result is None,
        !all_apart(starts_of(agents@)) ==> result is None,
        result is None ==> forall|plan: Seq<Seq<Coordinate>>| #[trigger]
            solves(plan, map@, width, height, false, starts_of(agents@), goals_of(agents@))
                ==> plan_len(plan) > horizon(),
        solvable(map@, width, height, false, starts_of(agents@), goals_of(agents@))
            ==> result is Some,
        match searched(map@, width, height, false, agents@) {
            Some(plan) => result matches Some(paths) && plan_of(paths@) == plan,
            None => result is None,
        },
        agents@.len() == 1 ==> (result matches Some(paths) ==> shortest_plan(
            plan_of(paths@),
            map@,
            width,
            height,
            false,
            starts_of(agents@),
            goals_of(agents@),
        )),
{
    search(map, width, height, false, agents)
}

} // verus!
