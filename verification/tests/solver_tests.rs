//! Tests for the joint-state reference solver and its agreement with the
//! validator.

use mapf_arena::astar::{
    astar_single, heuristic, neighbors, neighbors_grid, ActionType, Coordinate, Grid, Path,
};
use mapf_arena::conformance::{to_coordinates, to_grid_map, to_solution};
use mapf_arena::coordinator::{cost_of, makespan_of};
use mapf_arena::joint::{solve_mapf_centralized, solve_mapf_centralized_grid};
use mapf_arena::prioritized::{
    get_prioritized_actions, get_prioritized_actions_grid, has_conflict, solve_mapf,
    solve_mapf_grid, Action,
};
use mapf_arena::validation::validate_solution;

type Task = ((u32, u32), (u32, u32));

fn starts_of(agents: &[Task]) -> Vec<Coordinate> {
    agents.iter().map(|&((x, y), _)| Coordinate { x, y }).collect()
}

fn goals_of(agents: &[Task]) -> Vec<Coordinate> {
    agents.iter().map(|&(_, (x, y))| Coordinate { x, y }).collect()
}

fn assert_valid(paths: &Vec<Path>, grid: &Grid, agents: &[Task]) {
    let solution = to_solution(paths).unwrap();
    let starts = to_coordinates(&starts_of(agents)).unwrap();
    let goals = to_coordinates(&goals_of(agents)).unwrap();
    let result = validate_solution(&solution, &to_grid_map(grid), &starts, &goals);
    let details: Vec<&String> = result.errors.iter().map(|e| &e.details).collect();
    assert!(result.valid, "plan is not valid: {:?}", details);
    assert!(result.errors.is_empty());
}

#[test]
fn straight_line_single_agent() {
    let grid = Grid::from_raw(&[1; 9], 3, 3);
    let agents = [((0, 0), (2, 0))];
    let paths = solve_mapf_centralized_grid(&grid, &agents).unwrap();
    assert_eq!(paths.len(), 1);
    assert_eq!(paths[0].steps.len(), 3);
    assert_valid(&paths, &grid, &agents);
    let solution = to_solution(&paths).unwrap();
    assert_eq!(cost_of(&solution.paths), 3);
    assert_eq!(makespan_of(&solution.paths), 3);
}

#[test]
fn single_agent_around_obstacle() {
    let grid = Grid::from_raw(&[1, 1, 1, 1, 0, 1, 1, 1, 1], 3, 3);
    let agents = [((0, 1), (2, 1))];
    let paths = solve_mapf_centralized_grid(&grid, &agents).unwrap();
    assert_eq!(paths[0].steps.len(), 5);
    assert!(!paths[0].steps.contains(&Coordinate { x: 1, y: 1 }));
    assert!(paths[0].steps.iter().all(|c| c.y == 0) || paths[0].steps.iter().any(|c| c.y != 1));
    assert_valid(&paths, &grid, &agents);
}

#[test]
fn two_agents_swap_ends_of_a_row_with_a_bay() {
    // .....
    // ##.##
    let grid = Grid::from_raw(&[1, 1, 1, 1, 1, 0, 0, 1, 0, 0], 5, 2);
    let agents = [((0, 0), (4, 0)), ((4, 0), (0, 0))];
    let paths = solve_mapf_centralized_grid(&grid, &agents).unwrap();
    assert_eq!(paths.len(), 2);
    assert_eq!(paths[0].steps.len(), paths[1].steps.len());
    assert_valid(&paths, &grid, &agents);
    assert!(paths.iter().any(|p| p.steps.contains(&Coordinate { x: 2, y: 1 })));
}

#[test]
fn two_agents_cross_on_an_open_grid() {
    let grid = Grid::from_raw(&[1; 9], 3, 3);
    let agents = [((0, 1), (2, 1)), ((1, 0), (1, 2))];
    let paths = solve_mapf_centralized_grid(&grid, &agents).unwrap();
    assert_valid(&paths, &grid, &agents);
    assert_eq!(paths[0].steps.first(), Some(&Coordinate { x: 0, y: 1 }));
    assert_eq!(paths[1].steps.last(), Some(&Coordinate { x: 1, y: 2 }));
}

#[test]
fn agents_on_their_goals_do_not_move() {
    let grid = Grid::from_raw(&[1; 4], 2, 2);
    let agents = [((0, 0), (0, 0)), ((1, 1), (1, 1))];
    let paths = solve_mapf_centralized_grid(&grid, &agents).unwrap();
    assert_eq!(paths[0].steps, vec![Coordinate { x: 0, y: 0 }]);
    assert_eq!(paths[1].steps, vec![Coordinate { x: 1, y: 1 }]);
    let prioritized = solve_mapf_grid(&grid, &agents).unwrap();
    assert_eq!(prioritized[0].steps, vec![Coordinate { x: 0, y: 0 }]);
    assert_eq!(prioritized[1].steps, vec![Coordinate { x: 1, y: 1 }]);
}

#[test]
fn no_agents_give_the_empty_plan() {
    let grid = Grid::from_raw(&[1; 4], 2, 2);
    let paths = solve_mapf_centralized_grid(&grid, &[]).unwrap();
    assert!(paths.is_empty());
}

#[test]
fn raw_map_takes_every_tile_but_zero_for_passable() {
    // The tile value 2 is open on raw data, blocked on a grid.
    let map = [1, 2, 1];
    let agents = [((0, 0), (2, 0))];
    let paths = solve_mapf_centralized(&map, 3, 1, &agents).unwrap();
    assert_eq!(
        paths[0].steps,
        vec![Coordinate { x: 0, y: 0 }, Coordinate { x: 1, y: 0 }, Coordinate { x: 2, y: 0 }]
    );
    let grid = Grid::from_raw(&map, 3, 1);
    assert!(!grid.is_passable(1, 0));
    assert!(grid.is_passable(0, 0));
    assert!(grid.in_bounds(2, 0));
    assert!(!grid.in_bounds(3, 0));
    assert!(!grid.is_passable(3, 0));
    assert_eq!(grid.data(), &map);
}

#[test]
fn grid_with_short_data_has_blocked_cells() {
    let grid = Grid::from_raw(&[1, 1], 2, 2);
    assert!(grid.is_passable(1, 0));
    assert!(!grid.is_passable(0, 1));
}

#[test]
fn prioritized_plan_on_a_grid_leads_to_the_goals() {
    let grid = Grid::from_raw(&[1; 25], 5, 5);
    let agents = [((0, 0), (4, 4)), ((4, 0), (0, 4))];
    let paths = solve_mapf_grid(&grid, &agents).unwrap();
    assert_eq!(paths.len(), 2);
    for (path, &(start, goal)) in paths.iter().zip(agents.iter()) {
        assert!(path.is_valid_cardinal());
        assert_eq!(path.steps.first(), Some(&Coordinate { x: start.0, y: start.1 }));
        assert_eq!(path.steps.last(), Some(&Coordinate { x: goal.0, y: goal.1 }));
    }
}

#[test]
fn prioritized_planner_gives_up_in_a_dead_end() {
    // A corridor of one row: the agents cannot pass each other.
    let grid = Grid::from_raw(&[1; 3], 3, 1);
    let agents = [((0, 0), (2, 0)), ((2, 0), (0, 0))];
    assert!(solve_mapf_grid(&grid, &agents).is_none());
}

#[test]
fn path_cost_counts_moves() {
    assert_eq!(Path { steps: vec![] }.cost(), 0);
    assert_eq!(Path { steps: vec![Coordinate { x: 1, y: 1 }] }.cost(), 0);
    let two = Path { steps: vec![Coordinate { x: 1, y: 1 }, Coordinate { x: 1, y: 1 }] };
    assert_eq!(two.cost(), 1);
    assert!(two.is_valid_cardinal());
    let far = Path { steps: vec![Coordinate { x: 0, y: 0 }, Coordinate { x: u32::MAX, y: 0 }] };
    assert!(!far.is_valid_cardinal());
}

#[test]
fn single_agent_search_finds_a_shortest_path_or_none() {
    // ..#..
    // .##..
    // .....
    let map = [1, 1, 0, 1, 1, 1, 0, 0, 1, 1, 1, 1, 1, 1, 1];
    let path = astar_single(&map, 5, 3, (1, 0), (3, 0)).unwrap();
    assert_eq!(path.steps.len(), 9);
    assert!(path.is_valid_cardinal());
    assert_eq!(path.steps.first(), Some(&Coordinate { x: 1, y: 0 }));
    assert_eq!(path.steps.last(), Some(&Coordinate { x: 3, y: 0 }));
    // #.#
    // .#.   the middle column is cut off from both sides
    let cut = [0, 1, 0, 1, 0, 1];
    assert!(astar_single(&cut, 3, 2, (0, 1), (2, 1)).is_none());
    assert!(astar_single(&cut, 3, 2, (1, 0), (0, 1)).is_none());
    // Start and goal must have the tile value 1; between them any value but 0 will do.
    assert!(astar_single(&[1, 7, 1], 3, 1, (0, 0), (2, 0)).is_some());
    assert!(astar_single(&[7, 1, 1], 3, 1, (0, 0), (2, 0)).is_none());
    assert!(astar_single(&[1, 1, 7], 3, 1, (0, 0), (2, 0)).is_none());
    // Tiles that the data does not hold are blocked.
    assert!(astar_single(&[1, 1], 2, 2, (0, 0), (1, 0)).is_some());
    assert!(astar_single(&[1, 1], 2, 2, (0, 0), (1, 1)).is_none());
}

#[test]
fn prioritized_planner_takes_the_best_free_action() {
    let map = [1; 9];
    let at = |x, y| Coordinate { x, y };
    let actions = get_prioritized_actions(at(1, 1), at(2, 1), 3, 3, &map);
    let targets: Vec<Coordinate> = actions.iter().map(|a| a.target).collect();
    // East brings the agent onto its goal; waiting ranks with stepping aside,
    // behind the moves found before it.
    assert_eq!(targets, vec![at(2, 1), at(1, 0), at(1, 2), at(0, 1), at(1, 1)]);
    let ranks: Vec<u64> = actions.iter().map(|a| a.priority).collect();
    assert_eq!(ranks, vec![0, 2, 2, 2, 2]);
    assert_eq!(actions[4].action_type, ActionType::NoOp);
    assert_eq!(actions[0].action_type, ActionType::Move);
    let go = |from, target| Action { action_type: ActionType::Move, from, target, priority: 0 };
    let stay = |c| Action { action_type: ActionType::NoOp, from: c, target: c, priority: 0 };
    assert!(has_conflict(&go(at(0, 0), at(1, 0)), &go(at(2, 0), at(1, 0))));
    assert!(has_conflict(&go(at(0, 0), at(1, 0)), &go(at(1, 0), at(0, 0))));
    assert!(has_conflict(&go(at(0, 0), at(1, 0)), &stay(at(1, 0))));
    assert!(!has_conflict(&go(at(0, 0), at(1, 0)), &go(at(1, 0), at(2, 0))));
    assert!(!has_conflict(&stay(at(0, 0)), &go(at(1, 0), at(2, 0))));
    // Two agents in lanes of their own arrive together.
    let paths = solve_mapf(&map, 3, 3, &[((0, 0), (2, 0)), ((0, 1), (2, 1))]).unwrap();
    assert_eq!(paths[0].steps, vec![at(0, 0), at(1, 0), at(2, 0)]);
    assert_eq!(paths[1].steps, vec![at(0, 1), at(1, 1), at(2, 1)]);
    // An agent on its goal ranks a step aside no worse than waiting and
    // takes it: agents that arrive one after the other never rest together.
    assert!(solve_mapf(&map, 3, 3, &[((0, 0), (2, 0)), ((1, 0), (1, 1))]).is_none());
}

#[test]
fn neighbours_come_north_south_west_east() {
    let at = |x, y| Coordinate { x, y };
    // 1 2 1
    // 1 1 0
    // 1 1 1
    let map = [1, 2, 1, 1, 1, 0, 1, 1, 1];
    let grid = Grid::from_raw(&map, 3, 3);
    assert_eq!(
        neighbors(at(1, 1), 3, 3, &map),
        vec![(at(1, 0), 1), (at(1, 2), 1), (at(0, 1), 1)]
    );
    assert_eq!(neighbors_grid(at(1, 1), &grid), vec![(at(1, 2), 1), (at(0, 1), 1)]);
    assert_eq!(neighbors(at(0, 0), 3, 3, &map), vec![(at(0, 1), 1), (at(1, 0), 1)]);
    assert_eq!(neighbors_grid(at(0, 0), &grid), vec![(at(0, 1), 1)]);
    assert_eq!(neighbors(at(2, 2), 3, 3, &map), vec![(at(1, 2), 1)]);
    assert_eq!(neighbors(at(7, 7), 3, 3, &map), vec![]);
    assert_eq!(neighbors(at(3, 1), 3, 3, &map), vec![]);
    assert_eq!(neighbors(at(u32::MAX, 0), u32::MAX, 1, &map), vec![]);
    assert_eq!(neighbors(at(3, 0), u32::MAX, 1, &map), vec![(at(2, 0), 1), (at(4, 0), 1)]);
    let ranked = get_prioritized_actions_grid(at(1, 1), at(1, 2), &grid);
    let targets: Vec<Coordinate> = ranked.iter().map(|a| a.target).collect();
    assert_eq!(targets, vec![at(1, 2), at(0, 1), at(1, 1)]);
    let ranks: Vec<u64> = ranked.iter().map(|a| a.priority).collect();
    assert_eq!(ranks, vec![0, 2, 2]);
}

#[test]
fn heuristic_is_the_manhattan_distance() {
    let at = |x, y| Coordinate { x, y };
    assert_eq!(heuristic(at(0, 0), at(0, 0)), 0);
    assert_eq!(heuristic(at(1, 5), at(4, 1)), 7);
    assert_eq!(heuristic(at(4, 1), at(1, 5)), 7);
    assert_eq!(heuristic(at(0, 0), at(u32::MAX, u32::MAX)), 2 * (u32::MAX as u64));
}

#[test]
fn agents_that_start_on_one_cell_have_no_plan() {
    let grid = Grid::from_raw(&[1, 1, 1], 3, 1);
    assert!(solve_mapf_centralized_grid(&grid, &[((1, 0), (0, 0)), ((1, 0), (2, 0))]).is_none());
    assert!(solve_mapf_centralized_grid(&grid, &[((1, 0), (1, 0)), ((1, 0), (1, 0))]).is_none());
    assert!(solve_mapf_centralized(&[1, 1, 1], 3, 1, &[((0, 0), (1, 0)), ((0, 0), (2, 0))]).is_none());
}

#[test]
fn an_agent_that_starts_on_a_closed_cell_has_no_plan() {
    let grid = Grid::from_raw(&[1, 0, 2], 3, 1);
    assert!(solve_mapf_centralized_grid(&grid, &[((1, 0), (1, 0))]).is_none());
    assert!(solve_mapf_centralized_grid(&grid, &[((2, 0), (2, 0))]).is_none());
    assert!(solve_mapf_centralized_grid(&grid, &[((3, 0), (0, 0))]).is_none());
    assert!(solve_mapf_centralized(&[1, 0, 2], 3, 1, &[((2, 0), (2, 0))]).is_some());
    assert!(solve_mapf_centralized(&[1, 0, 2], 3, 1, &[((1, 0), (1, 0))]).is_none());
}

#[test]
fn a_single_agent_gets_a_shortest_path() {
    let at = |x, y| Coordinate { x, y };
    let open = Grid::from_raw(&[1; 9], 3, 3);
    let paths = solve_mapf_centralized_grid(&open, &[((0, 0), (2, 0))]).unwrap();
    assert_eq!(paths.len(), 1);
    assert_eq!(paths[0].steps, vec![at(0, 0), at(1, 0), at(2, 0)]);
    let ring = Grid::from_raw(&[1, 1, 1, 1, 0, 1, 1, 1, 1], 3, 3);
    let paths = solve_mapf_centralized_grid(&ring, &[((0, 1), (2, 1))]).unwrap();
    let over = vec![at(0, 1), at(0, 0), at(1, 0), at(2, 0), at(2, 1)];
    let under = vec![at(0, 1), at(0, 2), at(1, 2), at(2, 2), at(2, 1)];
    assert!(paths[0].steps == over || paths[0].steps == under);
}

#[test]
fn an_agent_steps_into_the_pocket_to_let_the_other_pass() {
    let at = |x, y| Coordinate { x, y };
    let grid = Grid::from_raw(&[1, 1, 1, 0, 1, 0], 3, 2);
    let agents = [((0, 0), (2, 0)), ((1, 0), (0, 0))];
    let paths = solve_mapf_centralized_grid(&grid, &agents).unwrap();
    assert_eq!(paths[0].steps, vec![at(0, 0), at(1, 0), at(2, 0), at(2, 0)]);
    assert_eq!(paths[1].steps, vec![at(1, 0), at(1, 1), at(1, 0), at(0, 0)]);
    assert_valid(&paths, &grid, &agents);
}

#[test]
fn both_readings_agree_on_tiles_of_zero_and_one() {
    let map = [1, 1, 1, 0, 1, 0, 1, 1, 1];
    let grid = Grid::from_raw(&map, 3, 3);
    for agents in [
        vec![((0, 0), (2, 2))],
        vec![((0, 0), (2, 0)), ((2, 0), (0, 0))],
        vec![((0, 2), (2, 2)), ((1, 0), (1, 2))],
    ] {
        let loose = solve_mapf_centralized(&map, 3, 3, &agents).unwrap();
        let strict = solve_mapf_centralized_grid(&grid, &agents).unwrap();
        assert_eq!(loose, strict);
    }
}
