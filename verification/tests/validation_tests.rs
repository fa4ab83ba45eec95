//! Tests for the plan validator.

use mapf_arena::validation::{
    is_cardinal_move, validate_no_edge_collisions, validate_no_vertex_collisions,
    validate_path_cardinal, validate_path_on_map, validate_solution, validate_starts_and_goals,
    Coordinate, GridMap, Path, Solution, ValidationErrorType,
};

fn cell(x: i32, y: i32) -> Coordinate {
    Coordinate { x, y }
}

fn path(cells: &[(i32, i32)]) -> Path {
    Path { steps: cells.iter().map(|&(x, y)| cell(x, y)).collect() }
}

fn open_grid(width: u32, height: u32) -> GridMap {
    GridMap { width, height, tiles: vec![1; (width * height) as usize] }
}

#[test]
fn test_cardinal_moves() {
    assert!(is_cardinal_move(&Coordinate { x: 0, y: 0 }, &Coordinate { x: 1, y: 0 }));
    assert!(is_cardinal_move(&Coordinate { x: 0, y: 0 }, &Coordinate { x: 0, y: 1 }));
    assert!(is_cardinal_move(&Coordinate { x: 0, y: 0 }, &Coordinate { x: 0, y: 0 }));
    assert!(!is_cardinal_move(&Coordinate { x: 0, y: 0 }, &Coordinate { x: 1, y: 1 }));
}

#[test]
fn test_empty_path() {
    let path = Path { steps: vec![] };
    let errors = validate_path_cardinal(&path, 0);
    assert_eq!(errors.len(), 1);
    assert!(matches!(errors[0].error_type, ValidationErrorType::EmptyPath));
}

#[test]
fn test_diagonal_move() {
    let path = Path {
        steps: vec![
            Coordinate { x: 0, y: 0 },
            Coordinate { x: 1, y: 1 }, // Diagonal!
        ],
    };
    let errors = validate_path_cardinal(&path, 0);
    assert_eq!(errors.len(), 1);
    assert!(matches!(errors[0].error_type, ValidationErrorType::DiagonalMove));
}

#[test]
fn cardinal_moves_at_the_ends_of_the_number_range() {
    assert!(!is_cardinal_move(&cell(i32::MIN, 0), &cell(i32::MAX, 0)));
    assert!(is_cardinal_move(&cell(i32::MAX, -5), &cell(i32::MAX - 1, -5)));
    assert!(is_cardinal_move(&cell(-1, 0), &cell(0, 0)));
    assert!(!is_cardinal_move(&cell(0, 0), &cell(2, 0)));
    assert!(!is_cardinal_move(&cell(0, 0), &cell(-1, -1)));
}

#[test]
fn empty_path_is_reported_for_its_agent() {
    let errors = validate_path_cardinal(&path(&[]), 7);
    assert_eq!(errors.len(), 1);
    assert_eq!(errors[0].agent_index, 7);
    assert_eq!(errors[0].timestep, None);
    assert_eq!(errors[0].details, "Agent 7 has empty path");
}

#[test]
fn diagonal_move_rejected_with_agent_and_timestep() {
    let plan = Solution { paths: vec![path(&[(0, 0), (1, 1)])] };
    let result = validate_solution(&plan, &open_grid(3, 3), &[cell(0, 0)], &[cell(1, 1)]);
    assert!(!result.valid);
    assert_eq!(result.errors.len(), 1);
    assert_eq!(result.errors[0].error_type, ValidationErrorType::DiagonalMove);
    assert_eq!(result.errors[0].agent_index, 0);
    assert_eq!(result.errors[0].timestep, Some(0));
    assert_eq!(
        result.errors[0].details,
        "Agent 0 made diagonal move from (0,0) to (1,1) at timestep 0"
    );
}

#[test]
fn every_diagonal_move_is_reported() {
    let errors = validate_path_cardinal(&path(&[(0, 0), (1, 1), (1, 2), (3, 2), (3, 2)]), 12);
    assert_eq!(errors.len(), 2);
    assert_eq!(errors[0].timestep, Some(0));
    assert_eq!(errors[1].timestep, Some(2));
    assert_eq!(
        errors[1].details,
        "Agent 12 made diagonal move from (1,2) to (3,2) at timestep 2"
    );
}

#[test]
fn single_step_path_has_no_move_errors() {
    assert!(validate_path_cardinal(&path(&[(4, 4)]), 0).is_empty());
}

#[test]
fn out_of_bounds_steps_are_reported() {
    let grid = open_grid(3, 2);
    let errors = validate_path_on_map(&path(&[(-1, 0), (0, 0), (3, 0), (2, 2), (2, 1)]), 1, &grid);
    assert_eq!(errors.len(), 3);
    for e in &errors {
        assert_eq!(e.error_type, ValidationErrorType::OutOfBounds);
        assert_eq!(e.agent_index, 1);
    }
    assert_eq!(errors[0].timestep, Some(0));
    assert_eq!(errors[0].details, "Agent 1 at (-1,0) is out of bounds at timestep 0");
    assert_eq!(errors[1].timestep, Some(2));
    assert_eq!(errors[2].timestep, Some(3));
    assert_eq!(errors[2].details, "Agent 1 at (2,2) is out of bounds at timestep 3");
}

#[test]
fn blocked_cells_are_reported() {
    let grid = GridMap { width: 3, height: 3, tiles: vec![1, 1, 1, 1, 0, 1, 1, 1, 1] };
    let errors = validate_path_on_map(&path(&[(0, 1), (1, 1), (2, 1)]), 0, &grid);
    assert_eq!(errors.len(), 1);
    assert_eq!(errors[0].error_type, ValidationErrorType::BlockedCell);
    assert_eq!(errors[0].timestep, Some(1));
    assert_eq!(errors[0].details, "Agent 0 at (1,1) is on blocked cell at timestep 1");
}

#[test]
fn tiles_other_than_zero_are_passable() {
    let grid = GridMap { width: 2, height: 1, tiles: vec![7, 255] };
    assert!(validate_path_on_map(&path(&[(0, 0), (1, 0)]), 0, &grid).is_empty());
}

#[test]
fn bounds_hold_on_a_grid_wider_than_the_signed_range() {
    let grid = GridMap { width: u32::MAX, height: 1, tiles: vec![1, 1, 0] };
    let errors = validate_path_on_map(&path(&[(i32::MAX, 0), (2, 0), (0, 1)]), 0, &grid);
    assert_eq!(errors.len(), 2);
    assert_eq!(errors[0].error_type, ValidationErrorType::BlockedCell);
    assert_eq!(errors[0].timestep, Some(1));
    assert_eq!(errors[1].error_type, ValidationErrorType::OutOfBounds);
    assert_eq!(errors[1].timestep, Some(2));
}

#[test]
fn wrong_start_and_goal_are_reported() {
    let paths = vec![path(&[(0, 0), (1, 0)]), path(&[(2, 2)]), path(&[])];
    let starts = [cell(0, 0), cell(1, 2), cell(5, 5)];
    let goals = [cell(2, 0), cell(2, 2), cell(5, 5)];
    let errors = validate_starts_and_goals(&paths, &starts, &goals);
    assert_eq!(errors.len(), 2);
    assert_eq!(errors[0].error_type, ValidationErrorType::InvalidGoal);
    assert_eq!(errors[0].agent_index, 0);
    assert_eq!(errors[0].timestep, Some(1));
    assert_eq!(errors[0].details, "Agent 0 path ends at (1,0) but should end at (2,0)");
    assert_eq!(errors[1].error_type, ValidationErrorType::InvalidStart);
    assert_eq!(errors[1].agent_index, 1);
    assert_eq!(errors[1].timestep, Some(0));
    assert_eq!(errors[1].details, "Agent 1 path starts at (2,2) but should start at (1,2)");
}

#[test]
fn vertex_collision_is_attributed_to_the_higher_agent() {
    let paths = vec![path(&[(0, 0), (1, 0)]), path(&[(2, 0), (1, 0)])];
    let errors = validate_no_vertex_collisions(&paths);
    assert_eq!(errors.len(), 1);
    assert_eq!(errors[0].error_type, ValidationErrorType::VertexCollision);
    assert_eq!(errors[0].agent_index, 1);
    assert_eq!(errors[0].timestep, Some(1));
    assert_eq!(errors[0].details, "Agents 0 and 1 collide at (1,0) at timestep 1");
}

#[test]
fn each_colliding_pair_is_reported_once() {
    let paths = vec![path(&[(1, 1)]), path(&[(1, 1)]), path(&[(1, 1)])];
    let errors = validate_no_vertex_collisions(&paths);
    assert_eq!(errors.len(), 3);
    assert_eq!(errors[0].details, "Agents 0 and 1 collide at (1,1) at timestep 0");
    assert_eq!(errors[1].details, "Agents 0 and 2 collide at (1,1) at timestep 0");
    assert_eq!(errors[2].details, "Agents 1 and 2 collide at (1,1) at timestep 0");
    assert_eq!(errors[0].agent_index, 1);
    assert_eq!(errors[1].agent_index, 2);
    assert_eq!(errors[2].agent_index, 2);
}

#[test]
fn parked_agent_collides_after_its_path_has_ended() {
    // Agent 0 arrives at (1,0) and stays; agent 1 walks onto it two steps later.
    let paths = vec![path(&[(0, 0), (1, 0)]), path(&[(3, 0), (3, 0), (2, 0), (1, 0)])];
    let errors = validate_no_vertex_collisions(&paths);
    assert_eq!(errors.len(), 1);
    assert_eq!(errors[0].timestep, Some(3));
    assert_eq!(errors[0].agent_index, 1);
}

#[test]
fn empty_paths_take_no_part_in_collisions() {
    let paths = vec![path(&[]), path(&[(0, 0), (1, 0)]), path(&[])];
    assert!(validate_no_vertex_collisions(&paths).is_empty());
    assert!(validate_no_edge_collisions(&paths).is_empty());
}

#[test]
fn edge_collision_is_reported_for_a_swap() {
    let paths = vec![path(&[(0, 0), (1, 0)]), path(&[(1, 0), (0, 0)])];
    let errors = validate_no_edge_collisions(&paths);
    assert_eq!(errors.len(), 1);
    assert_eq!(errors[0].error_type, ValidationErrorType::EdgeCollision);
    assert_eq!(errors[0].agent_index, 0);
    assert_eq!(errors[0].timestep, Some(0));
    assert_eq!(errors[0].details, "Agents 0 and 1 swap positions between timesteps 0 and 1");
    assert!(validate_no_vertex_collisions(&paths).is_empty());
}

#[test]
fn head_on_plan_without_wait_on_an_odd_row_collides() {
    // 5x1 open row, A: (0,0)->(4,0), B: (4,0)->(0,0), nobody waits.
    let plan = Solution {
        paths: vec![
            path(&[(0, 0), (1, 0), (2, 0), (3, 0), (4, 0)]),
            path(&[(4, 0), (3, 0), (2, 0), (1, 0), (0, 0)]),
        ],
    };
    let starts = [cell(0, 0), cell(4, 0)];
    let goals = [cell(4, 0), cell(0, 0)];
    let result = validate_solution(&plan, &open_grid(5, 1), &starts, &goals);
    assert!(!result.valid);
    assert_eq!(result.errors.len(), 1);
    assert_eq!(result.errors[0].error_type, ValidationErrorType::VertexCollision);
    assert_eq!(result.errors[0].timestep, Some(2));
}

#[test]
fn head_on_plan_without_wait_on_an_even_row_swaps() {
    let plan = Solution {
        paths: vec![
            path(&[(0, 0), (1, 0), (2, 0), (3, 0)]),
            path(&[(3, 0), (2, 0), (1, 0), (0, 0)]),
        ],
    };
    let starts = [cell(0, 0), cell(3, 0)];
    let goals = [cell(3, 0), cell(0, 0)];
    let result = validate_solution(&plan, &open_grid(4, 1), &starts, &goals);
    assert!(!result.valid);
    assert_eq!(result.errors.len(), 1);
    assert_eq!(result.errors[0].error_type, ValidationErrorType::EdgeCollision);
    assert_eq!(result.errors[0].agent_index, 0);
    assert_eq!(result.errors[0].timestep, Some(1));
    assert_eq!(
        result.errors[0].details,
        "Agents 0 and 1 swap positions between timesteps 1 and 2"
    );
}

#[test]
fn valid_plan_around_an_obstacle() {
    let grid = GridMap { width: 3, height: 3, tiles: vec![1, 1, 1, 1, 0, 1, 1, 1, 1] };
    let plan = Solution { paths: vec![path(&[(0, 1), (0, 0), (1, 0), (2, 0), (2, 1)])] };
    let result = validate_solution(&plan, &grid, &[cell(0, 1)], &[cell(2, 1)]);
    assert!(result.valid);
    assert!(result.errors.is_empty());
    let through = Solution { paths: vec![path(&[(0, 1), (1, 1), (2, 1)])] };
    let result = validate_solution(&through, &grid, &[cell(0, 1)], &[cell(2, 1)]);
    assert!(!result.valid);
    assert_eq!(result.errors.len(), 1);
    assert_eq!(result.errors[0].error_type, ValidationErrorType::BlockedCell);
}

#[test]
fn all_violations_are_collected_in_order() {
    let grid = GridMap { width: 2, height: 2, tiles: vec![1, 0, 1, 1] };
    let plan = Solution {
        paths: vec![path(&[(0, 0), (1, 1), (1, 0)]), path(&[]), path(&[(1, 0), (1, 1), (5, 1)])],
    };
    let starts = [cell(0, 0), cell(0, 1), cell(0, 1)];
    let goals = [cell(0, 0), cell(0, 1), cell(5, 1)];
    let result = validate_solution(&plan, &grid, &starts, &goals);
    assert!(!result.valid);
    let kinds: Vec<ValidationErrorType> = result.errors.iter().map(|e| e.error_type).collect();
    assert_eq!(
        kinds,
        vec![
            ValidationErrorType::DiagonalMove,
            ValidationErrorType::BlockedCell,
            ValidationErrorType::EmptyPath,
            ValidationErrorType::DiagonalMove,
            ValidationErrorType::BlockedCell,
            ValidationErrorType::OutOfBounds,
            ValidationErrorType::InvalidGoal,
            ValidationErrorType::InvalidStart,
            ValidationErrorType::VertexCollision,
        ]
    );
    let agents: Vec<usize> = result.errors.iter().map(|e| e.agent_index).collect();
    assert_eq!(agents, vec![0, 0, 1, 2, 2, 2, 0, 2, 2]);
    assert_eq!(result.errors[8].timestep, Some(1));
}

#[test]
fn a_single_path_is_not_checked_for_collisions() {
    let plan = Solution { paths: vec![path(&[(0, 0), (0, 0)])] };
    let result = validate_solution(&plan, &open_grid(1, 1), &[cell(0, 0)], &[cell(0, 0)]);
    assert!(result.valid);
}

#[test]
fn validation_gives_the_same_result_twice() {
    let grid = open_grid(4, 1);
    let plan = Solution {
        paths: vec![path(&[(0, 0), (1, 0), (2, 0)]), path(&[(2, 0), (1, 0), (-1, 0)])],
    };
    let starts = [cell(0, 0), cell(2, 0)];
    let goals = [cell(3, 0), cell(0, 0)];
    let first = validate_solution(&plan, &grid, &starts, &goals);
    let second = validate_solution(&plan, &grid, &starts, &goals);
    assert_eq!(first.valid, second.valid);
    assert_eq!(first.errors.len(), second.errors.len());
    for (a, b) in first.errors.iter().zip(second.errors.iter()) {
        assert_eq!(a.error_type, b.error_type);
        assert_eq!(a.agent_index, b.agent_index);
        assert_eq!(a.timestep, b.timestep);
        assert_eq!(a.details, b.details);
    }
}
