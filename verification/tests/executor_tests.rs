//! Tests for the decisions around a sandboxed run and for the coordinator.

use mapf_arena::coordinator::{
    check_module_size, check_submission, cost_of, fingerprint, grid_of, hex_lower, makespan_of,
    record_of, submit_response, summarize, verify_outcome, MapData, SubmitRequest,
};
use mapf_arena::error::AppError;
use mapf_arena::executor::{
    advance, classify_trap, fuel_consumed, pairs_from_coordinates, plan_from_pairs,
    ExecutionLimits, ExecutionPhase, GuestEvent, SolverResult, SolverStats,
};
use mapf_arena::validation::{Coordinate, GridMap, Path, Solution, ValidationErrorType};

fn limits() -> ExecutionLimits {
    ExecutionLimits { timeout_secs: 30, fuel_limit: 10_000_000_000 }
}

fn cell(x: i32, y: i32) -> Coordinate {
    Coordinate { x, y }
}

fn grid(width: u32, height: u32) -> GridMap {
    GridMap { width, height, tiles: vec![1; (width * height) as usize] }
}

fn ran(pairs: Vec<Vec<(i32, i32)>>) -> SolverResult {
    let (phase, result) =
        advance(ExecutionPhase::Running, GuestEvent::Returned(pairs), &limits(), Some(9_999_999_000), 12);
    assert_eq!(phase, ExecutionPhase::Returned);
    result.unwrap()
}

#[test]
fn a_run_goes_through_its_phases() {
    let l = limits();
    let (phase, result) = advance(ExecutionPhase::Loading, GuestEvent::Loaded, &l, Some(5), 0);
    assert_eq!(phase, ExecutionPhase::Instantiating);
    assert!(result.is_none());
    let (phase, result) = advance(phase, GuestEvent::Instantiated, &l, Some(5), 1);
    assert_eq!(phase, ExecutionPhase::Running);
    assert!(result.is_none());
    let (phase, result) =
        advance(phase, GuestEvent::Returned(vec![vec![(0, 0), (1, 0)]]), &l, Some(9_999_999_990), 7);
    assert_eq!(phase, ExecutionPhase::Returned);
    let result = result.unwrap();
    assert!(result.error.is_none());
    assert_eq!(result.stats.instruction_count, Some(10));
    assert_eq!(result.stats.fuel_consumed, Some(10));
    assert_eq!(result.stats.execution_time_ms, 7);
    let plan = result.solution.unwrap();
    assert_eq!(plan.paths.len(), 1);
    assert_eq!(plan.paths[0].steps, vec![cell(0, 0), cell(1, 0)]);
}

#[test]
fn final_phases_take_no_event() {
    let l = limits();
    for phase in [
        ExecutionPhase::Returned,
        ExecutionPhase::TrappedTimeout,
        ExecutionPhase::TrappedFuel,
        ExecutionPhase::TrappedOther,
        ExecutionPhase::Refused,
    ] {
        let (next, result) = advance(phase, GuestEvent::Loaded, &l, None, 0);
        assert_eq!(next, phase);
        assert!(result.is_none());
        let (next, result) = advance(phase, GuestEvent::Trapped("fuel".to_string()), &l, None, 0);
        assert_eq!(next, phase);
        assert!(result.is_none());
    }
}

#[test]
fn events_out_of_turn_change_nothing() {
    let l = limits();
    let (next, result) = advance(ExecutionPhase::Loading, GuestEvent::Instantiated, &l, None, 0);
    assert_eq!(next, ExecutionPhase::Loading);
    assert!(result.is_none());
    let (next, result) = advance(ExecutionPhase::Running, GuestEvent::LoadFailed, &l, None, 0);
    assert_eq!(next, ExecutionPhase::Running);
    assert!(result.is_none());
}

#[test]
fn a_module_that_cannot_be_used_is_refused() {
    let l = limits();
    let (phase, result) = advance(ExecutionPhase::Loading, GuestEvent::LoadFailed, &l, Some(l.fuel_limit), 3);
    assert_eq!(phase, ExecutionPhase::Refused);
    let result = result.unwrap();
    assert_eq!(result.error.as_deref(), Some("Failed to load WASM component"));
    assert_eq!(result.stats.instruction_count, Some(0));
    assert!(result.solution.is_none());
    let (phase, result) =
        advance(ExecutionPhase::Instantiating, GuestEvent::InstantiateFailed, &l, None, 3);
    assert_eq!(phase, ExecutionPhase::Refused);
    assert_eq!(result.unwrap().error.as_deref(), Some("Failed to instantiate component"));
    let (phase, result) = advance(ExecutionPhase::Instantiating, GuestEvent::ExportMissing, &l, None, 3);
    assert_eq!(phase, ExecutionPhase::Refused);
    assert_eq!(result.unwrap().error.as_deref(), Some("Failed to get solve function"));
}

#[test]
fn a_solver_may_decline() {
    let (phase, result) = advance(
        ExecutionPhase::Running,
        GuestEvent::Declined("no path".to_string()),
        &limits(),
        Some(1),
        4,
    );
    assert_eq!(phase, ExecutionPhase::Returned);
    let result = result.unwrap();
    assert_eq!(result.error.as_deref(), Some("no path"));
    assert!(result.solution.is_none());
}

#[test]
fn sandbox_timeout_is_reported() {
    let l = ExecutionLimits { timeout_secs: 2, fuel_limit: 1000 };
    let (phase, result) = advance(
        ExecutionPhase::Running,
        GuestEvent::Trapped("wasm trap: interrupt\nepoch deadline reached".to_string()),
        &l,
        Some(400),
        2003,
    );
    assert_eq!(phase, ExecutionPhase::TrappedTimeout);
    let result = result.unwrap();
    let error = result.error.unwrap();
    assert!(error.contains("timeout"));
    assert_eq!(error, "Solver timeout after 2s");
    assert!(result.stats.execution_time_ms >= 2 * 1000);
    assert_eq!(result.stats.instruction_count, Some(600));
}

#[test]
fn sandbox_fuel_exhaustion_is_reported() {
    let l = ExecutionLimits { timeout_secs: 30, fuel_limit: 5000 };
    let (phase, result) = advance(
        ExecutionPhase::Running,
        GuestEvent::Trapped("all fuel consumed by WebAssembly".to_string()),
        &l,
        Some(0),
        15,
    );
    assert_eq!(phase, ExecutionPhase::TrappedFuel);
    let result = result.unwrap();
    let error = result.error.unwrap();
    assert!(error.contains("instruction limit"));
    assert_eq!(error, "Solver exceeded instruction limit");
    assert_eq!(result.stats.instruction_count, Some(5000));
}

#[test]
fn traps_are_classified_by_their_message() {
    assert_eq!(classify_trap("deadline has passed", 30).0, ExecutionPhase::TrappedTimeout);
    assert_eq!(classify_trap("epoch", 30).1, "Solver timeout after 30s");
    assert_eq!(classify_trap("out of fuel at epoch 3", 1).0, ExecutionPhase::TrappedTimeout);
    assert_eq!(classify_trap("fuel", 30).0, ExecutionPhase::TrappedFuel);
    let (phase, text) = classify_trap("unreachable executed", 30);
    assert_eq!(phase, ExecutionPhase::TrappedOther);
    assert_eq!(text, "Execution error: unreachable executed");
    assert_eq!(classify_trap("", 0).1, "Execution error: ");
    assert_eq!(classify_trap("Fuel", 0).0, ExecutionPhase::TrappedOther);
    assert_eq!(classify_trap("epoch", u64::MAX).1, "Solver timeout after 18446744073709551615s");
}

#[test]
fn consumed_instructions_never_exceed_the_limit() {
    assert_eq!(fuel_consumed(100, Some(40)), 60);
    assert_eq!(fuel_consumed(100, Some(100)), 0);
    assert_eq!(fuel_consumed(100, Some(0)), 100);
    assert_eq!(fuel_consumed(100, None), 100);
    assert_eq!(fuel_consumed(100, Some(101)), 0);
    assert_eq!(fuel_consumed(0, Some(u64::MAX)), 0);
}

#[test]
fn coordinates_cross_the_boundary_as_pairs() {
    assert_eq!(pairs_from_coordinates(&[cell(1, 2), cell(-3, 4)]), vec![(1, 2), (-3, 4)]);
    let plan = plan_from_pairs(&vec![vec![(0, 0), (0, -1)], vec![]]);
    assert_eq!(plan.paths.len(), 2);
    assert_eq!(plan.paths[0].steps, vec![cell(0, 0), cell(0, -1)]);
    assert!(plan.paths[1].steps.is_empty());
}

#[test]
fn negative_coordinates_are_caught_by_validation() {
    let result = ran(vec![vec![(0, 0), (-1, 0)]]);
    let response = verify_outcome(result, &grid(2, 1), &[cell(0, 0)], &[cell(-1, 0)]).unwrap();
    assert!(!response.valid);
    assert_eq!(response.validation_errors.len(), 1);
    assert_eq!(response.validation_errors[0].error_type, ValidationErrorType::OutOfBounds);
    assert_eq!(response.stats.cost, None);
    assert_eq!(response.stats.makespan, None);
    assert!(response.error.is_none());
    assert!(response.solution.is_some());
}

#[test]
fn valid_plan_reports_cost_and_makespan() {
    let result = ran(vec![vec![(0, 0), (1, 0), (2, 0)], vec![(0, 1)]]);
    let starts = [cell(0, 0), cell(0, 1)];
    let goals = [cell(2, 0), cell(0, 1)];
    let response = verify_outcome(result, &grid(3, 2), &starts, &goals).unwrap();
    assert!(response.valid);
    assert!(response.validation_errors.is_empty());
    assert_eq!(response.stats.cost, Some(4));
    assert_eq!(response.stats.makespan, Some(3));
    assert_eq!(response.stats.instruction_count, Some(1000));
    assert_eq!(response.stats.execution_time_ms, 12);
}

#[test]
fn a_failed_run_is_answered_with_its_error() {
    let (_, result) = advance(
        ExecutionPhase::Running,
        GuestEvent::Trapped("fuel".to_string()),
        &limits(),
        Some(0),
        9,
    );
    let response = verify_outcome(result.unwrap(), &grid(1, 1), &[], &[]).unwrap();
    assert!(!response.valid);
    assert!(response.solution.is_none());
    assert!(response.validation_errors.is_empty());
    assert_eq!(response.error.as_deref(), Some("Solver exceeded instruction limit"));
    assert_eq!(response.stats.cost, None);
    assert_eq!(response.stats.instruction_count, Some(10_000_000_000));
}

#[test]
fn a_result_without_plan_and_error_is_a_failure() {
    let result = SolverResult {
        solution: None,
        error: None,
        stats: SolverStats { instruction_count: None, execution_time_ms: 0, fuel_consumed: None },
    };
    let error = verify_outcome(result, &grid(1, 1), &[], &[]).unwrap_err();
    match &error {
        AppError::WasmExecution(m) => assert_eq!(m, "Solver returned no solution and no error"),
        other => panic!("unexpected error: {:?}", other),
    }
    assert_eq!(error.message(), "WASM execution error: Solver returned no solution and no error");
    assert_eq!(error.into_response(), (400, "Solver returned no solution and no error".to_string()));
}

#[test]
fn cost_is_the_sum_and_makespan_the_maximum_of_path_lengths() {
    let paths = vec![
        Path { steps: vec![cell(0, 0); 4] },
        Path { steps: vec![] },
        Path { steps: vec![cell(1, 1); 7] },
    ];
    assert_eq!(cost_of(&paths), 11);
    assert_eq!(makespan_of(&paths), 7);
    assert_eq!(cost_of(&[]), 0);
    assert_eq!(makespan_of(&[]), 0);
}

#[test]
fn module_size_is_checked_against_the_limit() {
    assert!(check_module_size(10 * 1024 * 1024, 10).is_ok());
    assert!(check_module_size(0, 0).is_ok());
    match check_module_size(10 * 1024 * 1024 + 1, 10) {
        Err(AppError::BadRequest(m)) => {
            assert_eq!(m, "WASM file too large: 10485761 bytes (max: 10 MB)")
        }
        other => panic!("unexpected: {:?}", other),
    }
    assert!(check_module_size(1, 0).is_err());
    assert!(check_module_size(usize::MAX, usize::MAX).is_ok());
}

fn submission(solver: &str, map: &str, scenario: &str, bytes: usize) -> SubmitRequest {
    SubmitRequest {
        solver_name: solver.to_string(),
        map_name: map.to_string(),
        scenario_id: scenario.to_string(),
        wasm_bytes: vec![0; bytes],
        map: MapData { width: 1, height: 1, tiles: vec![1] },
        starts: vec![],
        goals: vec![],
    }
}

#[test]
fn a_submission_needs_its_three_names() {
    assert!(check_submission(&submission("s", "m", "1", 8), 1).is_ok());
    for req in [submission("", "m", "1", 8), submission("s", "", "1", 8), submission("s", "m", "", 8)] {
        match check_submission(&req, 1) {
            Err(AppError::BadRequest(m)) => {
                assert_eq!(m, "solver_name, map_name, and scenario_id are required")
            }
            other => panic!("unexpected: {:?}", other),
        }
    }
    match check_submission(&submission("s", "m", "1", 1024 * 1024 + 1), 1) {
        Err(AppError::BadRequest(m)) => {
            assert_eq!(m, "WASM file too large: 1048577 bytes (max: 1 MB)")
        }
        other => panic!("unexpected: {:?}", other),
    }
}

#[test]
fn fingerprint_is_the_sha256_digest_in_hex() {
    assert_eq!(
        fingerprint(b"hello world"),
        "b94d27b9934d3e08a52e52d7da7dabfac484efe37a5380ee9088f7ace2efcde9"
    );
    assert_eq!(
        fingerprint(b""),
        "e3b0c44298fc1c149afbf4c8996fb92427ae41e4649b934ca495991b7852b855"
    );
    assert_eq!(hex_lower(&[0x00, 0x0f, 0xa0, 0xff]), "000fa0ff");
    assert_eq!(hex_lower(&[]), "");
}

#[test]
fn request_map_becomes_the_grid() {
    let grid = grid_of(MapData { width: 2, height: 1, tiles: vec![1, 0] });
    assert_eq!(grid.width, 2);
    assert_eq!(grid.height, 1);
    assert_eq!(grid.tiles, vec![1, 0]);
}

#[test]
fn a_valid_submission_is_recorded_with_its_cost() {
    let result = ran(vec![vec![(0, 0), (1, 0)]]);
    let record = record_of(&result, &grid(2, 1), &[cell(0, 0)], &[cell(1, 0)]);
    assert!(record.valid);
    assert_eq!(record.num_agents, 1);
    assert_eq!(record.cost, Some(2));
    assert_eq!(record.makespan, Some(2));
    assert_eq!(record.instruction_count, Some(1000));
    assert_eq!(record.execution_time_ms, 12);
    assert_eq!(record.error_message, None);
    let response = submit_response("s-1".to_string(), "v-1".to_string(), &record);
    assert_eq!(response.submission_id, "s-1");
    assert_eq!(response.verification_id, "v-1");
    assert_eq!(response.message, "Submission verified and added to leaderboard");
}

#[test]
fn an_invalid_submission_is_recorded_with_a_summary() {
    let result = ran(vec![vec![(0, 0), (1, 1)], vec![]]);
    let starts = [cell(0, 0), cell(0, 1)];
    let goals = [cell(1, 0), cell(0, 1)];
    let record = record_of(&result, &grid(2, 2), &starts, &goals);
    assert!(!record.valid);
    assert_eq!(record.num_agents, 2);
    assert_eq!(record.cost, None);
    assert_eq!(record.makespan, None);
    assert_eq!(
        record.error_message.as_deref(),
        Some(
            "Agent 0 made diagonal move from (0,0) to (1,1) at timestep 0; \
             Agent 1 has empty path; \
             Agent 0 path ends at (1,1) but should end at (1,0)"
        )
    );
    let response = submit_response("a".to_string(), "b".to_string(), &record);
    assert!(response.message.starts_with("Submission recorded but not valid: Agent 0 made"));
}

#[test]
fn a_failed_run_is_recorded_with_its_error() {
    let (_, result) = advance(
        ExecutionPhase::Running,
        GuestEvent::Trapped("epoch".to_string()),
        &limits(),
        Some(u64::MAX),
        u64::MAX,
    );
    let record = record_of(&result.unwrap(), &grid(1, 1), &[cell(0, 0)], &[cell(0, 0)]);
    assert!(!record.valid);
    assert_eq!(record.error_message.as_deref(), Some("Solver timeout after 30s"));
    assert_eq!(record.execution_time_ms, i64::MAX);
    assert_eq!(record.instruction_count, Some(0));
    let unknown = SolverResult {
        solution: None,
        error: None,
        stats: SolverStats { instruction_count: Some(u64::MAX), execution_time_ms: 1, fuel_consumed: None },
    };
    let record = record_of(&unknown, &grid(1, 1), &[], &[]);
    assert!(!record.valid);
    assert_eq!(record.instruction_count, Some(i64::MAX));
    assert_eq!(record.error_message, None);
    let response = submit_response("a".to_string(), "b".to_string(), &record);
    assert_eq!(response.message, "Submission recorded but not valid: Unknown error");
}

#[test]
fn summary_joins_details_with_semicolons() {
    let solution = Solution { paths: vec![Path { steps: vec![] }, Path { steps: vec![] }] };
    let result = mapf_arena::validation::validate_solution(
        &solution,
        &grid(1, 1),
        &[cell(0, 0), cell(0, 0)],
        &[cell(0, 0), cell(0, 0)],
    );
    assert_eq!(summarize(&result.errors), "Agent 0 has empty path; Agent 1 has empty path");
    assert_eq!(summarize(&vec![]), "");
}

#[test]
fn failures_map_to_status_codes() {
    let text = |s: &str| s.to_string();
    assert_eq!(AppError::BadRequest(text("b")).into_response(), (400, text("b")));
    assert_eq!(AppError::Auth(text("a")).into_response(), (401, text("a")));
    assert_eq!(AppError::NotFound(text("n")).into_response(), (404, text("n")));
    assert_eq!(AppError::WasmExecution(text("w")).into_response(), (400, text("w")));
    assert_eq!(AppError::Validation(text("v")).into_response(), (400, text("v")));
    assert_eq!(AppError::Database(text("secret")).into_response(), (500, text("Database error")));
    assert_eq!(
        AppError::Internal(text("secret")).into_response(),
        (500, text("Internal server error"))
    );
    assert_eq!(AppError::Database(text("down")).message(), "Database error: down");
    assert_eq!(AppError::Auth(text("no")).message(), "Authentication error: no");
    assert_eq!(AppError::NotFound(text("x")).message(), "Not found: x");
    assert_eq!(AppError::BadRequest(text("x")).message(), "Bad request: x");
    assert_eq!(AppError::Validation(text("x")).message(), "Validation error: x");
    assert_eq!(AppError::Internal(text("x")).message(), "Internal server error: x");
}

#[test]
fn a_plan_of_more_paths_than_agents_is_answered_with_an_error() {
    let result = ran(vec![vec![(0, 0)], vec![(1, 0)]]);
    let response = verify_outcome(result, &grid(2, 1), &[cell(0, 0)], &[cell(0, 0)]).unwrap();
    assert!(!response.valid);
    assert!(response.solution.is_none());
    assert!(response.validation_errors.is_empty());
    assert_eq!(response.error.as_deref(), Some("Solver returned more paths than agents"));
    assert_eq!(response.stats.cost, None);
    assert_eq!(response.stats.instruction_count, Some(1000));
    let result = ran(vec![vec![(0, 0)]]);
    let response = verify_outcome(result, &grid(2, 1), &[cell(0, 0)], &[]).unwrap();
    assert_eq!(response.error.as_deref(), Some("Solver returned more paths than agents"));
    let result = ran(vec![vec![(0, 0)], vec![(1, 0)]]);
    let record = record_of(&result, &grid(2, 1), &[cell(0, 0)], &[cell(0, 0)]);
    assert!(!record.valid);
    assert_eq!(record.cost, None);
    assert_eq!(record.makespan, None);
    assert_eq!(record.num_agents, 1);
    assert_eq!(record.error_message.as_deref(), Some("Solver returned more paths than agents"));
    // Fewer paths than agents are validated as they are.
    let result = ran(vec![vec![(0, 0)]]);
    let response =
        verify_outcome(result, &grid(2, 1), &[cell(0, 0), cell(1, 0)], &[cell(0, 0), cell(1, 0)]).unwrap();
    assert!(response.valid);
}
