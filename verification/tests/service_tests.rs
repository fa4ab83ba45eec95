//! Tests for keys, configuration, registration, the leaderboard query and
//! the flat-array bindings of the solver.

use mapf_arena::account::{check_registration, register_response, username_taken, RegisterRequest};
use mapf_arena::auth::{
    bearer_token, format_failure, generate_api_key, hash_api_key, hash_failure, key_from_picks,
    matching_key, verify_api_key,
};
use mapf_arena::bindings::{lay_out, solve, solver_info, MapfSolver, SolveError};
use mapf_arena::config::{Config, ConfigError, Settings};
use mapf_arena::error::AppError;
use mapf_arena::fixture::{info, wait_at_start};
use mapf_arena::leaderboard::{clamp_limit, default_limit};

#[test]
fn api_keys_are_32_letters_and_digits() {
    for _ in 0..20 {
        let key = generate_api_key();
        assert_eq!(key.chars().count(), 32);
        assert!(key.chars().all(|c| c.is_ascii_alphanumeric()));
    }
    assert_ne!(generate_api_key(), generate_api_key());
}

#[test]
fn picks_spell_a_key() {
    assert_eq!(key_from_picks(&[0, 25, 26, 51, 52, 61]), "AZaz09");
    assert_eq!(key_from_picks(&[]), "");
}

#[test]
fn a_key_verifies_against_its_own_hash_only() {
    let hash = hash_api_key("correct horse").unwrap();
    assert!(hash.starts_with("$argon2"));
    assert_ne!(hash, "correct horse");
    assert_eq!(verify_api_key("correct horse", &hash).unwrap(), true);
    assert_eq!(verify_api_key("battery staple", &hash).unwrap(), false);
    let again = hash_api_key("correct horse").unwrap();
    assert_ne!(hash, again);
    assert_eq!(verify_api_key("correct horse", &again).unwrap(), true);
}

#[test]
fn a_text_that_is_no_hash_is_an_internal_error() {
    match verify_api_key("key", "not a hash") {
        Err(AppError::Internal(m)) => assert!(m.starts_with("Invalid hash format: ")),
        other => panic!("unexpected: {:?}", other),
    }
    match format_failure("bad") {
        AppError::Internal(m) => assert_eq!(m, "Invalid hash format: bad"),
        other => panic!("unexpected: {:?}", other),
    }
    match hash_failure("bad") {
        AppError::Internal(m) => assert_eq!(m, "Failed to hash API key: bad"),
        other => panic!("unexpected: {:?}", other),
    }
}

#[test]
fn bearer_token_is_read_from_the_header() {
    assert_eq!(bearer_token(Some("Bearer abc123")).unwrap(), "abc123");
    assert_eq!(bearer_token(Some("Bearer ")).unwrap(), "");
    assert_eq!(bearer_token(Some("Bearer  x ")).unwrap(), " x ");
    match bearer_token(None) {
        Err(AppError::Auth(m)) => assert_eq!(m, "Missing Authorization header"),
        other => panic!("unexpected: {:?}", other),
    }
    for header in ["bearer abc", "Basic abc", "Bearer", ""] {
        match bearer_token(Some(header)) {
            Err(AppError::Auth(m)) => assert_eq!(m, "Invalid Authorization header format"),
            other => panic!("unexpected: {:?}", other),
        }
    }
}

fn settings() -> Settings {
    Settings {
        database_url: Some("postgres://localhost/mapf".to_string()),
        server_host: None,
        server_port: None,
        cors_allowed_origins: None,
        max_wasm_size_mb: None,
        solver_timeout_secs: None,
        solver_instruction_limit: None,
    }
}

#[test]
fn configuration_has_its_defaults() {
    let config = Config::from_settings(settings()).unwrap();
    assert_eq!(config.database_url, "postgres://localhost/mapf");
    assert_eq!(config.server_host, "0.0.0.0");
    assert_eq!(config.server_port, 3000);
    assert_eq!(config.cors_allowed_origins, vec!["http://localhost:5173".to_string()]);
    assert_eq!(config.max_wasm_size_mb, 10);
    assert_eq!(config.solver_timeout_secs, 30);
    assert_eq!(config.solver_instruction_limit, 10_000_000_000);
}

#[test]
fn configuration_takes_what_is_set() {
    let mut s = settings();
    s.server_host = Some("127.0.0.1".to_string());
    s.server_port = Some("+8080".to_string());
    s.cors_allowed_origins = Some("http://a.example,,http://b.example ".to_string());
    s.max_wasm_size_mb = Some("0".to_string());
    s.solver_timeout_secs = Some("007".to_string());
    s.solver_instruction_limit = Some("18446744073709551615".to_string());
    let config = Config::from_settings(s).unwrap();
    assert_eq!(config.server_host, "127.0.0.1");
    assert_eq!(config.server_port, 8080);
    assert_eq!(
        config.cors_allowed_origins,
        vec!["http://a.example".to_string(), "".to_string(), "http://b.example ".to_string()]
    );
    assert_eq!(config.max_wasm_size_mb, 0);
    assert_eq!(config.solver_timeout_secs, 7);
    assert_eq!(config.solver_instruction_limit, u64::MAX);
}

#[test]
fn configuration_needs_a_database() {
    let mut s = settings();
    s.database_url = None;
    s.server_port = Some("x".to_string());
    assert!(matches!(Config::from_settings(s), Err(ConfigError::MissingDatabaseUrl)));
}

#[test]
fn configuration_reports_the_first_bad_number() {
    let mut s = settings();
    s.server_port = Some("65536".to_string());
    s.solver_timeout_secs = Some("soon".to_string());
    match Config::from_settings(s) {
        Err(ConfigError::InvalidNumber { name, value }) => {
            assert_eq!(name, "SERVER_PORT");
            assert_eq!(value, "65536");
        }
        other => panic!("unexpected: {:?}", other),
    }
    for (bad, slot) in [(" 30", 0), ("", 1), ("-1", 2), ("18446744073709551616", 2), ("1e3", 1)] {
        let mut s = settings();
        let expected = match slot {
            0 => {
                s.max_wasm_size_mb = Some(bad.to_string());
                "MAX_WASM_SIZE_MB"
            }
            1 => {
                s.solver_timeout_secs = Some(bad.to_string());
                "SOLVER_TIMEOUT_SECS"
            }
            _ => {
                s.solver_instruction_limit = Some(bad.to_string());
                "SOLVER_INSTRUCTION_LIMIT"
            }
        };
        match Config::from_settings(s) {
            Err(ConfigError::InvalidNumber { name, value }) => {
                assert_eq!(name, expected);
                assert_eq!(value, bad);
            }
            other => panic!("unexpected: {:?}", other),
        }
    }
}

fn registration(username: &str, email: &str) -> RegisterRequest {
    RegisterRequest {
        username: username.to_string(),
        email: email.to_string(),
        key_name: "laptop".to_string(),
    }
}

#[test]
fn registration_is_checked() {
    assert!(check_registration(&registration("ada", "ada@example.org")).is_ok());
    assert!(check_registration(&registration("ada", "@")).is_ok());
    for req in [registration("", "ada@example.org"), registration("ada", ""), registration("", "")] {
        match check_registration(&req) {
            Err(AppError::BadRequest(m)) => assert_eq!(m, "Username and email are required"),
            other => panic!("unexpected: {:?}", other),
        }
    }
    match check_registration(&registration("ada", "ada.example.org")) {
        Err(AppError::BadRequest(m)) => assert_eq!(m, "Invalid email format"),
        other => panic!("unexpected: {:?}", other),
    }
    match username_taken() {
        AppError::BadRequest(m) => assert_eq!(m, "Username already exists"),
        other => panic!("unexpected: {:?}", other),
    }
}

#[test]
fn registration_answer_shows_the_key() {
    let response = register_response("u-1".to_string(), "k3y".to_string());
    assert_eq!(response.user_id, "u-1");
    assert_eq!(response.api_key, "k3y");
    assert_eq!(response.message, "User created successfully. Save your API key: k3y");
}

#[test]
fn leaderboard_limit_is_clamped() {
    assert_eq!(default_limit(), 100);
    assert_eq!(clamp_limit(100), 100);
    assert_eq!(clamp_limit(1), 1);
    assert_eq!(clamp_limit(1000), 1000);
    assert_eq!(clamp_limit(0), 1);
    assert_eq!(clamp_limit(-5), 1);
    assert_eq!(clamp_limit(1001), 1000);
    assert_eq!(clamp_limit(i64::MAX), 1000);
    assert_eq!(clamp_limit(i64::MIN), 1);
}

#[test]
fn flat_solver_checks_its_arguments() {
    assert_eq!(MapfSolver::new(&[1; 8], 3, 3).unwrap_err(), SolveError::MapLength);
    assert_eq!(
        SolveError::MapLength.message(),
        "Map data length doesn't match width*height"
    );
    let solver = MapfSolver::new(&[1; 9], 3, 3).unwrap();
    assert_eq!(solver.width(), 3);
    assert_eq!(solver.height(), 3);
    assert_eq!(solver.solve(&[0, 0], &[2, 0, 1, 1]).unwrap_err(), SolveError::AgentLists);
    assert_eq!(solver.solve(&[0, 0, 1], &[2, 0, 1]).unwrap_err(), SolveError::AgentLists);
    assert_eq!(
        SolveError::AgentLists.message(),
        "starts and goals must have same length and be pairs"
    );
    assert_eq!(
        SolveError::NoPlan.message(),
        "Failed to find collision-free paths for all agents"
    );
    assert_eq!(solve(&[1; 2], 1, 1, &[], &[]).unwrap_err(), SolveError::MapLength);
}

#[test]
fn flat_solver_lays_out_its_plan() {
    let solver = MapfSolver::new(&[1; 3], 3, 1).unwrap();
    let solution = solver.solve(&[0, 0], &[2, 0]).unwrap();
    assert_eq!(solution.paths(), &vec![3, 0, 0, 1, 0, 2, 0]);
    assert_eq!(solution.cost(), 2);
    assert_eq!(solution.nodes_expanded(), 0);
    let two = solve(&[1; 4], 2, 2, &[0, 0, 1, 1], &[0, 0, 1, 1]).unwrap();
    assert_eq!(two.paths(), &vec![1, 0, 0, 1, 1, 1]);
    assert_eq!(two.cost(), 0);
    let none = lay_out(&vec![]);
    assert!(none.paths().is_empty());
    assert_eq!(none.cost(), 0);
    assert_eq!(
        solver_info(),
        "A* Reference Solver v0.2.0 (Multi-Agent with Prioritized Planning)"
    );
}

#[test]
fn the_trial_solver_waits_on_every_start() {
    let plan = wait_at_start(&[(1, 2), (-3, 4)], &[(9, 9), (8, 8), (7, 7)]).unwrap();
    assert_eq!(plan, vec![vec![(1, 2), (1, 2)], vec![(-3, 4), (-3, 4)]]);
    assert_eq!(wait_at_start(&[], &[]).unwrap(), Vec::<Vec<(i32, i32)>>::new());
    assert_eq!(wait_at_start(&[(0, 0)], &[]).unwrap_err(), "More starts than goals");
    assert_eq!(info(), "Test Component Solver v0.1");
}

#[test]
fn a_presented_key_is_found_among_the_stored_hashes() {
    let first = hash_api_key("alpha").unwrap();
    let second = hash_api_key("beta").unwrap();
    let again = hash_api_key("beta").unwrap();
    let hashes = vec![first, second, again];
    assert_eq!(matching_key("alpha", &hashes).unwrap(), Some(0));
    assert_eq!(matching_key("beta", &hashes).unwrap(), Some(1));
    assert_eq!(matching_key("gamma", &hashes).unwrap(), None);
    assert_eq!(matching_key("alpha", &[]).unwrap(), None);
    let mut broken = hashes.clone();
    broken.insert(1, "no hash".to_string());
    assert_eq!(matching_key("alpha", &broken).unwrap(), Some(0));
    match matching_key("beta", &broken) {
        Err(AppError::Internal(m)) => assert!(m.starts_with("Invalid hash format: ")),
        other => panic!("unexpected: {:?}", other),
    }
}
