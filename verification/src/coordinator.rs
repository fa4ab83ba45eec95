//! The decisions of the submission coordinator: what is checked before a
//! solver runs, and what is answered and recorded once it has run. Running
//! the solver and writing to the store are the caller's work.

use vstd::prelude::*;
use vstd::string::*;
use sha2::{Digest, Sha256};
use crate::error::AppError;
use crate::executor::{ResultModel, SolverResult};
use crate::text::{decimal, push_decimal};
use crate::validation::{
    makespan, longest, records, respects_rules, solution_records, validate_solution, Coordinate,
    ErrorRecord, GridMap, Path, Solution, ValidationError,
};

verus! {

/// A grid as a request carries it.
#[derive(Debug, Clone)]
pub struct MapData {
    pub width: u32,
    pub height: u32,
    pub tiles: Vec<u8>,
}

#[derive(Debug, Clone)]
pub struct VerifyRequest {
    pub wasm_bytes: Vec<u8>,
    pub map: MapData,
    pub starts: Vec<Coordinate>,
    pub goals: Vec<Coordinate>,
}

#[derive(Debug, Clone)]
pub struct ExecutionStats {
    pub instruction_count: Option<u64>,
    pub execution_time_ms: u64,
    pub cost: Option<i64>,
    pub makespan: Option<i64>,
}

#[derive(Debug, Clone)]
pub struct VerifyResponse {
    pub valid: bool,
    pub solution: Option<Solution>,
    pub validation_errors: Vec<ValidationError>,
    pub stats: ExecutionStats,
    pub error: Option<String>,
}

#[derive(Debug, Clone)]
pub struct SubmitRequest {
    pub solver_name: String,
    pub map_name: String,
    pub scenario_id: String,
    pub wasm_bytes: Vec<u8>,
    pub map: MapData,
    pub starts: Vec<Coordinate>,
    pub goals: Vec<Coordinate>,
}

#[derive(Debug, Clone)]
pub struct SubmitResponse {
    pub submission_id: String,
    pub verification_id: String,
    pub message: String,
}

/// What is persisted of one verification.
#[derive(Debug, Clone)]
pub struct VerificationRecord {
    pub num_agents: i32,
    pub valid: bool,
    pub cost: Option<i64>,
    pub makespan: Option<i64>,
    pub instruction_count: Option<i64>,
    pub execution_time_ms: i64,
    pub error_message: Option<String>,
}

/// What a `VerifyResponse` says, as mathematical values.
pub struct ResponseModel {
    pub valid: bool,
    pub plan: Option<Seq<Seq<Coordinate>>>,
    pub errors: Seq<ErrorRecord>,
    pub instruction_count: Option<u64>,
    pub execution_time_ms: u64,
    pub cost: Option<i64>,
    pub makespan: Option<i64>,
    pub error: Option<Seq<char>>,
}

impl View for VerifyResponse {
    type V = ResponseModel;

    open spec fn view(&self) -> ResponseModel {
        ResponseModel {
            valid: self.valid,
            plan: match self.solution {
                Some(s) => Some(s@),
                None => None,
            },
            errors: records(self.validation_errors@),
            instruction_count: self.stats.instruction_count,
            execution_time_ms: self.stats.execution_time_ms,
            cost: self.stats.cost,
            makespan: self.stats.makespan,
            error: match self.error {
                Some(e) => Some(e@),
                None => None,
            },
        }
    }
}

/// What a `VerificationRecord` says, as mathematical values.
pub struct RecordModel {
    pub num_agents: i32,
    pub valid: bool,
    pub cost: Option<i64>,
    pub makespan: Option<i64>,
    pub instruction_count: Option<i64>,
    pub execution_time_ms: i64,
    pub error_message: Option<Seq<char>>,
}

impl View for VerificationRecord {
    type V = RecordModel;

    open spec fn view(&self) -> RecordModel {
        RecordModel {
            num_agents: self.num_agents,
            valid: self.valid,
            cost: self.cost,
            makespan: self.makespan,
            instruction_count: self.instruction_count,
            execution_time_ms: self.execution_time_ms,
            error_message: match self.error_message {
                Some(e) => Some(e@),
                None => None,
            },
        }
    }
}

// ---------------------------------------------------------------------------
// Before the run
// ---------------------------------------------------------------------------

/// The largest module accepted, in bytes.
pub open spec fn max_module_bytes(max_wasm_size_mb: usize) -> int {
    max_wasm_size_mb * 1024 * 1024
}

pub open spec fn too_large_text(len: nat, max_wasm_size_mb: nat) -> Seq<char> {
    "WASM file too large: "@ + decimal(len) + " bytes (max: "@ + decimal(max_wasm_size_mb)
        + " MB)"@
}

/// Rejects a module that is larger than the configured limit.
pub fn check_module_size(len: usize, max_wasm_size_mb: usize) -> (r: Result<(), AppError>)
    ensures
        r is Ok <==> len <= max_module_bytes(max_wasm_size_mb),
        r matches Err(e) ==> e matches AppError::BadRequest(m) && m@ == too_large_text(
            len as nat,
            max_wasm_size_mb as nat,
        ),
{
    if len as u128 > max_wasm_size_mb as u128 * 1024 * 1024 {
        let mut m = String::from_str("WASM file too large: ");
        push_decimal(&mut m, len as u64);
        m.append(" bytes (max: ");
        push_decimal(&mut m, max_wasm_size_mb as u64);
        m.append(" MB)");
        Err(AppError::BadRequest(m))
    } else {
        Ok(())
    }
}

/// The grid that a request's map stands for.
pub fn grid_of(map: MapData) -> (grid: GridMap)
    ensures
        grid.width == map.width,
        grid.height == map.height,
        grid.tiles@ == map.tiles@,
{
    GridMap { width: map.width, height: map.height, tiles: map.tiles }
}

/// A submission names its solver, its map and its scenario.
pub open spec fn names_given(req: SubmitRequest) -> bool {
    req.solver_name@.len() > 0 && req.map_name@.len() > 0 && req.scenario_id@.len() > 0
}

/// Checks a submission before anything is run or stored: the three names
/// must be given and the module must not exceed the configured size.
pub fn check_submission(req: &SubmitRequest, max_wasm_size_mb: usize) -> (r: Result<(), AppError>)
    ensures
        r is Ok <==> names_given(*req) && req.wasm_bytes@.len() <= max_module_bytes(
            max_wasm_size_mb,
        ),
        r matches Err(e) ==> e matches AppError::BadRequest(m) && m@ == (if !names_given(*req) {
            "solver_name, map_name, and scenario_id are required"@
        } else {
            too_large_text(req.wasm_bytes@.len(), max_wasm_size_mb as nat)
        }),
{
    if req.solver_name.as_str().is_empty() || req.map_name.as_str().is_empty()
        || req.scenario_id.as_str().is_empty() {
        return Err(
            AppError::BadRequest(
                String::from_str("solver_name, map_name, and scenario_id are required"),
            ),
        );
    }
    check_module_size(req.wasm_bytes.len(), max_wasm_size_mb)
}

/// The SHA-256 digest of a byte string.
pub uninterp spec fn sha256(data: Seq<u8>) -> Seq<u8>;

/// `Sha256::digest` of the crate `sha2`: the digest of the whole input, as
/// bytes in the order the hasher gives them.
#[verifier::external_body]
fn sha256_digest(data: &[u8]) -> (out: Vec<u8>)
    ensures
        out@ == sha256(data@),
{
    Sha256::digest(data).to_vec()
}

pub open spec fn hex_digit(d: int) -> char {
    if d == 0 {
        '0'
    } else if d == 1 {
        '1'
    } else if d == 2 {
        '2'
    } else if d == 3 {
        '3'
    } else if d == 4 {
        '4'
    } else if d == 5 {
        '5'
    } else if d == 6 {
        '6'
    } else if d == 7 {
        '7'
    } else if d == 8 {
        '8'
    } else if d == 9 {
        '9'
    } else if d == 10 {
        'a'
    } else if d == 11 {
        'b'
    } else if d == 12 {
        'c'
    } else if d == 13 {
        'd'
    } else if d == 14 {
        'e'
    } else {
        'f'
    }
}

/// Lower-case hexadecimal notation: two digits for each byte.
pub open spec fn hex_text(bytes: Seq<u8>) -> Seq<char>
    decreases bytes.len(),
{
    if bytes.len() == 0 {
        Seq::empty()
    } else {
        hex_text(bytes.drop_last()).push(hex_digit(bytes.last() as int / 16)).push(
            hex_digit(bytes.last() as int % 16),
        )
    }
}

fn hex_digit_str(d: u8) -> (s: &'static str)
    requires
        d < 16,
    ensures
        s@ == seq![hex_digit(d as int)],
{
    proof {
        reveal_strlit("0");
        reveal_strlit("1");
        reveal_strlit("2");
        reveal_strlit("3");
        reveal_strlit("4");
        reveal_strlit("5");
        reveal_strlit("6");
        reveal_strlit("7");
        reveal_strlit("8");
        reveal_strlit("9");
        reveal_strlit("a");
        reveal_strlit("b");
        reveal_strlit("c");
        reveal_strlit("d");
        reveal_strlit("e");
        reveal_strlit("f");
    }
    let s = if d == 0 {
        "0"
    } else if d == 1 {
        "1"
    } else if d == 2 {
        "2"
    } else if d == 3 {
        "3"
    } else if d == 4 {
        "4"
    } else if d == 5 {
        "5"
    } else if d == 6 {
        "6"
    } else if d == 7 {
        "7"
    } else if d == 8 {
        "8"
    } else if d == 9 {
        "9"
    } else if d == 10 {
        "a"
    } else if d == 11 {
        "b"
    } else if d == 12 {
        "c"
    } else if d == 13 {
        "d"
    } else if d == 14 {
        "e"
    } else {
        "f"
    };
    assert(s@ =~= seq![hex_digit(d as int)]);
    s
}

/// Writes bytes in lower-case hexadecimal notation.
pub fn hex_lower(bytes: &[u8]) -> (out: String)
    ensures
        out@ == hex_text(bytes@),
{
    let mut out = String::new();
    let mut i: usize = 0;
    while i < bytes.len()
        invariant
            i <= bytes.len(),
            out@ == hex_text(bytes@.take(i as int)),
        decreases bytes.len() - i,
    {
        let b = bytes[i];
        out.append(hex_digit_str(b / 16));
        out.append(hex_digit_str(b % 16));
        i += 1;
        assert(bytes@.take(i as int).drop_last() =~= bytes@.take(i - 1));
    }
    assert(bytes@.take(bytes@.len() as int) =~= bytes@);
    out
}

/// The fingerprint by which submitted modules are told apart: the SHA-256
/// digest of the module's bytes, in lower-case hexadecimal notation.
pub fn fingerprint(module_bytes: &[u8]) -> (hash: String)
    ensures
        hash@ == hex_text(sha256(module_bytes@)),
{
    let digest = sha256_digest(module_bytes);
    hex_lower(digest.as_slice())
}

// ---------------------------------------------------------------------------
// After the run
// ---------------------------------------------------------------------------

/// The number of steps in the first `upto` paths together.
pub open spec fn total_steps(plan: Seq<Seq<Coordinate>>, upto: int) -> nat
    decreases upto,
{
    if upto <= 0 {
        0
    } else {
        total_steps(plan, upto - 1) + plan[upto - 1].len()
    }
}

/// The cost of a plan: the sum of its path lengths.
pub open spec fn plan_cost(plan: Seq<Seq<Coordinate>>) -> nat {
    total_steps(plan, plan.len() as int)
}

/// A count as the signed 64-bit number that is reported and stored: itself,
/// or the largest such number if it does not fit.
pub open spec fn clip(v: int) -> i64 {
    if v > i64::MAX {
        i64::MAX
    } else if v < i64::MIN {
        i64::MIN
    } else {
        v as i64
    }
}

/// The same for the signed 32-bit number of agents.
pub open spec fn clip32(v: int) -> i32 {
    if v > i32::MAX {
        i32::MAX
    } else if v < i32::MIN {
        i32::MIN
    } else {
        v as i32
    }
}

fn clip_u64(v: u64) -> (c: i64)
    ensures
        c == clip(v as int),
{
    if v > i64::MAX as u64 {
        i64::MAX
    } else {
        v as i64
    }
}

/// The sum of the path lengths.
pub fn cost_of(paths: &[Path]) -> (cost: i64)
    ensures
        cost == clip(plan_cost(crate::validation::plan_of(paths@)) as int),
{
    let ghost plan = crate::validation::plan_of(paths@);
    let top: u64 = i64::MAX as u64;
    let mut acc: u64 = 0;
    let mut i: usize = 0;
    while i < paths.len()
        invariant
            i <= paths.len(),
            plan == crate::validation::plan_of(paths@),
            top == i64::MAX,
            acc <= top,
            acc == clip(total_steps(plan, i as int) as int),
        decreases paths.len() - i,
    {
        let len = paths[i].steps.len() as u64;
        acc = if len > top - acc {
            top
        } else {
            acc + len
        };
        i += 1;
    }
    acc as i64
}

/// The length of the longest path.
pub fn makespan_of(paths: &[Path]) -> (span: i64)
    ensures
        span == clip(makespan(crate::validation::plan_of(paths@)) as int),
{
    clip_u64(crate::validation::longest_path(paths) as u64)
}

/// The plan holds no more paths than there are starts and goals.
pub open spec fn one_path_per_agent(
    plan: Seq<Seq<Coordinate>>,
    starts: Seq<Coordinate>,
    goals: Seq<Coordinate>,
) -> bool {
    plan.len() <= starts.len() && plan.len() <= goals.len()
}

/// The answer to a verification request for a given result of the run.
///
/// A run that ended in an error is answered as invalid with that error and
/// no validation errors; so is a plan of more paths than there are agents.
/// Any other plan is validated; the answer carries every
/// validation error, and cost and makespan exactly when there is none.
/// `None` for a result that holds neither a plan nor an error.
pub open spec fn expected_response(
    result: ResultModel,
    width: u32,
    height: u32,
    tiles: Seq<u8>,
    starts: Seq<Coordinate>,
    goals: Seq<Coordinate>,
) -> Option<ResponseModel> {
    match result.error {
        Some(e) => Some(
            ResponseModel {
                valid: false,
                plan: None,
                errors: Seq::empty(),
                instruction_count: result.instruction_count,
                execution_time_ms: result.execution_time_ms,
                cost: None,
                makespan: None,
                error: Some(e),
            },
        ),
        None => match result.plan {
            None => None,
            Some(plan) => if !one_path_per_agent(plan, starts, goals) {
                Some(
                    ResponseModel {
                        valid: false,
                        plan: None,
                        errors: Seq::empty(),
                        instruction_count: result.instruction_count,
                        execution_time_ms: result.execution_time_ms,
                        cost: None,
                        makespan: None,
                        error: Some("Solver returned more paths than agents"@),
                    },
                )
            } else {
                let errors = solution_records(plan, width, height, tiles, starts, goals);
                let valid = errors.len() == 0;
                Some(
                    ResponseModel {
                        valid,
                        plan: Some(plan),
                        errors,
                        instruction_count: result.instruction_count,
                        execution_time_ms: result.execution_time_ms,
                        cost: if valid {
                            Some(clip(plan_cost(plan) as int))
                        } else {
                            None
                        },
                        makespan: if valid {
                            Some(clip(makespan(plan) as int))
                        } else {
                            None
                        },
                        error: None,
                    },
                )
            },
        },
    }
}

/// Answers a verification request once the solver has run: validates the
/// plan, if there is one, and computes cost and makespan of a valid plan.
pub fn verify_outcome(
    result: SolverResult,
    grid: &GridMap,
    starts: &[Coordinate],
    goals: &[Coordinate],
) -> (r: Result<VerifyResponse, AppError>)
    ensures
        match expected_response(result@, grid.width, grid.height, grid.tiles@, starts@, goals@) {
            Some(expected) => r matches Ok(response) && response@ == expected,
            None => r matches Err(AppError::WasmExecution(m)) && m@
                == "Solver returned no solution and no error"@,
        },
{
    let stats = result.stats;
    if let Some(error) = result.error {
        let response = VerifyResponse {
            valid: false,
            solution: None,
            validation_errors: Vec::new(),
            stats: ExecutionStats {
                instruction_count: stats.instruction_count,
                execution_time_ms: stats.execution_time_ms,
                cost: None,
                makespan: None,
            },
            error: Some(error),
        };
        assert(response@.errors =~= Seq::empty());
        return Ok(response);
    }
    let solution = match result.solution {
        Some(solution) => solution,
        None => {
            return Err(
                AppError::WasmExecution(String::from_str("Solver returned no solution and no error")),
            );
        },
    };
    if solution.paths.len() > starts.len() || solution.paths.len() > goals.len() {
        let response = VerifyResponse {
            valid: false,
            solution: None,
            validation_errors: Vec::new(),
            stats: ExecutionStats {
                instruction_count: stats.instruction_count,
                execution_time_ms: stats.execution_time_ms,
                cost: None,
                makespan: None,
            },
            error: Some(String::from_str("Solver returned more paths than agents")),
        };
        assert(response@.errors =~= Seq::empty());
        return Ok(response);
    }
    let validation = validate_solution(&solution, grid, starts, goals);
    let (cost, span) = if validation.valid {
        (Some(cost_of(solution.paths.as_slice())), Some(makespan_of(solution.paths.as_slice())))
    } else {
        (None, None)
    };
    assert(records(validation.errors@).len() == validation.errors@.len());
    Ok(
        VerifyResponse {
            valid: validation.valid,
            solution: Some(solution),
            validation_errors: validation.errors,
            stats: ExecutionStats {
                instruction_count: stats.instruction_count,
                execution_time_ms: stats.execution_time_ms,
                cost,
                makespan: span,
            },
            error: None,
        },
    )
}

/// A valid answer reports the cost and the makespan of a plan that respects
/// the rules: the sum and the maximum of its path lengths, as far as they
/// fit the numbers they are reported in.
pub proof fn lemma_valid_response_reports_cost(
    result: ResultModel,
    width: u32,
    height: u32,
    tiles: Seq<u8>,
    starts: Seq<Coordinate>,
    goals: Seq<Coordinate>,
)
    requires
        expected_response(result, width, height, tiles, starts, goals) matches Some(response)
            && response.valid,
    ensures
        expected_response(result, width, height, tiles, starts, goals) matches Some(response) && {
            &&& response.errors.len() == 0
            &&& response.plan matches Some(plan) && {
                &&& respects_rules(plan, width, height, tiles, starts, goals)
                &&& response.cost == Some(clip(plan_cost(plan) as int))
                &&& response.makespan == Some(clip(makespan(plan) as int))
                &&& plan_cost(plan) <= i64::MAX ==> response.cost == Some(plan_cost(plan) as i64)
                &&& makespan(plan) <= i64::MAX ==> response.makespan == Some(makespan(plan) as i64)
            }
        },
{
    let plan = result.plan->Some_0;
    crate::validation::lemma_no_errors_iff_rules(plan, width, height, tiles, starts, goals);
}

/// The sentences of the first `upto` errors, joined by "; ".
pub open spec fn summary(errors: Seq<ErrorRecord>, upto: int) -> Seq<char>
    decreases upto,
{
    if upto <= 0 {
        Seq::empty()
    } else if upto == 1 {
        errors[0].details
    } else {
        summary(errors, upto - 1) + "; "@ + errors[upto - 1].details
    }
}

/// One line that names every validation error.
pub fn summarize(errors: &Vec<ValidationError>) -> (text: String)
    ensures
        text@ == summary(records(errors@), errors@.len() as int),
{
    let mut text = String::new();
    let mut i: usize = 0;
    while i < errors.len()
        invariant
            i <= errors.len(),
            text@ == summary(records(errors@), i as int),
        decreases errors.len() - i,
    {
        if i > 0 {
            text.append("; ");
        }
        text.append(errors[i].details.as_str());
        i += 1;
    }
    text
}

/// What is recorded of a verification for a given result of the run.
///
/// The record is valid when the run ended without an error and its plan
/// passed validation; only then does it carry cost and makespan. Otherwise it
/// carries a message: the summary of the validation errors, a sentence that
/// says so where the plan has more paths than there are agents, or the run's
/// error if there is no plan.
pub open spec fn expected_record(
    result: ResultModel,
    width: u32,
    height: u32,
    tiles: Seq<u8>,
    starts: Seq<Coordinate>,
    goals: Seq<Coordinate>,
) -> RecordModel {
    let counted = result.plan matches Some(plan) && one_path_per_agent(plan, starts, goals);
    let errors = match result.plan {
        Some(plan) => solution_records(plan, width, height, tiles, starts, goals),
        None => Seq::empty(),
    };
    let passed = counted && errors.len() == 0;
    RecordModel {
        num_agents: clip32(starts.len() as int),
        valid: result.error is None && passed,
        cost: if passed {
            Some(clip(plan_cost(result.plan->Some_0) as int))
        } else {
            None
        },
        makespan: if passed {
            Some(clip(makespan(result.plan->Some_0) as int))
        } else {
            None
        },
        instruction_count: match result.instruction_count {
            Some(c) => Some(clip(c as int)),
            None => None,
        },
        execution_time_ms: clip(result.execution_time_ms as int),
        error_message: if passed {
            None
        } else if counted {
            Some(summary(errors, errors.len() as int))
        } else if result.plan is Some {
            Some("Solver returned more paths than agents"@)
        } else {
            result.error
        },
    }
}

/// Decides what is recorded of a submission once the solver has run.
pub fn record_of(
    result: &SolverResult,
    grid: &GridMap,
    starts: &[Coordinate],
    goals: &[Coordinate],
) -> (record: VerificationRecord)
    ensures
        record@ == expected_record(
            result@,
            grid.width,
            grid.height,
            grid.tiles@,
            starts@,
            goals@,
        ),
{
    let ran = result.error.is_none();
    let (cost, span, message) = match &result.solution {
        Some(solution) => if solution.paths.len() > starts.len() || solution.paths.len()
            > goals.len() {
            (None, None, Some(String::from_str("Solver returned more paths than agents")))
        } else {
            let validation = validate_solution(solution, grid, starts, goals);
            assert(records(validation.errors@).len() == validation.errors@.len());
            if validation.valid {
                (
                    Some(cost_of(solution.paths.as_slice())),
                    Some(makespan_of(solution.paths.as_slice())),
                    None,
                )
            } else {
                (None, None, Some(summarize(&validation.errors)))
            }
        },
        None => (
            None,
            None,
            match &result.error {
                Some(e) => Some(e.clone()),
                None => None,
            },
        ),
    };
    let agents: i32 = if starts.len() > i32::MAX as usize {
        i32::MAX
    } else {
        starts.len() as i32
    };
    VerificationRecord {
        num_agents: agents,
        valid: ran && cost.is_some(),
        cost,
        makespan: span,
        instruction_count: match result.stats.instruction_count {
            Some(c) => Some(clip_u64(c)),
            None => None,
        },
        execution_time_ms: clip_u64(result.stats.execution_time_ms),
        error_message: message,
    }
}

/// The sentence that tells a submitter how the submission fared.
pub open spec fn outcome_text(record: RecordModel) -> Seq<char> {
    if record.valid && record.cost is Some {
        "Submission verified and added to leaderboard"@
    } else {
        "Submission recorded but not valid: "@ + (match record.error_message {
            Some(m) => m,
            None => "Unknown error"@,
        })
    }
}

/// The answer to a submission, from the identifiers under which it was
/// stored and what was recorded of its verification.
pub fn submit_response(
    submission_id: String,
    verification_id: String,
    record: &VerificationRecord,
) -> (response: SubmitResponse)
    ensures
        response.submission_id@ == submission_id@,
        response.verification_id@ == verification_id@,
        response.message@ == outcome_text(record@),
{
    let message = if record.valid && record.cost.is_some() {
        String::from_str("Submission verified and added to leaderboard")
    } else {
        let mut m = String::from_str("Submission recorded but not valid: ");
        match &record.error_message {
            Some(e) => m.append(e.as_str()),
            None => m.append("Unknown error"),
        }
        m
    };
    SubmitResponse { submission_id, verification_id, message }
}

} // verus!
