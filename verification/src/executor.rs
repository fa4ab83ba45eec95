//! The decisions around one run of an untrusted solver in the sandbox: which
//! phase follows which event, how a trap is classified, and what is reported.
//! Loading, instantiating and calling the guest are the caller's work.

use vstd::prelude::*;
use vstd::string::*;
use crate::text::{chars_of, contains_text, decimal, mentions, occurs_at, push_decimal};
use crate::validation::{Coordinate, Path, Solution};

verus! {

/// Metering of one run.
#[derive(Debug, Clone)]
pub struct SolverStats {
    pub instruction_count: Option<u64>,
    pub execution_time_ms: u64,
    pub fuel_consumed: Option<u64>,
}

/// What one run produced: a plan or an error, and the metering either way.
#[derive(Debug, Clone)]
pub struct SolverResult {
    pub solution: Option<Solution>,
    pub error: Option<String>,
    pub stats: SolverStats,
}

/// The budgets of a run.
#[derive(Debug, Clone, Copy)]
pub struct ExecutionLimits {
    pub timeout_secs: u64,
    pub fuel_limit: u64,
}

/// Where one run stands. The last five phases are final.
#[derive(Debug, Clone, Copy, PartialEq, Eq, Structural)]
pub enum ExecutionPhase {
    Loading,
    Instantiating,
    Running,
    Returned,
    TrappedTimeout,
    TrappedFuel,
    TrappedOther,
    Refused,
}

/// What the sandbox reports back after a step.
#[derive(Debug, Clone)]
pub enum GuestEvent {
    /// The module was loaded.
    Loaded,
    /// The module could not be loaded.
    LoadFailed,
    /// The module was instantiated and exports `solve`.
    Instantiated,
    /// The module could not be instantiated.
    InstantiateFailed,
    /// The instance has no `solve` of the expected type.
    ExportMissing,
    /// `solve` returned a plan.
    Returned(Vec<Vec<(i32, i32)>>),
    /// `solve` returned an error of its own.
    Declined(String),
    /// The guest trapped; the text is the trap's diagnostic message.
    Trapped(String),
}

/// What a `SolverResult` says, as mathematical values.
pub struct ResultModel {
    pub plan: Option<Seq<Seq<Coordinate>>>,
    pub error: Option<Seq<char>>,
    pub instruction_count: Option<u64>,
    pub execution_time_ms: u64,
    pub fuel_consumed: Option<u64>,
}

impl View for SolverResult {
    type V = ResultModel;

    open spec fn view(&self) -> ResultModel {
        ResultModel {
            plan: match self.solution {
                Some(s) => Some(s@),
                None => None,
            },
            error: match self.error {
                Some(e) => Some(e@),
                None => None,
            },
            instruction_count: self.stats.instruction_count,
            execution_time_ms: self.stats.execution_time_ms,
            fuel_consumed: self.stats.fuel_consumed,
        }
    }
}

// ---------------------------------------------------------------------------
// Translating at the boundary
// ---------------------------------------------------------------------------

pub open spec fn cell_of(pair: (i32, i32)) -> Coordinate {
    Coordinate { x: pair.0, y: pair.1 }
}

pub open spec fn path_of_pairs(pairs: Seq<(i32, i32)>) -> Seq<Coordinate> {
    Seq::new(pairs.len(), |t: int| cell_of(pairs[t]))
}

/// The plan that a guest's lists of coordinate pairs stand for.
pub open spec fn plan_of_pairs(pairs: Seq<Vec<(i32, i32)>>) -> Seq<Seq<Coordinate>> {
    Seq::new(pairs.len(), |i: int| path_of_pairs(pairs[i]@))
}

/// Coordinates as the pairs that are handed to the guest.
pub fn pairs_from_coordinates(cells: &[Coordinate]) -> (pairs: Vec<(i32, i32)>)
    ensures
        path_of_pairs(pairs@) == cells@,
        pairs@.len() == cells@.len(),
{
    let mut pairs: Vec<(i32, i32)> = Vec::new();
    let mut i: usize = 0;
    while i < cells.len()
        invariant
            i <= cells.len(),
            pairs@.len() == i,
            forall|k: int| 0 <= k < i ==> cell_of(#[trigger] pairs@[k]) == cells@[k],
        decreases cells.len() - i,
    {
        pairs.push((cells[i].x, cells[i].y));
        i += 1;
    }
    assert(path_of_pairs(pairs@) =~= cells@);
    pairs
}

fn path_from_pairs(pairs: &Vec<(i32, i32)>) -> (path: Path)
    ensures
        path@ == path_of_pairs(pairs@),
{
    let mut steps: Vec<Coordinate> = Vec::new();
    let mut t: usize = 0;
    while t < pairs.len()
        invariant
            t <= pairs.len(),
            steps@.len() == t,
            forall|k: int| 0 <= k < t ==> #[trigger] steps@[k] == cell_of(pairs@[k]),
        decreases pairs.len() - t,
    {
        steps.push(Coordinate { x: pairs[t].0, y: pairs[t].1 });
        t += 1;
    }
    assert(steps@ =~= path_of_pairs(pairs@));
    Path { steps }
}

/// The plan a guest returned, pair by pair. Negative coordinates pass
/// through; the validator reports them.
pub fn plan_from_pairs(pairs: &Vec<Vec<(i32, i32)>>) -> (plan: Solution)
    ensures
        plan@ == plan_of_pairs(pairs@),
{
    let mut paths: Vec<Path> = Vec::new();
    let mut i: usize = 0;
    while i < pairs.len()
        invariant
            i <= pairs.len(),
            paths@.len() == i,
            forall|k: int| 0 <= k < i ==> (#[trigger] paths@[k])@ == path_of_pairs(pairs@[k]@),
        decreases pairs.len() - i,
    {
        paths.push(path_from_pairs(&pairs[i]));
        i += 1;
    }
    let plan = Solution { paths };
    assert(plan@ =~= plan_of_pairs(pairs@));
    plan
}

// ---------------------------------------------------------------------------
// Classifying and reporting
// ---------------------------------------------------------------------------

/// The final phase a trap leads to: a message that mentions the deadline or
/// the epoch is a timeout, one that mentions fuel is an exhausted budget.
pub open spec fn trap_phase(message: Seq<char>) -> ExecutionPhase {
    if mentions(message, "deadline"@) || mentions(message, "epoch"@) {
        ExecutionPhase::TrappedTimeout
    } else if mentions(message, "fuel"@) {
        ExecutionPhase::TrappedFuel
    } else {
        ExecutionPhase::TrappedOther
    }
}

pub open spec fn timeout_text(timeout_secs: u64) -> Seq<char> {
    "Solver timeout after "@ + decimal(timeout_secs as nat) + "s"@
}

/// The error reported for a trap.
pub open spec fn trap_text(message: Seq<char>, timeout_secs: u64) -> Seq<char> {
    match trap_phase(message) {
        ExecutionPhase::TrappedTimeout => timeout_text(timeout_secs),
        ExecutionPhase::TrappedFuel => "Solver exceeded instruction limit"@,
        _ => "Execution error: "@ + message,
    }
}

/// Classifies a trap by its diagnostic message and words the error for it.
pub fn classify_trap(message: &str, timeout_secs: u64) -> (out: (ExecutionPhase, String))
    ensures
        out.0 == trap_phase(message@),
        out.1@ == trap_text(message@, timeout_secs),
{
    let text = chars_of(message);
    let deadline = chars_of("deadline");
    let epoch = chars_of("epoch");
    let fuel = chars_of("fuel");
    if contains_text(text.as_slice(), deadline.as_slice()) || contains_text(
        text.as_slice(),
        epoch.as_slice(),
    ) {
        let mut error = String::from_str("Solver timeout after ");
        push_decimal(&mut error, timeout_secs);
        error.append("s");
        (ExecutionPhase::TrappedTimeout, error)
    } else if contains_text(text.as_slice(), fuel.as_slice()) {
        (ExecutionPhase::TrappedFuel, String::from_str("Solver exceeded instruction limit"))
    } else {
        let mut error = String::from_str("Execution error: ");
        error.append(message);
        (ExecutionPhase::TrappedOther, error)
    }
}

/// The instructions a run consumed: the budget less what is left of it. A
/// counter that cannot be read counts as used up.
pub open spec fn consumed(fuel_limit: u64, fuel_remaining: Option<u64>) -> u64 {
    match fuel_remaining {
        Some(left) => if left <= fuel_limit {
            (fuel_limit - left) as u64
        } else {
            0
        },
        None => fuel_limit,
    }
}

pub fn fuel_consumed(fuel_limit: u64, fuel_remaining: Option<u64>) -> (used: u64)
    ensures
        used == consumed(fuel_limit, fuel_remaining),
        used <= fuel_limit,
{
    match fuel_remaining {
        Some(left) => if left <= fuel_limit {
            fuel_limit - left
        } else {
            0
        },
        None => fuel_limit,
    }
}

/// The phase that follows `phase` on `event`. An event that the phase does
/// not wait for changes nothing; the final phases wait for none.
pub open spec fn next_phase(phase: ExecutionPhase, event: GuestEvent) -> ExecutionPhase {
    match phase {
        ExecutionPhase::Loading => match event {
            GuestEvent::Loaded => ExecutionPhase::Instantiating,
            GuestEvent::LoadFailed => ExecutionPhase::Refused,
            _ => phase,
        },
        ExecutionPhase::Instantiating => match event {
            GuestEvent::Instantiated => ExecutionPhase::Running,
            GuestEvent::InstantiateFailed => ExecutionPhase::Refused,
            GuestEvent::ExportMissing => ExecutionPhase::Refused,
            _ => phase,
        },
        ExecutionPhase::Running => match event {
            GuestEvent::Returned(_) => ExecutionPhase::Returned,
            GuestEvent::Declined(_) => ExecutionPhase::Returned,
            GuestEvent::Trapped(message) => trap_phase(message@),
            _ => phase,
        },
        _ => phase,
    }
}

pub open spec fn is_final(phase: ExecutionPhase) -> bool {
    phase != ExecutionPhase::Loading && phase != ExecutionPhase::Instantiating && phase
        != ExecutionPhase::Running
}

/// The error that ends a run on `event`, if the event is a failure the phase
/// waits for.
pub open spec fn failure_text(phase: ExecutionPhase, event: GuestEvent, timeout_secs: u64) -> Option<
    Seq<char>,
> {
    match phase {
        ExecutionPhase::Loading => match event {
            GuestEvent::LoadFailed => Some("Failed to load WASM component"@),
            _ => None,
        },
        ExecutionPhase::Instantiating => match event {
            GuestEvent::InstantiateFailed => Some("Failed to instantiate component"@),
            GuestEvent::ExportMissing => Some("Failed to get solve function"@),
            _ => None,
        },
        ExecutionPhase::Running => match event {
            GuestEvent::Declined(message) => Some(message@),
            GuestEvent::Trapped(message) => Some(trap_text(message@, timeout_secs)),
            _ => None,
        },
        _ => None,
    }
}

/// What is reported when `event` ends the run: the plan or the error, and in
/// every case the instructions consumed and the elapsed time. `None` while
/// the run goes on, and for events that the phase does not wait for.
pub open spec fn outcome_of(
    phase: ExecutionPhase,
    event: GuestEvent,
    limits: ExecutionLimits,
    fuel_remaining: Option<u64>,
    elapsed_ms: u64,
) -> Option<ResultModel> {
    let used = consumed(limits.fuel_limit, fuel_remaining);
    if phase == ExecutionPhase::Running && event is Returned {
        Some(
            ResultModel {
                plan: Some(plan_of_pairs(event->Returned_0@)),
                error: None,
                instruction_count: Some(used),
                execution_time_ms: elapsed_ms,
                fuel_consumed: Some(used),
            },
        )
    } else {
        match failure_text(phase, event, limits.timeout_secs) {
            Some(text) => Some(
                ResultModel {
                    plan: None,
                    error: Some(text),
                    instruction_count: Some(used),
                    execution_time_ms: elapsed_ms,
                    fuel_consumed: Some(used),
                },
            ),
            None => None,
        }
    }
}

fn failed(text: String, used: u64, elapsed_ms: u64) -> (result: SolverResult)
    ensures
        result@ == (ResultModel {
            plan: None,
            error: Some(text@),
            instruction_count: Some(used),
            execution_time_ms: elapsed_ms,
            fuel_consumed: Some(used),
        }),
{
    SolverResult {
        solution: None,
        error: Some(text),
        stats: SolverStats {
            instruction_count: Some(used),
            execution_time_ms: elapsed_ms,
            fuel_consumed: Some(used),
        },
    }
}

/// Takes one run a step further: from the phase it is in and what the
/// sandbox reported, to the phase that follows and, where that phase is
/// final, the result to hand back. The caller loads the module before the
/// first call, instantiates it when told `Instantiating`, and calls `solve`
/// when told `Running`.
pub fn advance(
    phase: ExecutionPhase,
    event: GuestEvent,
    limits: &ExecutionLimits,
    fuel_remaining: Option<u64>,
    elapsed_ms: u64,
) -> (out: (ExecutionPhase, Option<SolverResult>))
    ensures
        out.0 == next_phase(phase, event),
        match out.1 {
            Some(result) => outcome_of(phase, event, *limits, fuel_remaining, elapsed_ms) == Some(
                result@,
            ),
            None => outcome_of(phase, event, *limits, fuel_remaining, elapsed_ms) is None,
        },
{
    let used = fuel_consumed(limits.fuel_limit, fuel_remaining);
    match phase {
        ExecutionPhase::Loading => match event {
            GuestEvent::Loaded => (ExecutionPhase::Instantiating, None),
            GuestEvent::LoadFailed => (
                ExecutionPhase::Refused,
                Some(failed(String::from_str("Failed to load WASM component"), used, elapsed_ms)),
            ),
            _ => (phase, None),
        },
        ExecutionPhase::Instantiating => match event {
            GuestEvent::Instantiated => (ExecutionPhase::Running, None),
            GuestEvent::InstantiateFailed => (
                ExecutionPhase::Refused,
                Some(failed(String::from_str("Failed to instantiate component"), used, elapsed_ms)),
            ),
            GuestEvent::ExportMissing => (
                ExecutionPhase::Refused,
                Some(failed(String::from_str("Failed to get solve function"), used, elapsed_ms)),
            ),
            _ => (phase, None),
        },
        ExecutionPhase::Running => match event {
            GuestEvent::Returned(pairs) => {
                let result = SolverResult {
                    solution: Some(plan_from_pairs(&pairs)),
                    error: None,
                    stats: SolverStats {
                        instruction_count: Some(used),
                        execution_time_ms: elapsed_ms,
                        fuel_consumed: Some(used),
                    },
                };
                (ExecutionPhase::Returned, Some(result))
            },
            GuestEvent::Declined(message) => (
                ExecutionPhase::Returned,
                Some(failed(message, used, elapsed_ms)),
            ),
            GuestEvent::Trapped(message) => {
                let (next, text) = classify_trap(message.as_str(), limits.timeout_secs);
                (next, Some(failed(text, used, elapsed_ms)))
            },
            _ => (phase, None),
        },
        _ => (phase, None),
    }
}

/// Whatever a run reports, it reports no more instructions than its budget;
/// a run that ends in an exhausted budget says "instruction limit", and one
/// that ends at the deadline says "timeout".
pub proof fn lemma_reports_within_budget(
    phase: ExecutionPhase,
    event: GuestEvent,
    limits: ExecutionLimits,
    fuel_remaining: Option<u64>,
    elapsed_ms: u64,
)
    ensures
        is_final(phase) ==> next_phase(phase, event) == phase && outcome_of(
            phase,
            event,
            limits,
            fuel_remaining,
            elapsed_ms,
        ) is None,
        outcome_of(phase, event, limits, fuel_remaining, elapsed_ms) matches Some(result) ==> {
            &&& is_final(next_phase(phase, event))
            &&& result.instruction_count matches Some(used) && used <= limits.fuel_limit
            &&& result.execution_time_ms == elapsed_ms
            &&& next_phase(phase, event) == ExecutionPhase::TrappedFuel ==> (result.error matches Some(
                text,
            ) && mentions(text, "instruction limit"@))
            &&& next_phase(phase, event) == ExecutionPhase::TrappedTimeout ==> (
            result.error matches Some(text) && mentions(text, "timeout"@))
        },
{
    reveal_strlit("Solver exceeded instruction limit");
    reveal_strlit("instruction limit");
    reveal_strlit("Solver timeout after ");
    reveal_strlit("timeout");
    let fuel_text = "Solver exceeded instruction limit"@;
    assert(fuel_text.subrange(16, 33) =~= "instruction limit"@);
    assert(occurs_at(fuel_text, "instruction limit"@, 16));
    let late_text = timeout_text(limits.timeout_secs);
    assert(late_text.subrange(7, 14) =~= "timeout"@);
    assert(occurs_at(late_text, "timeout"@, 7));
}

} // verus!
