//! A solver for trying out the sandbox: every agent waits one timestep on
//! its start.

use vstd::prelude::*;
use vstd::string::*;

verus! {

/// The plan in which every agent stands on its start for two timesteps.
pub open spec fn waiting_plan(starts: Seq<(i32, i32)>) -> Seq<Seq<(i32, i32)>> {
    Seq::new(starts.len(), |i: int| seq![starts[i], starts[i]])
}

pub open spec fn plan_view(plan: Seq<Vec<(i32, i32)>>) -> Seq<Seq<(i32, i32)>> {
    Seq::new(plan.len(), |i: int| plan[i]@)
}

/// Answers a `solve` call: the waiting plan, or an error if there are more
/// starts than goals.
pub fn wait_at_start(starts: &[(i32, i32)], goals: &[(i32, i32)]) -> (r: Result<
    Vec<Vec<(i32, i32)>>,
    String,
>)
    ensures
        starts@.len() <= goals@.len() ==> (r matches Ok(plan) && plan_view(plan@) == waiting_plan(
            starts@,
        )),
        starts@.len() > goals@.len() ==> (r matches Err(m) && m@ == "More starts than goals"@),
{
    let mut paths: Vec<Vec<(i32, i32)>> = Vec::new();
    let mut i: usize = 0;
    while i < starts.len()
        invariant
            i <= starts@.len(),
            i <= goals@.len(),
            paths@.len() == i,
            forall|k: int| 0 <= k < i ==> (#[trigger] paths@[k])@ == seq![starts@[k], starts@[k]],
        decreases starts@.len() - i,
    {
        if i >= goals.len() {
            return Err(String::from_str("More starts than goals"));
        }
        let mut path: Vec<(i32, i32)> = Vec::new();
        path.push(starts[i]);
        path.push(starts[i]);
        assert(path@ =~= seq![starts@[i as int], starts@[i as int]]);
        paths.push(path);
        i += 1;
    }
    assert(plan_view(paths@) =~= waiting_plan(starts@));
    Ok(paths)
}

/// The name the solver goes by.
pub fn info() -> (name: String)
    ensures
        name@ == "Test Component Solver v0.1"@,
{
    String::from_str("Test Component Solver v0.1")
}

} // verus!
