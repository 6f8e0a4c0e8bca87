use vstd::prelude::*;

verus! {

/// How many instructions a run may execute before it is stopped as an
/// endless loop.
pub const STEP_LIMIT: u64 = 1000000;

/// What the machine does next.
pub enum Step {
    /// Halted, or no call is left: the run is over.
    Finish,
    /// More instructions than `STEP_LIMIT` were asked for: the run fails
    /// with `InfiniteLoop`.
    TooLong,
    /// The current call's chunk is missing or its code is used up: the call
    /// returns (its frame is dropped).
    LeaveFrame,
    /// The instruction at the current call's position runs, and the
    /// position moves past it.
    Run,
}

/// The next step of a run, and the count of steps taken after it, from
/// whether the machine has halted, how many calls are open, how many steps
/// were taken before, and the length of the current call's code (`None`
/// when its chunk is missing) with its position. Each step that does not
/// finish the run is counted, and the step past `STEP_LIMIT` stops it.
pub fn next_step(halted: bool, frames: usize, steps: u64, code_len: Option<usize>, ip: usize) -> (r: (Step, u64))
    requires
        steps <= STEP_LIMIT,
    ensures
        halted || frames == 0 ==> r.0 is Finish && r.1 == steps,
        !halted && frames > 0 ==> r.1 == steps + 1,
        !halted && frames > 0 && steps + 1 > STEP_LIMIT ==> r.0 is TooLong,
        !halted && frames > 0 && steps + 1 <= STEP_LIMIT ==> (match code_len {
            Some(n) => if ip < n { r.0 is Run } else { r.0 is LeaveFrame },
            None => r.0 is LeaveFrame,
        }),
{
    if halted || frames == 0 {
        return (Step::Finish, steps);
    }
    let n = steps + 1;
    if n > STEP_LIMIT {
        return (Step::TooLong, n);
    }
    match code_len {
        Some(len) => if ip < len {
            (Step::Run, n)
        } else {
            (Step::LeaveFrame, n)
        },
        None => (Step::LeaveFrame, n),
    }
}

} // verus!
