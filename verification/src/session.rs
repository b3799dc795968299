//! What a service says of its sessions.

use vstd::prelude::*;

use crate::time;
use crate::time::Duration;

verus! {

/// How often a session closed.
#[derive(Clone, Copy, PartialEq, Eq, Structural, Debug)]
pub struct Disconnects {
    pub count: u64,
}

impl Disconnects {
    pub fn new() -> (r: Disconnects)
        ensures
            r.count == 0,
    {
        Disconnects { count: 0 }
    }

    /// A session closed.
    pub fn on_close(&mut self)
        ensures
            final(self).count == old(self).count.wrapping_add(1),
    {
        self.count = self.count.wrapping_add(1);
    }
}

/// How a wait goes on.
#[derive(Clone, Copy, PartialEq, Eq, Structural, Debug)]
pub enum Wait {
    /// What was waited for has come.
    Done,
    /// The budget has run out first.
    TimedOut,
    /// Neither yet.
    Again,
}

/// How a wait goes on, given whether what is waited for has come.
pub open spec fn wait_state(come: bool, started: u128, now: u128, budget: Duration) -> Wait {
    if come {
        Wait::Done
    } else if time::between(started as nat, now as nat) >= budget.nanos {
        Wait::TimedOut
    } else {
        Wait::Again
    }
}

/// How a wait goes on.
pub fn poll(come: bool, started: u128, now: u128, budget: Duration) -> (r: Wait)
    ensures
        r == wait_state(come, started, now, budget),
{
    if come {
        Wait::Done
    } else if time::elapsed(started, now).nanos >= budget.nanos {
        Wait::TimedOut
    } else {
        Wait::Again
    }
}

/// What is left of a budget; nothing once it has run out.
pub open spec fn left_of(started: u128, now: u128, budget: Duration) -> nat {
    let taken = time::between(started as nat, now as nat);
    if taken < budget.nanos {
        (budget.nanos - taken) as nat
    } else {
        0
    }
}

/// What is left of a budget.
pub fn left(started: u128, now: u128, budget: Duration) -> (r: Duration)
    ensures
        r.nanos == left_of(started, now, budget),
{
    let taken: u128 = time::elapsed(started, now).nanos;
    Duration::from_nanos(
        if taken < budget.nanos {
            budget.nanos - taken
        } else {
            0
        },
    )
}

/// The exit code of a program: zero where its run passed, one where it failed.
pub fn exit_code(passed: bool) -> (r: u8)
    ensures
        passed ==> r == 0,
        !passed ==> r == 1,
{
    if passed {
        0
    } else {
        1
    }
}

/// A wait is done exactly where what was waited for has come, however late. It
/// has timed out exactly where that has not come and the budget has passed
/// since the start.
pub proof fn law_waits_end_by_arrival_or_budget(
    come: bool,
    started: u128,
    now: u128,
    budget: Duration,
)
    requires
        started <= now,
    ensures
        wait_state(come, started, now, budget) is Done <==> come,
        wait_state(come, started, now, budget) is TimedOut <==> !come && now - started
            >= budget.nanos,
        wait_state(come, started, now, budget) is Again <==> !come && now - started < budget.nanos,
{
}

/// What is left of a budget and what was taken of it make up the budget, until
/// nothing is left.
pub proof fn law_left_and_taken_make_up_the_budget(started: u128, now: u128, budget: Duration)
    requires
        started <= now,
    ensures
        now - started <= budget.nanos ==> left_of(started, now, budget) + (now - started)
            == budget.nanos,
        now - started >= budget.nanos ==> left_of(started, now, budget) == 0,
{
}

/// A program exits with zero exactly where its run passed.
pub proof fn law_exit_code_is_zero_for_a_pass(passed: bool, r: u8)
    requires
        call_ensures(exit_code, (passed,), r),
    ensures
        r == 0 <==> passed,
        r == 0 || r == 1,
{
}

} // verus!
