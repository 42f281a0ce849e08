//! Where a step stands in the learning rate schedule.
//!
//! The rate climbs linearly from zero during warmup and then falls along half a cosine. Both
//! parts are functions of how far a step has come in its part, which is what is worked out here.
use crate::config::{LR_RESTART_STEP, MAX_STEPS, WARMUP_STEPS};
use vstd::prelude::*;

verus! {

/// How far a step has come in its part of the schedule.
#[derive(Clone, Copy, Debug, PartialEq, Eq, Structural)]
pub enum LrPoint {
    /// The rate is `step / of` of its peak.
    Warmup { step: usize, of: usize },
    /// The rate has gone `done / of` of the way from its peak to its floor.
    Decay { done: usize, of: usize },
}

/// Steps since the schedule's restart.
pub open spec fn since_restart(step: usize) -> int {
    if step >= LR_RESTART_STEP {
        step - LR_RESTART_STEP
    } else {
        0
    }
}

/// A schedule places `step`: it is still in warmup, or the schedule is at least as long as its
/// warmup.
pub open spec fn is_scheduled(step: usize, warmup_steps: usize, max_steps: usize) -> bool {
    since_restart(step) < warmup_steps || warmup_steps <= since_restart(max_steps)
}

/// Place of `step` in a schedule of `max_steps` steps, of which `warmup_steps` are warmup.
pub open spec fn point_of(step: usize, warmup_steps: usize, max_steps: usize) -> LrPoint {
    if since_restart(step) < warmup_steps {
        LrPoint::Warmup { step: since_restart(step) as usize, of: warmup_steps }
    } else {
        LrPoint::Decay {
            done: (since_restart(step) - warmup_steps) as usize,
            of: (since_restart(max_steps) - warmup_steps) as usize,
        }
    }
}

/// Place of `step` in a schedule of `max_steps` steps, of which `warmup_steps` are warmup.
pub fn lr_point(step: usize, warmup_steps: usize, max_steps: usize) -> (r: LrPoint)
    requires
        is_scheduled(step, warmup_steps, max_steps),
    ensures
        r == point_of(step, warmup_steps, max_steps),
{
    let step: usize = step.saturating_sub(LR_RESTART_STEP);
    let max_steps: usize = max_steps.saturating_sub(LR_RESTART_STEP);
    if step < warmup_steps {
        LrPoint::Warmup { step, of: warmup_steps }
    } else {
        LrPoint::Decay { done: step - warmup_steps, of: max_steps - warmup_steps }
    }
}

/// Every step of a run has its place in the run's schedule.
pub proof fn law_every_step_is_scheduled(step: usize)
    ensures
        is_scheduled(step, WARMUP_STEPS, MAX_STEPS),
{
}

/// Both parts are walked forward and never past their ends: before the last step of the schedule
/// a part is never complete.
pub proof fn law_progress_stays_below_one(step: usize, warmup_steps: usize, max_steps: usize)
    requires
        step < max_steps,
        warmup_steps < since_restart(max_steps),
    ensures
        match point_of(step, warmup_steps, max_steps) {
            LrPoint::Warmup { step, of } => step < of,
            LrPoint::Decay { done, of } => done < of,
        },
{
}

/// From the restart on, each step moves the schedule on by one, from warmup straight into decay.
pub proof fn law_schedule_moves_by_one(step: usize, warmup_steps: usize, max_steps: usize)
    requires
        LR_RESTART_STEP <= step < usize::MAX,
    ensures
        ({
            let next = point_of((step + 1) as usize, warmup_steps, max_steps);
            match point_of(step, warmup_steps, max_steps) {
                LrPoint::Warmup { step, of } => if step + 1 < of {
                    next == LrPoint::Warmup { step: (step + 1) as usize, of }
                } else {
                    next matches LrPoint::Decay { done, .. } && done == 0
                },
                LrPoint::Decay { done, of } => next == LrPoint::Decay {
                    done: (done + 1) as usize,
                    of,
                },
            }
        }),
{
}

/// A run that resumes after the restart's checkpoint does not begin with a rate of zero.
pub proof fn law_no_zero_rate_after_restart(step: usize, warmup_steps: usize, max_steps: usize)
    requires
        LR_RESTART_STEP < step,
    ensures
        point_of(step, warmup_steps, max_steps) matches LrPoint::Warmup { step, .. } ==> step > 0,
{
}

/// Where a step stands, in numbers: counted from the restart, a step before the end of warmup has
/// gone that many of the warmup's steps; any other has gone as many of the steps between warmup and
/// the last step as have passed since warmup.
pub proof fn law_place_in_numbers(step: usize, warmup_steps: usize, max_steps: usize)
    requires
        max_steps >= LR_RESTART_STEP + warmup_steps || warmup_steps == 0,
    ensures
        match point_of(step, warmup_steps, max_steps) {
            LrPoint::Warmup { step: gone, of } => {
                &&& step < LR_RESTART_STEP + warmup_steps
                &&& of == warmup_steps
                &&& if step < LR_RESTART_STEP {
                    gone == 0
                } else {
                    LR_RESTART_STEP + gone == step
                }
            },
            LrPoint::Decay { done, of } => {
                &&& step >= LR_RESTART_STEP + warmup_steps || (warmup_steps == 0 && done == 0)
                &&& if max_steps < LR_RESTART_STEP {
                    of == 0
                } else {
                    LR_RESTART_STEP + warmup_steps + of == max_steps
                }
                &&& step >= LR_RESTART_STEP ==> LR_RESTART_STEP + warmup_steps + done == step
            },
        },
{
}

/// A step before the end of warmup stands where it stands however long the run is.
pub proof fn law_warmup_does_not_depend_on_the_end(
    step: usize,
    warmup_steps: usize,
    max_steps: usize,
)
    requires
        warmup_steps > 0,
        step < LR_RESTART_STEP + warmup_steps,
    ensures
        point_of(step, warmup_steps, max_steps) == (LrPoint::Warmup {
            step: if step < LR_RESTART_STEP {
                0
            } else {
                (step - LR_RESTART_STEP) as usize
            },
            of: warmup_steps,
        }),
{
}

} // verus!
