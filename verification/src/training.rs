//! What a training run does at each step.
use crate::binary32::{
    finite, law_below_compares_values, law_greatest_number, Real, MAX_BITS,
};
use crate::checkpoint::{
    checkpoint_path, final_name, is_latest, law_finished_run_stays_finished,
    law_saved_checkpoint_is_found, resumable, step_name, DirEntry,
};
use crate::config::{
    DIM, FFN_HIDDEN, LOG_EVERY, MAX_STEPS, NUM_LAYERS, SAVE_EVERY, SEQ_LEN, VOCAB_SIZE,
};
use crate::text::{decimal, push_decimal};
use vstd::prelude::*;

verus! {

/// What a run begins with.
#[derive(Clone, Copy, Debug, PartialEq, Eq, Structural)]
pub enum RunPlan {
    /// Train from this step on.
    Train { start_step: usize },
    /// An earlier run has taken all steps; the next would be this one.
    Complete { start_step: usize },
}

/// A run resumes with the step after that of its checkpoint.
pub open spec fn plan_after(latest: Option<usize>) -> RunPlan {
    let start_step = match latest {
        Some(step) => (step + 1) as usize,
        None => 0,
    };
    if start_step >= MAX_STEPS {
        RunPlan::Complete { start_step }
    } else {
        RunPlan::Train { start_step }
    }
}

/// What a run begins with, given the step of the checkpoint that it resumes from.
pub fn plan_run(latest: Option<usize>) -> (r: RunPlan)
    requires
        latest is Some ==> latest->0 < usize::MAX,
    ensures
        r == plan_after(latest),
{
    let start_step: usize = match latest {
        Some(step) => step + 1,
        None => 0,
    };
    if start_step >= MAX_STEPS {
        RunPlan::Complete { start_step }
    } else {
        RunPlan::Train { start_step }
    }
}

/// A run in progress: the step to take next, and the lowest loss so far.
pub struct TrainingRun {
    step: usize,
    best_loss: Real,
}

/// What follows a step.
pub enum StepOutcome {
    /// The loss is no longer a finite number: training is over. `log` says whether the step's
    /// progress is reported first.
    Stop { log: bool },
    /// Training goes on. `save` is the path to save a checkpoint at.
    Continue { log: bool, save: Option<String> },
}

/// The lower of two losses; the older one if neither is below the other.
pub open spec fn improved(best: Real, loss: Option<Real>) -> Real {
    match loss {
        Some(l) => if l.below(best) {
            l
        } else {
            best
        },
        None => best,
    }
}

/// Training cannot go on after this loss.
pub open spec fn diverged(loss: Option<Real>) -> bool {
    loss is Some && (loss->0.nan() || loss->0.infinite())
}

/// Progress is reported after this step.
pub open spec fn is_logged(step: usize, loss: Option<Real>) -> bool {
    loss is Some && step % LOG_EVERY == 0
}

/// A checkpoint is saved after this step.
pub open spec fn is_saved(step: usize) -> bool {
    step % SAVE_EVERY == 0 && step > 0
}

impl TrainingRun {
    pub closed spec fn step(&self) -> usize {
        self.step
    }

    pub closed spec fn best_loss(&self) -> Real {
        self.best_loss
    }

    pub open spec fn done(&self) -> bool {
        self.step() >= MAX_STEPS
    }

    /// A run that begins with `start_step`. No loss has been seen.
    pub fn begin(start_step: usize) -> (r: TrainingRun)
        ensures
            r.step() == start_step,
            r.best_loss() == (Real { bits: MAX_BITS }),
    {
        TrainingRun { step: start_step, best_loss: Real { bits: MAX_BITS } }
    }

    pub fn is_done(&self) -> (r: bool)
        ensures
            r == self.done(),
    {
        self.step >= MAX_STEPS
    }

    pub fn current_step(&self) -> (r: usize)
        ensures
            r == self.step(),
    {
        self.step
    }

    pub fn lowest_loss(&self) -> (r: Real)
        ensures
            r == self.best_loss(),
    {
        self.best_loss
    }

    /// Takes the loss of the current step, if the step completed an update, and moves on to the
    /// next step unless the loss has diverged.
    pub fn finish_step(&mut self, loss: Option<Real>) -> (r: StepOutcome)
        requires
            !old(self).done(),
        ensures
            final(self).best_loss() == improved(old(self).best_loss(), loss),
            match r {
                StepOutcome::Stop { log } => {
                    &&& diverged(loss)
                    &&& log == is_logged(old(self).step(), loss)
                    &&& final(self).step() == old(self).step()
                },
                StepOutcome::Continue { log, save } => {
                    &&& !diverged(loss)
                    &&& log == is_logged(old(self).step(), loss)
                    &&& final(self).step() == old(self).step() + 1
                    &&& match save {
                        Some(path) => {
                            &&& is_saved(old(self).step())
                            &&& path@ == "checkpoints\\"@ + step_name(old(self).step() as nat)
                        },
                        None => !is_saved(old(self).step()),
                    }
                },
            },
    {
        let step: usize = self.step;
        let mut log: bool = false;
        if let Some(l) = loss {
            if l.less_than(self.best_loss) {
                self.best_loss = l;
            }
            log = step % LOG_EVERY == 0;
            if l.is_nan() || l.is_infinite() {
                return StepOutcome::Stop { log };
            }
        }
        self.step = step + 1;
        if step % SAVE_EVERY == 0 && step > 0 {
            StepOutcome::Continue { log, save: Some(checkpoint_path(step)) }
        } else {
            StepOutcome::Continue { log, save: None }
        }
    }
}

/// The lowest of a run's losses, none of them lower than `best` to begin with.
pub open spec fn lowest(best: Real, losses: Seq<Option<Real>>) -> Real
    decreases losses.len(),
{
    if losses.len() == 0 {
        best
    } else {
        improved(lowest(best, losses.drop_last()), losses.last())
    }
}

/// No loss of a run is below the one that is kept as the lowest, which is one of them or the one
/// that the run began with.
pub proof fn law_lowest_loss_is_lowest(best: Real, losses: Seq<Option<Real>>)
    requires
        !best.nan(),
    ensures
        !lowest(best, losses).nan(),
        !best.below(lowest(best, losses)),
        forall|i: int|
            0 <= i < losses.len() && (#[trigger] losses[i]) is Some ==> !losses[i]->0.below(
                lowest(best, losses),
            ),
        lowest(best, losses) == best || losses.contains(Some(lowest(best, losses))),
    decreases losses.len(),
{
    if losses.len() > 0 {
        let before = losses.drop_last();
        law_lowest_loss_is_lowest(best, before);
        let low = lowest(best, before);
        assert forall|i: int| 0 <= i < losses.len() && (#[trigger] losses[i]) is Some implies !(
        losses[i]->0).below(lowest(best, losses)) by {
            if i < before.len() {
                assert(before[i] == losses[i]);
            }
        }
        if lowest(best, losses) == low && low != best {
            let k = choose|k: int| 0 <= k < before.len() && before[k] == Some(low);
            assert(losses[k] == Some(low));
        } else if lowest(best, losses) != best {
            assert(losses[losses.len() - 1] == Some(lowest(best, losses)));
        }
    }
}

/// An interruption costs fewer steps than lie between two checkpoints: one was saved at the current
/// step or fewer than that many steps before.
pub proof fn law_little_is_lost(step: usize)
    requires
        step >= SAVE_EVERY,
    ensures
        exists|k: usize| step - SAVE_EVERY < k <= step && #[trigger] is_saved(k),
{
    let k = (step - step % SAVE_EVERY) as usize;
    assert(is_saved(k));
}

/// A run that saved a checkpoint and was then interrupted resumes with the step after it, if no
/// checkpoint of a greater step is there.
pub proof fn law_interrupted_run_continues(entries: Seq<DirEntry>, saved: DirEntry, step: usize)
    requires
        saved.name is Some,
        saved.name->0@ == step_name(step as nat),
        saved.path is Some,
        step + 1 < MAX_STEPS,
        forall|i: int|
            0 <= i < entries.len() && (#[trigger] resumable(entries[i])) is Some ==> resumable(
                entries[i],
            )->0.step <= step,
    ensures
        ({
            let all = entries.push(saved);
            let latest = resumable(all[entries.len() as int])->0.step;
            &&& is_latest(all, entries.len() as int)
            &&& plan_after(Some(latest)) == RunPlan::Train { start_step: (step + 1) as usize }
        }),
{
    law_saved_checkpoint_is_found(entries, saved, step);
}

/// A finished run is not trained again: where it left its checkpoint, whatever else is there, a run
/// that is started anew has nothing to do.
pub proof fn law_finished_run_is_complete(entries: Seq<DirEntry>, f: int, i: int)
    requires
        0 <= f < entries.len(),
        entries[f].name is Some,
        entries[f].name->0@ == final_name(),
        entries[f].path is Some,
        is_latest(entries, i),
        resumable(entries[i])->0.step < usize::MAX,
    ensures
        plan_after(Some(resumable(entries[i])->0.step)) is Complete,
{
    law_finished_run_stays_finished(entries, f, i);
}

/// Text of the description that a finished run leaves beside its model.
pub open spec fn description(best_loss: Seq<char>) -> Seq<char> {
    "{\n  \"dim\": "@ + decimal(DIM as nat) + ",\n  \"num_layers\": "@ + decimal(NUM_LAYERS as nat)
        + ",\n  \"seq_len\": "@ + decimal(SEQ_LEN as nat) + ",\n  \"ffn_hidden\": "@ + decimal(
        FFN_HIDDEN as nat,
    ) + ",\n  \"vocab_size\": "@ + decimal(VOCAB_SIZE as nat) + ",\n  \"trained_steps\": "@
        + decimal(MAX_STEPS as nat) + ",\n  \"best_loss\": "@ + best_loss + "\n}"@
}

/// The description that a finished run leaves beside its model, as JSON. `best_loss` is the lowest
/// loss in decimal notation.
pub fn config_json(best_loss: &str) -> (r: String)
    ensures
        r@ == description(best_loss@),
{
    let mut text: String = String::new();
    text.append("{\n  \"dim\": ");
    push_decimal(&mut text, DIM as usize);
    text.append(",\n  \"num_layers\": ");
    push_decimal(&mut text, NUM_LAYERS);
    text.append(",\n  \"seq_len\": ");
    push_decimal(&mut text, SEQ_LEN as usize);
    text.append(",\n  \"ffn_hidden\": ");
    push_decimal(&mut text, FFN_HIDDEN as usize);
    text.append(",\n  \"vocab_size\": ");
    push_decimal(&mut text, VOCAB_SIZE as usize);
    text.append(",\n  \"trained_steps\": ");
    push_decimal(&mut text, MAX_STEPS);
    text.append(",\n  \"best_loss\": ");
    text.append(best_loss);
    text.append("\n}");
    text
}

/// Checkpoints are saved at the positive multiples of the interval and nowhere else.
pub proof fn law_saved_at_multiples_only(step: usize, n: nat, d: nat)
    requires
        step == n * SAVE_EVERY + d,
        d < SAVE_EVERY,
    ensures
        is_saved(step) <==> d == 0 && n > 0,
{
    assert(step as int % SAVE_EVERY as int == d) by (nonlinear_arith)
        requires
            step == n * SAVE_EVERY + d,
            0 <= d < SAVE_EVERY,
            SAVE_EVERY == 5000,
    ;
}

/// Progress is reported after the steps that are multiples of the interval, if they gave a loss,
/// and after no others.
pub proof fn law_logged_at_multiples_only(step: usize, n: nat, d: nat, loss: Option<Real>)
    requires
        step == n * LOG_EVERY + d,
        d < LOG_EVERY,
    ensures
        is_logged(step, loss) <==> d == 0 && loss is Some,
{
    assert(step as int % LOG_EVERY as int == d) by (nonlinear_arith)
        requires
            step == n * LOG_EVERY + d,
            0 <= d < LOG_EVERY,
            LOG_EVERY == 50,
    ;
}

/// A loss ends training exactly if its exponent bits are all ones: then it is no finite number.
pub proof fn law_only_finite_losses_go_on(loss: Real)
    ensures
        diverged(Some(loss)) <==> loss.bits as int / 0x80_0000 % 256 == 255,
        !diverged(None),
{
}

/// Of two finite losses the smaller one is kept, and the older one of two equal ones. One that is
/// not a number is never kept, and neither is an infinite one, unless it is negative: that is kept
/// for good.
pub proof fn law_smaller_loss_is_kept(best: Real, loss: Real)
    ensures
        improved(best, None) == best,
        finite(best) && finite(loss) ==> improved(best, Some(loss)) == if loss.value()
            < best.value() {
            loss
        } else {
            best
        },
        loss.bits as int % 0x8000_0000 > 0x7f80_0000 ==> improved(best, Some(loss)) == best,
        loss.bits == 0x7f80_0000 ==> improved(best, Some(loss)) == best,
        finite(best) && loss.bits == 0xff80_0000 ==> improved(best, Some(loss)) == loss,
        best.bits == 0xff80_0000 ==> improved(best, Some(loss)) == best,
{
    if finite(best) && finite(loss) {
        law_below_compares_values(loss, best);
    }
}

/// The first finite loss of a run is its lowest so far, whatever it is.
pub proof fn law_first_loss_is_kept(loss: Real)
    requires
        finite(loss),
    ensures
        improved(Real { bits: MAX_BITS }, Some(loss)) == loss,
{
    law_greatest_number(loss);
    law_below_compares_values(loss, Real { bits: MAX_BITS });
}

/// A run is done once it has taken all its steps, and no sooner.
pub proof fn law_run_takes_all_steps(run: TrainingRun)
    ensures
        run.done() <==> run.step() >= MAX_STEPS,
{
}

/// A run without a checkpoint begins with step zero, any other with the step after that of its
/// checkpoint, unless that step is beyond the last.
pub proof fn law_run_begins_after_its_checkpoint(step: usize)
    requires
        step < usize::MAX,
    ensures
        plan_after(None) == (RunPlan::Train { start_step: 0 }),
        step + 1 < MAX_STEPS ==> plan_after(Some(step)) == (RunPlan::Train {
            start_step: (step + 1) as usize,
        }),
        step + 1 >= MAX_STEPS ==> plan_after(Some(step)) == (RunPlan::Complete {
            start_step: (step + 1) as usize,
        }),
{
}

/// The lowest loss stands in the description as it was given, whole, and the rest of the
/// description does not depend on it.
pub proof fn law_description_holds_the_loss(a: Seq<char>, b: Seq<char>)
    ensures
        ({
            let (x, y) = (description(a), description(b));
            let front = y.len() - b.len() - 2;
            &&& front >= 0
            &&& x == y.take(front) + a + y.skip(y.len() - 2)
            &&& y.take(front).len() + a.len() + 2 == x.len()
        }),
{
    reveal_strlit("\n}");
    let front = "{\n  \"dim\": "@ + decimal(DIM as nat) + ",\n  \"num_layers\": "@ + decimal(
        NUM_LAYERS as nat,
    ) + ",\n  \"seq_len\": "@ + decimal(SEQ_LEN as nat) + ",\n  \"ffn_hidden\": "@ + decimal(
        FFN_HIDDEN as nat,
    ) + ",\n  \"vocab_size\": "@ + decimal(VOCAB_SIZE as nat) + ",\n  \"trained_steps\": "@
        + decimal(MAX_STEPS as nat) + ",\n  \"best_loss\": "@;
    let (x, y) = (description(a), description(b));
    assert(x == front + a + "\n}"@);
    assert(y == front + b + "\n}"@);
    assert(y.take(front.len() as int) == front);
    assert(y.skip(y.len() - 2) == "\n}"@);
}

} // verus!
