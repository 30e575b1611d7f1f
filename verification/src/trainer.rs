//! Mini-batch gradient descent: the states a training run goes through,
//! the step on one minibatch, and the loop over epochs.

use crate::batch::batch_fault;
use crate::error::SgdError;
use crate::model::{arithmetic_defined, arithmetic_specified, calc_gradient, LinearRegression};
use crate::table::{
    all_of_width, all_with_columns, batch_rows, chunks, column_of, lemma_chunks_partition,
    lemma_flatten_holds_each, row_views, without_column, Dataframe,
};
use core::ops::{Add, Div, Mul, Sub};
use rand::rngs::StdRng;
use vstd::prelude::*;

verus! {

/// Where a training run stands.
#[derive(Debug, Clone, Copy, PartialEq, Eq, Structural)]
pub enum TrainerState {
    /// No model has been drawn yet.
    Initializing,
    /// Epoch `epoch` is under way; `epoch` epochs have been completed.
    Training { epoch: u32 },
    /// A parameter stopped being finite during epoch `epoch`.
    Diverged { epoch: u32 },
    /// Every epoch of the budget has been completed.
    BudgetExhausted,
}

/// What happened since the state was last advanced.
#[derive(Debug, Clone, Copy, PartialEq, Eq, Structural)]
pub enum TrainerEvent {
    /// The initial model has been drawn.
    ModelDrawn,
    /// One minibatch update has been applied; `finite` says whether every
    /// parameter is still a finite number.
    BatchApplied { finite: bool },
    /// Every minibatch of the current epoch has been applied.
    EpochCompleted,
}

/// What the training loop has to do next.
#[derive(Debug, Clone, Copy, PartialEq, Eq, Structural)]
pub enum TrainerAction {
    /// Draw the initial model.
    DrawModel,
    /// Reshuffle, and apply the minibatches of epoch `epoch` one after the
    /// other.
    RunEpoch { epoch: u32 },
    /// Hand out the model as it stands.
    ReturnModel,
    /// Report that training diverged during epoch `epoch`.
    ReportDivergence { epoch: u32 },
}

/// Training has ended in `state`.
pub open spec fn is_terminal(state: TrainerState) -> bool {
    state is Diverged || state is BudgetExhausted
}

/// `state` can occur in a run with a budget of `max_iterations` epochs.
pub open spec fn within_budget(state: TrainerState, max_iterations: u32) -> bool {
    match state {
        TrainerState::Training { epoch } => epoch < max_iterations,
        TrainerState::Diverged { epoch } => epoch < max_iterations,
        _ => true,
    }
}

/// The state that training with a budget of `max_iterations` epochs is in
/// at the start of epoch `epoch`.
pub open spec fn state_at_epoch(epoch: int, max_iterations: u32) -> TrainerState {
    if epoch >= max_iterations {
        TrainerState::BudgetExhausted
    } else {
        TrainerState::Training { epoch: epoch as u32 }
    }
}

/// The state that follows `state` on `event`. An event that does not apply
/// to a state, and any event after training has ended, changes nothing.
pub open spec fn next_state(
    state: TrainerState,
    event: TrainerEvent,
    max_iterations: u32,
) -> TrainerState {
    match (state, event) {
        (TrainerState::Initializing, TrainerEvent::ModelDrawn) => state_at_epoch(
            0,
            max_iterations,
        ),
        (TrainerState::Training { epoch }, TrainerEvent::BatchApplied { finite }) => if finite {
            state
        } else {
            TrainerState::Diverged { epoch }
        },
        (TrainerState::Training { epoch }, TrainerEvent::EpochCompleted) => state_at_epoch(
            epoch + 1,
            max_iterations,
        ),
        _ => state,
    }
}

/// What is to be done in `state`.
pub open spec fn action_of(state: TrainerState) -> TrainerAction {
    match state {
        TrainerState::Initializing => TrainerAction::DrawModel,
        TrainerState::Training { epoch } => TrainerAction::RunEpoch { epoch },
        TrainerState::Diverged { epoch } => TrainerAction::ReportDivergence { epoch },
        TrainerState::BudgetExhausted => TrainerAction::ReturnModel,
    }
}

/// How many more `ModelDrawn` and `EpochCompleted` events `state` can take
/// before training has ended.
pub open spec fn steps_left(state: TrainerState, max_iterations: u32) -> nat {
    match state {
        TrainerState::Initializing => (max_iterations + 1) as nat,
        TrainerState::Training { epoch } => if epoch < max_iterations {
            (max_iterations - epoch) as nat
        } else {
            0
        },
        _ => 0,
    }
}

/// The state in which a training run starts.
pub fn start() -> (state: TrainerState)
    ensures
        state == TrainerState::Initializing,
{
    TrainerState::Initializing
}

/// Moves a training run with a budget of `max_iterations` epochs from
/// `state` to the state that follows it on `event`.
pub fn advance(state: TrainerState, event: TrainerEvent, max_iterations: u32) -> (next:
    TrainerState)
    ensures
        next == next_state(state, event, max_iterations),
{
    match state {
        TrainerState::Initializing => match event {
            TrainerEvent::ModelDrawn => {
                if max_iterations == 0 {
                    TrainerState::BudgetExhausted
                } else {
                    TrainerState::Training { epoch: 0 }
                }
            },
            _ => state,
        },
        TrainerState::Training { epoch } => match event {
            TrainerEvent::BatchApplied { finite } => {
                if finite {
                    state
                } else {
                    TrainerState::Diverged { epoch }
                }
            },
            TrainerEvent::EpochCompleted => {
                if epoch >= max_iterations || epoch + 1 >= max_iterations {
                    TrainerState::BudgetExhausted
                } else {
                    TrainerState::Training { epoch: epoch + 1 }
                }
            },
            TrainerEvent::ModelDrawn => state,
        },
        _ => state,
    }
}

/// What the training loop has to do in `state`.
pub fn action(state: TrainerState) -> (next: TrainerAction)
    ensures
        next == action_of(state),
{
    match state {
        TrainerState::Initializing => TrainerAction::DrawModel,
        TrainerState::Training { epoch } => TrainerAction::RunEpoch { epoch },
        TrainerState::Diverged { epoch } => TrainerAction::ReportDivergence { epoch },
        TrainerState::BudgetExhausted => TrainerAction::ReturnModel,
    }
}

/// Once training has ended, no event changes the state.
pub proof fn lemma_terminal_states_absorb(
    state: TrainerState,
    event: TrainerEvent,
    max_iterations: u32,
)
    requires
        is_terminal(state),
    ensures
        next_state(state, event, max_iterations) == state,
{
}

/// No event takes a run past its budget of epochs, and a run diverges only
/// from the epoch that was under way.
pub proof fn lemma_budget_kept(state: TrainerState, event: TrainerEvent, max_iterations: u32)
    requires
        within_budget(state, max_iterations),
    ensures
        within_budget(next_state(state, event, max_iterations), max_iterations),
        next_state(state, event, max_iterations) is Diverged && !(state is Diverged) ==> state
            == (TrainerState::Training {
            epoch: next_state(state, event, max_iterations)->Diverged_epoch,
        }) && event == (TrainerEvent::BatchApplied { finite: false }),
{
}

/// Training ends: no event adds to the steps that are left, and every
/// `ModelDrawn` or `EpochCompleted` that applies takes one away.
pub proof fn lemma_training_ends(state: TrainerState, event: TrainerEvent, max_iterations: u32)
    requires
        within_budget(state, max_iterations),
    ensures
        steps_left(next_state(state, event, max_iterations), max_iterations) <= steps_left(
            state,
            max_iterations,
        ),
        (state is Initializing && event is ModelDrawn) || (state is Training
            && event is EpochCompleted) ==> steps_left(
            next_state(state, event, max_iterations),
            max_iterations,
        ) < steps_left(state, max_iterations),
        steps_left(state, max_iterations) == 0 <==> is_terminal(state),
{
}

/// The number of epochs that a run in `state` has completed.
pub open spec fn epochs_done(state: TrainerState, max_iterations: u32) -> nat {
    match state {
        TrainerState::Initializing => 0,
        TrainerState::Training { epoch } => epoch as nat,
        TrainerState::Diverged { epoch } => epoch as nat,
        TrainerState::BudgetExhausted => max_iterations as nat,
    }
}

/// Every parameter of `model` passed the test `is_finite`.
pub open spec fn passes<T, F: Fn(T) -> bool>(model: LinearRegression<T>, is_finite: F) -> bool {
    &&& is_finite.ensures((model.intercept,), true)
    &&& forall|j: int|
        0 <= j < model.coefficients@.len() ==> is_finite.ensures(
            (#[trigger] model.coefficients@[j],),
            true,
        )
}

/// Some parameter of `model` failed the test `is_finite`.
pub open spec fn fails<T, F: Fn(T) -> bool>(model: LinearRegression<T>, is_finite: F) -> bool {
    ||| is_finite.ensures((model.intercept,), false)
    ||| exists|j: int|
        0 <= j < model.coefficients@.len() && is_finite.ensures(
            (#[trigger] model.coefficients@[j],),
            false,
        )
}

/// `after` is `before` moved by one gradient-descent step on the rows
/// `batch`, counted as `num_examples`.
pub open spec fn stepped_on<
    T: Copy + Add<Output = T> + Sub<Output = T> + Mul<Output = T> + Div<Output = T>,
>(
    before: LinearRegression<T>,
    after: LinearRegression<T>,
    batch: Seq<Seq<T>>,
    target_idx: int,
    learning_rate: T,
    num_examples: T,
) -> bool {
    let x = without_column(batch, target_idx);
    let y = column_of(batch, target_idx);
    let gradient = before.mean_gradient(x, y, num_examples);
    &&& after.intercept == before.stepped_intercept(gradient.1, learning_rate)
    &&& after.coefficients@ == before.stepped_coefficients(gradient.0, learning_rate)
}

/// `model` comes from `initial` by `steps` gradient-descent steps, one
/// after the other, each on a minibatch that holds at least one and at most
/// `batch_size` rows, only rows of `rows`, none more often than `rows`
/// does, and that `count` has counted. Every model that a step left and
/// the next step started from passed the test `is_finite`.
pub open spec fn reached<
    T: Copy + Add<Output = T> + Sub<Output = T> + Mul<Output = T> + Div<Output = T>,
    C: Fn(usize) -> T,
    F: Fn(T) -> bool,
>(
    initial: LinearRegression<T>,
    model: LinearRegression<T>,
    rows: Seq<Seq<T>>,
    batch_size: usize,
    target_idx: int,
    learning_rate: T,
    count: C,
    is_finite: F,
    steps: nat,
) -> bool
    decreases steps,
{
    if steps == 0 {
        &&& model.intercept == initial.intercept
        &&& model.coefficients@ == initial.coefficients@
    } else {
        exists|before: LinearRegression<T>, batch: Seq<Seq<T>>, num_examples: T|
            {
                &&& reached(
                    initial,
                    before,
                    rows,
                    batch_size,
                    target_idx,
                    learning_rate,
                    count,
                    is_finite,
                    (steps - 1) as nat,
                )
                &&& steps > 1 ==> passes(before, is_finite)
                &&& 0 < batch.len() <= batch_size
                &&& batch.to_multiset().subset_of(rows.to_multiset())
                &&& count.ensures((batch.len() as usize,), num_examples)
                &&& #[trigger] stepped_on(
                    before,
                    model,
                    batch,
                    target_idx,
                    learning_rate,
                    num_examples,
                )
            }
    }
}

/// `after` comes from `before` by one gradient-descent step on each of the
/// first `upto` of `batches`, in their order, each counted by `count`.
pub open spec fn stepped_through<
    T: Copy + Add<Output = T> + Sub<Output = T> + Mul<Output = T> + Div<Output = T>,
    C: Fn(usize) -> T,
>(
    before: LinearRegression<T>,
    after: LinearRegression<T>,
    batches: Seq<Seq<Seq<T>>>,
    upto: nat,
    target_idx: int,
    learning_rate: T,
    count: C,
) -> bool
    decreases upto,
{
    if upto == 0 {
        &&& after.intercept == before.intercept
        &&& after.coefficients@ == before.coefficients@
    } else {
        exists|middle: LinearRegression<T>, num_examples: T|
            {
                &&& stepped_through(
                    before,
                    middle,
                    batches,
                    (upto - 1) as nat,
                    target_idx,
                    learning_rate,
                    count,
                )
                &&& count.ensures((batches[upto - 1].len() as usize,), num_examples)
                &&& #[trigger] stepped_on(
                    middle,
                    after,
                    batches[upto - 1],
                    target_idx,
                    learning_rate,
                    num_examples,
                )
            }
    }
}

/// `after` comes from `before` by one epoch: the rows `rows` in some order,
/// each exactly as often as it occurs in `rows`, are cut into consecutive
/// minibatches of `batch_size` rows, and one step is taken on each
/// minibatch, in order.
pub open spec fn epoch_applied<
    T: Copy + Add<Output = T> + Sub<Output = T> + Mul<Output = T> + Div<Output = T>,
    C: Fn(usize) -> T,
>(
    before: LinearRegression<T>,
    after: LinearRegression<T>,
    rows: Seq<Seq<T>>,
    batch_size: nat,
    target_idx: int,
    learning_rate: T,
    count: C,
) -> bool {
    exists|shuffled: Seq<Seq<T>>|
        {
            &&& shuffled.to_multiset() == rows.to_multiset()
            &&& #[trigger] stepped_through(
                before,
                after,
                chunks(shuffled, batch_size),
                chunks(shuffled, batch_size).len(),
                target_idx,
                learning_rate,
                count,
            )
        }
}

/// `model` comes from `initial` by `epochs` epochs, one after the other.
pub open spec fn trained<
    T: Copy + Add<Output = T> + Sub<Output = T> + Mul<Output = T> + Div<Output = T>,
    C: Fn(usize) -> T,
>(
    initial: LinearRegression<T>,
    model: LinearRegression<T>,
    rows: Seq<Seq<T>>,
    batch_size: nat,
    target_idx: int,
    learning_rate: T,
    count: C,
    epochs: nat,
) -> bool
    decreases epochs,
{
    if epochs == 0 {
        &&& model.intercept == initial.intercept
        &&& model.coefficients@ == initial.coefficients@
    } else {
        exists|previous: LinearRegression<T>|
            {
                &&& trained(
                    initial,
                    previous,
                    rows,
                    batch_size,
                    target_idx,
                    learning_rate,
                    count,
                    (epochs - 1) as nat,
                )
                &&& #[trigger] epoch_applied(
                    previous,
                    model,
                    rows,
                    batch_size,
                    target_idx,
                    learning_rate,
                    count,
                )
            }
    }
}

/// On a table without rows an epoch takes no step, so any number of epochs
/// leaves a model as it is.
proof fn lemma_trained_without_rows<
    T: Copy + Add<Output = T> + Sub<Output = T> + Mul<Output = T> + Div<Output = T>,
    C: Fn(usize) -> T,
>(
    model: LinearRegression<T>,
    rows: Seq<Seq<T>>,
    batch_size: nat,
    target_idx: int,
    learning_rate: T,
    count: C,
    epochs: nat,
)
    requires
        rows.len() == 0,
    ensures
        trained(model, model, rows, batch_size, target_idx, learning_rate, count, epochs),
    decreases epochs,
{
    if epochs > 0 {
        lemma_trained_without_rows(
            model,
            rows,
            batch_size,
            target_idx,
            learning_rate,
            count,
            (epochs - 1) as nat,
        );
        assert(chunks(rows, batch_size).len() == 0);
        assert(stepped_through(
            model,
            model,
            chunks(rows, batch_size),
            chunks(rows, batch_size).len(),
            target_idx,
            learning_rate,
            count,
        ));
        assert(epoch_applied(model, model, rows, batch_size, target_idx, learning_rate, count));
    }
}

/// The number of minibatches of `batch_size` rows that `rows` rows make.
pub open spec fn batches_per_epoch(rows: nat, batch_size: nat) -> nat {
    ((rows + batch_size - 1) / (batch_size as int)) as nat
}

/// The number of steps of a run of `max_iterations` epochs that does not
/// diverge: one per minibatch and epoch.
pub open spec fn total_steps(max_iterations: u32, rows: nat, batch_size: nat) -> nat {
    (max_iterations * batches_per_epoch(rows, batch_size)) as nat
}

/// Some model that `steps` steps on minibatches of `rows` make of `initial`
/// failed the test `is_finite`, the first to do so.
pub open spec fn diverged_after<
    T: Copy + Add<Output = T> + Sub<Output = T> + Mul<Output = T> + Div<Output = T>,
    C: Fn(usize) -> T,
    F: Fn(T) -> bool,
>(
    initial: LinearRegression<T>,
    rows: Seq<Seq<T>>,
    batch_size: usize,
    target_idx: int,
    learning_rate: T,
    count: C,
    is_finite: F,
    steps: nat,
) -> bool {
    exists|model: LinearRegression<T>|
        {
            &&& #[trigger] reached(
                initial,
                model,
                rows,
                batch_size,
                target_idx,
                learning_rate,
                count,
                is_finite,
                steps,
            )
            &&& fails(model, is_finite)
        }
}

/// Whether every parameter of `model` passes the test `is_finite`.
fn all_finite<T: Copy, F: Fn(T) -> bool>(model: &LinearRegression<T>, is_finite: &F) -> (ok: bool)
    requires
        forall|v: T| is_finite.requires((v,)),
    ensures
        ok ==> passes(*model, *is_finite),
        !ok ==> fails(*model, *is_finite),
{
    if !is_finite(model.intercept) {
        return false;
    }
    for j in 0..model.coefficients.len()
        invariant
            forall|v: T| is_finite.requires((v,)),
            forall|k: int|
                0 <= k < j ==> is_finite.ensures((#[trigger] model.coefficients@[k],), true),
    {
        if !is_finite(model.coefficients[j]) {
            return false;
        }
    }
    true
}

/// One gradient-descent step on one minibatch: separates the target column
/// of `batch`, computes the gradient over its `num_examples` rows and moves
/// the parameters of `lr` against it by `learning_rate`. A batch that is
/// refused leaves the model as it was.
pub fn train_step<
    T: Copy + Add<Output = T> + Sub<Output = T> + Mul<Output = T> + Div<Output = T>,
>(
    lr: &mut LinearRegression<T>,
    batch: &Dataframe<T>,
    target_idx: usize,
    learning_rate: T,
    num_examples: T,
) -> (result: Result<(), SgdError>)
    requires
        arithmetic_defined::<T>(),
        batch.rows().len() > 0 ==> target_idx < batch.columns().len(),
    ensures
        final(lr).coefficients@.len() == old(lr).coefficients@.len(),
        batch.rows().len() > 0 ==> (result is Ok <==> batch.columns().len() == old(
            lr,
        ).coefficients@.len() + 1),
        arithmetic_specified::<T>() && result is Ok ==> stepped_on(
            *old(lr),
            *final(lr),
            batch.rows(),
            target_idx as int,
            learning_rate,
            num_examples,
        ),
        ({
            let x = without_column(batch.rows(), target_idx as int);
            let y = column_of(batch.rows(), target_idx as int);
            match batch_fault(x, y.len(), old(lr).coefficients@.len()) {
                Some(e) => {
                    &&& result == Err::<(), SgdError>(e)
                    &&& final(lr).intercept == old(lr).intercept
                    &&& final(lr).coefficients@ == old(lr).coefficients@
                },
                None => {
                    &&& result == Ok::<(), SgdError>(())
                    &&& arithmetic_specified::<T>() ==> {
                        let gradient = old(lr).mean_gradient(x, y, num_examples);
                        &&& final(lr).intercept == old(lr).stepped_intercept(
                            gradient.1,
                            learning_rate,
                        )
                        &&& final(lr).coefficients@ == old(lr).stepped_coefficients(
                            gradient.0,
                            learning_rate,
                        )
                    }
                },
            }
        }),
{
    let (features, targets) = batch.feature_target_extraction(target_idx);
    proof {
        if batch.rows().len() > 0 {
            let x = row_views(features@);
            assert(x[0].len() == batch.columns().len() - 1);
            if batch.columns().len() == lr.coefficients@.len() + 1 {
                assert(all_of_width(x, lr.coefficients@.len() as nat));
            }
        }
    }
    match calc_gradient(&features, &targets, lr, num_examples) {
        Err(e) => Err(e),
        Ok((gradient, intercept_derivative)) => lr.apply_update(
            &gradient,
            intercept_derivative,
            learning_rate,
        ),
    }
}

/// Trains `initial` on `df` by mini-batch gradient descent. Every epoch
/// reshuffles the rows with `rng`, cuts them into minibatches of
/// `batch_size` rows and applies one step per minibatch, each step on the
/// model that the step before it left. After every step `is_finite` tests
/// all parameters: the first failure ends training with the epoch in which
/// it occurred. Otherwise training ends after `max_iterations` epochs with
/// the model as it stands. `count` gives the number of rows of a minibatch
/// as a number of `T`.
pub fn train_linear_regression<
    T: Copy + Add<Output = T> + Sub<Output = T> + Mul<Output = T> + Div<Output = T>,
    C: Fn(usize) -> T,
    F: Fn(T) -> bool,
>(
    df: &Dataframe<T>,
    rng: &mut StdRng,
    initial: LinearRegression<T>,
    batch_size: usize,
    target_idx: usize,
    learning_rate: T,
    max_iterations: u32,
    count: C,
    is_finite: F,
) -> (result: Result<LinearRegression<T>, SgdError>)
    requires
        arithmetic_defined::<T>(),
        forall|n: usize| count.requires((n,)),
        forall|v: T| is_finite.requires((v,)),
        batch_size > 0,
        df.rows().len() > 0 ==> target_idx < df.columns().len(),
    ensures
        df.rows().len() == 0 || max_iterations == 0 ==> {
            &&& result is Ok
            &&& result->Ok_0.intercept == initial.intercept
            &&& result->Ok_0.coefficients@ == initial.coefficients@
        },
        df.rows().len() > 0 && max_iterations > 0 && df.columns().len()
            != initial.coefficients@.len() + 1 ==> result == Err::<LinearRegression<T>, SgdError>(
            SgdError::DimensionMismatch,
        ),
        match result {
            Ok(model) => {
                &&& model.coefficients@.len() == initial.coefficients@.len()
                &&& df.rows().len() > 0 && max_iterations > 0 ==> passes(model, is_finite)
                &&& arithmetic_specified::<T>() ==> reached(
                    initial,
                    model,
                    df.rows(),
                    batch_size,
                    target_idx as int,
                    learning_rate,
                    count,
                    is_finite,
                    total_steps(max_iterations, df.rows().len(), batch_size as nat),
                )
                &&& arithmetic_specified::<T>() ==> trained(
                    initial,
                    model,
                    df.rows(),
                    batch_size as nat,
                    target_idx as int,
                    learning_rate,
                    count,
                    max_iterations as nat,
                )
            },
            Err(SgdError::Diverged { epoch }) => {
                &&& epoch < max_iterations
                &&& df.rows().len() > 0
                &&& df.columns().len() == initial.coefficients@.len() + 1
                &&& arithmetic_specified::<T>() ==> exists|steps: nat|
                    {
                        &&& total_steps(epoch, df.rows().len(), batch_size as nat) < steps
                            <= total_steps(epoch, df.rows().len(), batch_size as nat)
                            + batches_per_epoch(df.rows().len(), batch_size as nat)
                        &&& #[trigger] diverged_after(
                            initial,
                            df.rows(),
                            batch_size,
                            target_idx as int,
                            learning_rate,
                            count,
                            is_finite,
                            steps,
                        )
                    }
            },
            Err(SgdError::DimensionMismatch) => {
                &&& df.rows().len() > 0
                &&& max_iterations > 0
                &&& df.columns().len() != initial.coefficients@.len() + 1
            },
            Err(_) => false,
        },
{
    let mut lr = initial;
    let ghost per_epoch = batches_per_epoch(df.rows().len(), batch_size as nat);
    if df.num_rows() == 0 || max_iterations == 0 {
        proof {
            if df.rows().len() == 0 {
                assert(per_epoch == 0) by (nonlinear_arith)
                    requires
                        per_epoch == ((0 + batch_size - 1) / (batch_size as int)) as nat,
                        batch_size > 0,
                ;
            }
            assert(max_iterations * per_epoch == 0) by (nonlinear_arith)
                requires
                    max_iterations == 0 || per_epoch == 0,
            ;
            if df.rows().len() == 0 {
                lemma_trained_without_rows(
                    lr,
                    df.rows(),
                    batch_size as nat,
                    target_idx as int,
                    learning_rate,
                    count,
                    max_iterations as nat,
                );
            }
        }
        return Ok(lr);
    }
    if df.num_columns() - 1 != lr.coefficients.len() {
        return Err(SgdError::DimensionMismatch);
    }
    let mut state = advance(start(), TrainerEvent::ModelDrawn, max_iterations);
    let ghost mut steps: nat = 0;
    proof {
        assert(0 * per_epoch == 0) by (nonlinear_arith);
    }
    loop
        invariant
            arithmetic_defined::<T>(),
            forall|n: usize| count.requires((n,)),
            forall|v: T| is_finite.requires((v,)),
            batch_size > 0,
            df.rows().len() > 0,
            target_idx < df.columns().len(),
            max_iterations > 0,
            per_epoch == batches_per_epoch(df.rows().len(), batch_size as nat),
            df.columns().len() == initial.coefficients@.len() + 1,
            lr.coefficients@.len() == initial.coefficients@.len(),
            within_budget(state, max_iterations),
            !(state is Initializing),
            state is BudgetExhausted ==> passes(lr, is_finite),
            state is Training && steps > 0 ==> passes(lr, is_finite),
            state is BudgetExhausted ==> steps == max_iterations * per_epoch,
            state is Training ==> steps == state->Training_epoch * per_epoch,
            state is Diverged ==> state->Diverged_epoch * per_epoch < steps
                <= state->Diverged_epoch * per_epoch + per_epoch,
            arithmetic_specified::<T>() && state is Diverged ==> diverged_after(
                initial,
                df.rows(),
                batch_size,
                target_idx as int,
                learning_rate,
                count,
                is_finite,
                steps,
            ),
            arithmetic_specified::<T>() && !(state is Diverged) ==> reached(
                initial,
                lr,
                df.rows(),
                batch_size,
                target_idx as int,
                learning_rate,
                count,
                is_finite,
                steps,
            ),
            arithmetic_specified::<T>() && !(state is Diverged) ==> trained(
                initial,
                lr,
                df.rows(),
                batch_size as nat,
                target_idx as int,
                learning_rate,
                count,
                epochs_done(state, max_iterations),
            ),
        decreases steps_left(state, max_iterations),
    {
        match action(state) {
            TrainerAction::RunEpoch { epoch } => {
                let batches = df.get_shuffled_minibatch(rng, batch_size);
                proof {
                    let joined = batch_rows(batches@).flatten();
                    lemma_chunks_partition(joined, batch_size as nat);
                    assert(chunks(joined, batch_size as nat).len() > 0);
                    assert(batch_rows(batches@).len() == batches@.len());
                    assert(batches@.len() == per_epoch);
                    assert forall|i: int| 0 <= i < batches@.len() implies 0 < (
                    #[trigger] batches@[i]).rows().len() <= batch_size by {
                        assert(batches@[i].rows() == batch_rows(batches@)[i]);
                    }
                }
                let mut b: usize = 0;
                let ghost epoch_start = lr;
                while b < batches.len() && !is_diverged(state)
                    invariant
                        arithmetic_defined::<T>(),
                        forall|n: usize| count.requires((n,)),
                        forall|v: T| is_finite.requires((v,)),
                        target_idx < df.columns().len(),
                        df.columns().len() == initial.coefficients@.len() + 1,
                        lr.coefficients@.len() == initial.coefficients@.len(),
                        all_with_columns(batches@, df.columns()),
                        batch_rows(batches@).flatten().to_multiset() == df.rows().to_multiset(),
                        forall|i: int|
                            0 <= i < batches@.len() ==> 0 < (#[trigger] batches@[i]).rows().len()
                                <= batch_size,
                        epoch < max_iterations,
                        b <= batches@.len(),
                        batches@.len() == per_epoch,
                        state == (TrainerState::Training { epoch }) || state == (
                        TrainerState::Diverged { epoch }),
                        state is Training && steps > 0 ==> passes(lr, is_finite),
                        state is Training ==> steps == epoch * per_epoch + b,
                        state is Diverged ==> epoch * per_epoch < steps <= epoch * per_epoch
                            + per_epoch,
                        arithmetic_specified::<T>() && state is Diverged ==> diverged_after(
                            initial,
                            df.rows(),
                            batch_size,
                            target_idx as int,
                            learning_rate,
                            count,
                            is_finite,
                            steps,
                        ),
                        arithmetic_specified::<T>() && state is Training ==> reached(
                            initial,
                            lr,
                            df.rows(),
                            batch_size,
                            target_idx as int,
                            learning_rate,
                            count,
                            is_finite,
                            steps,
                        ),
                        batch_rows(batches@) == chunks(
                            batch_rows(batches@).flatten(),
                            batch_size as nat,
                        ),
                        arithmetic_specified::<T>() ==> trained(
                            initial,
                            epoch_start,
                            df.rows(),
                            batch_size as nat,
                            target_idx as int,
                            learning_rate,
                            count,
                            epoch as nat,
                        ),
                        arithmetic_specified::<T>() && state is Training ==> stepped_through(
                            epoch_start,
                            lr,
                            batch_rows(batches@),
                            b as nat,
                            target_idx as int,
                            learning_rate,
                            count,
                        ),
                    decreases batches@.len() - b,
                {
                    let batch = &batches[b];
                    let batch_len = batch.num_rows();
                    let num_examples = count(batch_len);
                    let ghost before = lr;
                    match train_step(&mut lr, batch, target_idx, learning_rate, num_examples) {
                        Err(e) => {
                            return Err(e);
                        },
                        Ok(()) => {},
                    }
                    proof {
                        if arithmetic_specified::<T>() {
                            lemma_flatten_holds_each(batch_rows(batches@), b as int);
                            assert(batch_rows(batches@)[b as int] == batch.rows());
                            assert(stepped_on(
                                before,
                                lr,
                                batch.rows(),
                                target_idx as int,
                                learning_rate,
                                num_examples,
                            ));
                            assert(reached(
                                initial,
                                lr,
                                df.rows(),
                                batch_size,
                                target_idx as int,
                                learning_rate,
                                count,
                                is_finite,
                                (steps + 1) as nat,
                            ));
                            assert(batch_rows(batches@)[b as int].len() as usize == batch_len);
                            assert(count.ensures(
                                (batch_rows(batches@)[(b + 1) - 1].len() as usize,),
                                num_examples,
                            ));
                            assert(stepped_through(
                                epoch_start,
                                before,
                                batch_rows(batches@),
                                ((b + 1) - 1) as nat,
                                target_idx as int,
                                learning_rate,
                                count,
                            ));
                            assert(stepped_on(
                                before,
                                lr,
                                batch_rows(batches@)[(b + 1) - 1],
                                target_idx as int,
                                learning_rate,
                                num_examples,
                            ));
                            assert(stepped_through(
                                epoch_start,
                                lr,
                                batch_rows(batches@),
                                (b + 1) as nat,
                                target_idx as int,
                                learning_rate,
                                count,
                            ));
                        }
                        steps = steps + 1;
                    }
                    let finite = all_finite(&lr, &is_finite);
                    state = advance(state, TrainerEvent::BatchApplied { finite }, max_iterations);
                    b = b + 1;
                }
                proof {
                    assert((epoch + 1) * per_epoch == epoch * per_epoch + per_epoch)
                        by (nonlinear_arith);
                    if arithmetic_specified::<T>() && state is Training {
                        let shuffled = batch_rows(batches@).flatten();
                        assert(stepped_through(
                            epoch_start,
                            lr,
                            chunks(shuffled, batch_size as nat),
                            chunks(shuffled, batch_size as nat).len(),
                            target_idx as int,
                            learning_rate,
                            count,
                        ));
                        assert(epoch_applied(
                            epoch_start,
                            lr,
                            df.rows(),
                            batch_size as nat,
                            target_idx as int,
                            learning_rate,
                            count,
                        ));
                        assert(trained(
                            initial,
                            lr,
                            df.rows(),
                            batch_size as nat,
                            target_idx as int,
                            learning_rate,
                            count,
                            (epoch + 1) as nat,
                        ));
                    }
                }
                state = advance(state, TrainerEvent::EpochCompleted, max_iterations);
            },
            TrainerAction::ReportDivergence { epoch } => {
                return Err(SgdError::Diverged { epoch });
            },
            _ => {
                return Ok(lr);
            },
        }
    }
}

/// Whether training has diverged in `state`.
pub fn is_diverged(state: TrainerState) -> (diverged: bool)
    ensures
        diverged == (state is Diverged),
{
    match state {
        TrainerState::Diverged { .. } => true,
        _ => false,
    }
}

} // verus!
