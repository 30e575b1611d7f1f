use minibatch_sgd::batch::{check_batch, check_example};
use minibatch_sgd::error::SgdError;
use minibatch_sgd::trainer::{
    action, advance, is_diverged, start, TrainerAction, TrainerEvent, TrainerState,
};

#[test]
fn training_starts_by_drawing_a_model() {
    let state = start();
    assert_eq!(state, TrainerState::Initializing);
    assert_eq!(action(state), TrainerAction::DrawModel);
    assert!(!is_diverged(state));
    assert_eq!(
        advance(state, TrainerEvent::ModelDrawn, 3),
        TrainerState::Training { epoch: 0 }
    );
}

#[test]
fn empty_budget_is_exhausted_at_once() {
    let state = advance(start(), TrainerEvent::ModelDrawn, 0);
    assert_eq!(state, TrainerState::BudgetExhausted);
    assert_eq!(action(state), TrainerAction::ReturnModel);
    assert!(!is_diverged(state));
}

#[test]
fn finite_updates_stay_in_the_epoch() {
    let state = TrainerState::Training { epoch: 4 };
    assert_eq!(
        advance(state, TrainerEvent::BatchApplied { finite: true }, 10),
        state
    );
    assert_eq!(action(state), TrainerAction::RunEpoch { epoch: 4 });
}

#[test]
fn non_finite_update_diverges_in_its_epoch() {
    let state = advance(
        TrainerState::Training { epoch: 4 },
        TrainerEvent::BatchApplied { finite: false },
        10,
    );
    assert_eq!(state, TrainerState::Diverged { epoch: 4 });
    assert_eq!(action(state), TrainerAction::ReportDivergence { epoch: 4 });
    assert!(is_diverged(state));
}

#[test]
fn epochs_count_up_to_the_budget() {
    let mut state = advance(start(), TrainerEvent::ModelDrawn, 3);
    let mut epochs = 0;
    while let TrainerAction::RunEpoch { epoch } = action(state) {
        assert_eq!(epoch, epochs);
        state = advance(state, TrainerEvent::BatchApplied { finite: true }, 3);
        state = advance(state, TrainerEvent::EpochCompleted, 3);
        epochs += 1;
    }
    assert_eq!(epochs, 3);
    assert_eq!(state, TrainerState::BudgetExhausted);
}

#[test]
fn last_epoch_of_the_budget_exhausts_it() {
    assert_eq!(
        advance(TrainerState::Training { epoch: 8 }, TrainerEvent::EpochCompleted, 10),
        TrainerState::Training { epoch: 9 }
    );
    assert_eq!(
        advance(TrainerState::Training { epoch: 9 }, TrainerEvent::EpochCompleted, 10),
        TrainerState::BudgetExhausted
    );
    assert_eq!(
        advance(
            TrainerState::Training { epoch: u32::MAX },
            TrainerEvent::EpochCompleted,
            u32::MAX
        ),
        TrainerState::BudgetExhausted
    );
}

#[test]
fn ended_runs_ignore_events() {
    let events = [
        TrainerEvent::ModelDrawn,
        TrainerEvent::BatchApplied { finite: true },
        TrainerEvent::BatchApplied { finite: false },
        TrainerEvent::EpochCompleted,
    ];
    for event in events {
        assert_eq!(
            advance(TrainerState::BudgetExhausted, event, 5),
            TrainerState::BudgetExhausted
        );
        assert_eq!(
            advance(TrainerState::Diverged { epoch: 2 }, event, 5),
            TrainerState::Diverged { epoch: 2 }
        );
    }
}

#[test]
fn events_that_do_not_apply_change_nothing() {
    assert_eq!(
        advance(start(), TrainerEvent::EpochCompleted, 5),
        TrainerState::Initializing
    );
    assert_eq!(
        advance(start(), TrainerEvent::BatchApplied { finite: false }, 5),
        TrainerState::Initializing
    );
    assert_eq!(
        advance(TrainerState::Training { epoch: 1 }, TrainerEvent::ModelDrawn, 5),
        TrainerState::Training { epoch: 1 }
    );
}

#[test]
fn example_needs_one_feature_per_coefficient() {
    assert_eq!(check_example(&vec![1.5f32, 2.5], 2), Ok(()));
    assert_eq!(check_example(&vec![1.5f32], 2), Err(SgdError::DimensionMismatch));
    assert_eq!(check_example(&vec![1.5f32, 2.5, 3.5], 2), Err(SgdError::DimensionMismatch));
    assert_eq!(check_example(&Vec::<f32>::new(), 0), Ok(()));
}

#[test]
fn batch_without_rows_is_empty() {
    let features: Vec<Vec<f32>> = vec![];
    let targets: Vec<f32> = vec![];
    assert_eq!(check_batch(&features, &targets, 1), Err(SgdError::EmptyBatch));
    assert_eq!(check_batch(&features, &vec![1.0f32], 1), Err(SgdError::EmptyBatch));
}

#[test]
fn batch_needs_matching_shapes() {
    let features = vec![vec![1.0f32, 2.0], vec![3.0, 4.0]];
    assert_eq!(check_batch(&features, &vec![5.0, 6.0], 2), Ok(()));
    assert_eq!(check_batch(&features, &vec![5.0], 2), Err(SgdError::DimensionMismatch));
    assert_eq!(check_batch(&features, &vec![5.0, 6.0], 1), Err(SgdError::DimensionMismatch));
    let ragged = vec![vec![1.0f32, 2.0], vec![3.0]];
    assert_eq!(check_batch(&ragged, &vec![5.0, 6.0], 2), Err(SgdError::DimensionMismatch));
}
