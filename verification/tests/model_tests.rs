use minibatch_sgd::error::SgdError;
use minibatch_sgd::model::{calc_gradient, example_gradient, LinearRegression};
use minibatch_sgd::table::Dataframe;
use minibatch_sgd::trainer::{train_linear_regression, train_step};
use rand::rngs::StdRng;
use rand::Rng;
use rand::SeedableRng;
use std::cell::RefCell;

fn line(intercept: f32, coefficients: Vec<f32>) -> LinearRegression<f32> {
    LinearRegression {
        intercept,
        coefficients,
    }
}

fn count(n: usize) -> f32 {
    n as f32
}

fn finite(v: f32) -> bool {
    v.is_finite()
}

fn synthetic_line() -> Dataframe<f32> {
    let rows: Vec<Vec<f32>> = (0..40)
        .map(|i| {
            let x = -1.0 + 0.05 * i as f32;
            let noise = if i % 2 == 0 { 0.0005 } else { -0.0005 };
            vec![x, 2.0 * x + 1.0 + noise]
        })
        .collect();
    Dataframe::new(vec!["x".to_string(), "y".to_string()], rows).unwrap()
}

#[test]
fn test_linear_regression_predict() {
    let zero_line: LinearRegression<f32> = LinearRegression {
        intercept: 0.0,
        coefficients: vec![0.0],
    };

    assert_eq!(0.0, zero_line.predict(&vec![1.2]).unwrap());

    let origin_to_one_line: LinearRegression<f32> = LinearRegression {
        intercept: 0.0,
        coefficients: vec![1.0],
    };

    assert_eq!(1.0, origin_to_one_line.predict(&vec![1.0]).unwrap());

    let example_line: LinearRegression<f32> = LinearRegression {
        intercept: 0.72001684,
        coefficients: vec![0.47640133],
    };

    assert_eq!(952.0935, example_line.predict(&vec![1997.0]).unwrap());
}

#[test]
fn zero_model_predicts_zero_and_unit_model_the_input() {
    let zero_line = line(0.0, vec![0.0]);
    let unit_line = line(0.0, vec![1.0]);
    for x in [-1000.5f32, -1.0, 0.0, 0.25, 3.0, 1.0e20] {
        assert_eq!(zero_line.predict(&vec![x]), Ok(0.0));
        assert_eq!(unit_line.predict(&vec![x]), Ok(x));
    }
}

#[test]
fn prediction_is_intercept_plus_dot_product() {
    let model = line(1.0, vec![0.5, 0.25, 2.0]);
    assert_eq!(model.predict(&vec![1.0, 2.0, 3.0]), Ok(8.0));
    assert_eq!(line(4.5, vec![]).predict(&vec![]), Ok(4.5));
}

#[test]
fn prediction_refuses_wrong_number_of_features() {
    let model = line(1.0, vec![0.5, 0.25]);
    assert_eq!(model.predict(&vec![1.0]), Err(SgdError::DimensionMismatch));
    assert_eq!(model.predict(&vec![1.0, 2.0, 3.0]), Err(SgdError::DimensionMismatch));
    assert_eq!(model.predict(&vec![]), Err(SgdError::DimensionMismatch));
}

#[test]
fn batch_gradient_is_the_mean_of_residual_times_feature() {
    let model = line(0.0, vec![1.0]);
    let x = vec![vec![1.0f32], vec![2.0]];
    let y = vec![1.0f32, 3.0];
    let (gradient, intercept_gradient) = calc_gradient(&x, &y, &model, 2.0).unwrap();
    assert_eq!(gradient, vec![-1.0]);
    assert_eq!(intercept_gradient, -0.5);
}

#[test]
fn batch_gradient_scales_every_parameter_alike() {
    let model = line(1.0, vec![2.0, -1.0]);
    let x = vec![vec![1.0f32, 1.0], vec![2.0, 0.0], vec![0.0, 4.0]];
    let y = vec![0.0f32, 1.0, 1.0];
    let (gradient, intercept_gradient) = calc_gradient(&x, &y, &model, 4.0).unwrap();
    assert_eq!(gradient, vec![2.5, -3.5]);
    assert_eq!(intercept_gradient, 0.5);
}

#[test]
fn gradient_vanishes_at_exact_fit() {
    let model = line(1.0, vec![2.0]);
    let (gradient, intercept_gradient) =
        calc_gradient(&vec![vec![3.0f32]], &vec![7.0f32], &model, 1.0).unwrap();
    assert_eq!(gradient, vec![0.0]);
    assert_eq!(intercept_gradient, 0.0);
    let (gradient, intercept_gradient) = example_gradient(&vec![3.0f32], 7.0, &model).unwrap();
    assert_eq!(gradient, vec![0.0]);
    assert_eq!(intercept_gradient, 0.0);
}

#[test]
fn example_gradient_is_twice_residual_times_feature() {
    let model = line(1.0, vec![2.0, 0.5]);
    let (gradient, intercept_gradient) =
        example_gradient(&vec![3.0f32, 4.0], 5.0, &model).unwrap();
    assert_eq!(gradient, vec![24.0, 32.0]);
    assert_eq!(intercept_gradient, 8.0);
    assert_eq!(
        example_gradient(&vec![3.0f32], 5.0, &model),
        Err(SgdError::DimensionMismatch)
    );
}

#[test]
fn gradient_refuses_empty_and_misshapen_batches() {
    let model = line(1.0, vec![2.0]);
    let none: Vec<Vec<f32>> = vec![];
    assert_eq!(
        calc_gradient(&none, &vec![], &model, 0.0),
        Err(SgdError::EmptyBatch)
    );
    assert_eq!(
        calc_gradient(&vec![vec![1.0f32, 2.0]], &vec![1.0], &model, 1.0),
        Err(SgdError::DimensionMismatch)
    );
    assert_eq!(
        calc_gradient(&vec![vec![1.0f32]], &vec![1.0, 2.0], &model, 1.0),
        Err(SgdError::DimensionMismatch)
    );
}

#[test]
fn update_moves_against_the_gradient() {
    let mut model = line(3.0, vec![1.0, 2.0]);
    assert_eq!(model.apply_update(&vec![0.5, -1.0], 2.0, 0.5), Ok(()));
    assert_eq!(model.coefficients, vec![0.75, 2.5]);
    assert_eq!(model.intercept, 2.0);
}

#[test]
fn update_refuses_a_gradient_of_wrong_length() {
    let mut model = line(3.0, vec![1.0, 2.0]);
    assert_eq!(
        model.apply_update(&vec![0.5], 2.0, 0.5),
        Err(SgdError::DimensionMismatch)
    );
    assert_eq!(model.coefficients, vec![1.0, 2.0]);
    assert_eq!(model.intercept, 3.0);
}

#[test]
fn step_applies_the_batch_gradient() {
    let batch = Dataframe::new(
        vec!["x".to_string(), "y".to_string()],
        vec![vec![1.0f32, 1.0], vec![2.0, 3.0]],
    )
    .unwrap();
    let mut model = line(0.0, vec![1.0]);
    assert_eq!(train_step(&mut model, &batch, 1, 0.5, 2.0), Ok(()));
    assert_eq!(model.coefficients, vec![1.5]);
    assert_eq!(model.intercept, 0.25);
}

#[test]
fn step_refuses_a_batch_that_does_not_fit() {
    let batch = Dataframe::new(
        vec!["a".to_string(), "b".to_string(), "y".to_string()],
        vec![vec![1.0f32, 1.0, 1.0]],
    )
    .unwrap();
    let mut model = line(0.5, vec![1.0]);
    assert_eq!(
        train_step(&mut model, &batch, 2, 0.5, 1.0),
        Err(SgdError::DimensionMismatch)
    );
    assert_eq!(model.coefficients, vec![1.0]);
    assert_eq!(model.intercept, 0.5);
    let empty: Dataframe<f32> = Dataframe::new(vec!["x".to_string(), "y".to_string()], vec![]).unwrap();
    assert_eq!(train_step(&mut model, &empty, 1, 0.5, 0.0), Err(SgdError::EmptyBatch));
}

#[test]
fn training_converges_on_a_line() {
    let table = synthetic_line();
    let mut rng = StdRng::seed_from_u64(2024);
    let initial = line(rng.gen_range(-1.0..1.0), vec![rng.gen_range(-1.0..1.0)]);
    let model =
        train_linear_regression(&table, &mut rng, initial, 4, 1, 0.01, 500, count, finite).unwrap();
    assert_eq!(model.coefficients.len(), 1);
    assert!((model.coefficients[0] - 2.0).abs() < 0.1);
    assert!((model.intercept - 1.0).abs() < 0.1);
}

#[test]
fn training_is_fixed_by_the_seed() {
    let table = synthetic_line();
    let mut first = StdRng::seed_from_u64(9);
    let mut second = StdRng::seed_from_u64(9);
    let a = train_linear_regression(&table, &mut first, line(0.0, vec![0.0]), 7, 1, 0.05, 20, count, finite)
        .unwrap();
    let b = train_linear_regression(&table, &mut second, line(0.0, vec![0.0]), 7, 1, 0.05, 20, count, finite)
        .unwrap();
    assert_eq!(a.intercept, b.intercept);
    assert_eq!(a.coefficients, b.coefficients);
    assert_ne!(a.coefficients, vec![0.0]);
}

#[test]
fn training_with_huge_learning_rate_diverges_early() {
    let rows: Vec<Vec<f32>> = (1..=8).map(|i| vec![i as f32, 2.0 * i as f32 + 1.0]).collect();
    let table = Dataframe::new(vec!["x".to_string(), "y".to_string()], rows).unwrap();
    let mut rng = StdRng::seed_from_u64(1);
    let result = train_linear_regression(
        &table,
        &mut rng,
        line(0.5, vec![-0.5]),
        2,
        1,
        1.0e6,
        10000,
        count,
        finite,
    );
    match result {
        Err(SgdError::Diverged { epoch }) => assert!(epoch < 20),
        other => panic!("expected divergence, got {:?}", other),
    }
}

#[test]
fn training_without_epochs_or_rows_returns_the_initial_model() {
    let table = synthetic_line();
    let mut rng = StdRng::seed_from_u64(3);
    let model =
        train_linear_regression(&table, &mut rng, line(0.25, vec![0.75]), 4, 1, 0.01, 0, count, finite)
            .unwrap();
    assert_eq!(model.intercept, 0.25);
    assert_eq!(model.coefficients, vec![0.75]);
    let empty: Dataframe<f32> = Dataframe::new(vec!["x".to_string(), "y".to_string()], vec![]).unwrap();
    let model =
        train_linear_regression(&empty, &mut rng, line(0.25, vec![0.75]), 4, 9, 0.01, 5, count, finite)
            .unwrap();
    assert_eq!(model.intercept, 0.25);
    assert_eq!(model.coefficients, vec![0.75]);
}

#[test]
fn training_refuses_a_model_that_does_not_fit_the_table() {
    let table = synthetic_line();
    let mut rng = StdRng::seed_from_u64(3);
    let result = train_linear_regression(
        &table,
        &mut rng,
        line(0.0, vec![0.0, 0.0]),
        4,
        1,
        0.01,
        5,
        count,
        finite,
    );
    assert_eq!(result.err(), Some(SgdError::DimensionMismatch));
}

#[test]
fn mean_divides_the_sum_by_the_count() {
    assert_eq!(minibatch_sgd::score::mean(&vec![1.0f32, 2.0, 6.0], 3.0), Ok(3.0));
    assert_eq!(minibatch_sgd::score::mean(&vec![2.5f32], 1.0), Ok(2.5));
    assert_eq!(
        minibatch_sgd::score::mean(&Vec::<f32>::new(), 0.0),
        Err(SgdError::EmptyBatch)
    );
}

#[test]
fn total_sum_of_squares_measures_the_spread() {
    assert_eq!(
        minibatch_sgd::score::total_sum_of_squares(&vec![1.0f32, 2.0, 6.0], 3.0),
        Ok(14.0)
    );
    assert_eq!(
        minibatch_sgd::score::total_sum_of_squares(&vec![4.0f32, 4.0], 4.0),
        Ok(0.0)
    );
    assert_eq!(
        minibatch_sgd::score::total_sum_of_squares(&Vec::<f32>::new(), 0.0),
        Err(SgdError::EmptyBatch)
    );
}

#[test]
fn residual_sum_of_squares_measures_the_misses() {
    let model = line(1.0, vec![2.0]);
    let x = vec![vec![0.0f32], vec![1.0], vec![2.0]];
    assert_eq!(
        minibatch_sgd::score::residual_sum_of_squares(&model, &x, &vec![1.0, 3.0, 5.0]),
        Ok(0.0)
    );
    assert_eq!(
        minibatch_sgd::score::residual_sum_of_squares(&model, &x, &vec![2.0, 3.0, 3.0]),
        Ok(5.0)
    );
    assert_eq!(
        minibatch_sgd::score::residual_sum_of_squares(&model, &vec![], &vec![]),
        Err(SgdError::EmptyBatch)
    );
    assert_eq!(
        minibatch_sgd::score::residual_sum_of_squares(&model, &x, &vec![1.0]),
        Err(SgdError::DimensionMismatch)
    );
}

#[test]
fn dot_product_and_sum_add_from_first_to_last() {
    assert_eq!(
        minibatch_sgd::model::dot_product(&vec![1.0f32, 2.0, 3.0], &vec![4.0, 5.0, 6.0]),
        32.0
    );
    assert_eq!(minibatch_sgd::model::sum_of(&vec![1.5f32, 2.5, -1.0]), 3.0);
    assert_eq!(minibatch_sgd::model::sum_of(&vec![1.0e30f32, -1.0e30, 1.0]), 1.0);
    assert_eq!(minibatch_sgd::model::sum_of(&vec![1.0f32, 1.0e30, -1.0e30]), 0.0);
}

#[test]
fn score_sums_give_residual_and_total_squares() {
    let table = Dataframe::new(
        vec!["x".to_string(), "y".to_string()],
        vec![vec![0.0f32, 2.0], vec![1.0, 3.0], vec![2.0, 7.0]],
    )
    .unwrap();
    let model = line(1.0, vec![2.0]);
    assert_eq!(
        minibatch_sgd::score::score_sums(&model, &table, 1, 3.0),
        Ok((5.0, 14.0))
    );
    let empty: Dataframe<f32> =
        Dataframe::new(vec!["x".to_string(), "y".to_string()], vec![]).unwrap();
    assert_eq!(
        minibatch_sgd::score::score_sums(&model, &empty, 1, 0.0),
        Err(SgdError::EmptyBatch)
    );
    assert_eq!(
        minibatch_sgd::score::score_sums(&line(1.0, vec![2.0, 3.0]), &table, 1, 3.0),
        Err(SgdError::DimensionMismatch)
    );
}

#[test]
fn unexplained_share_is_residual_over_total_squares() {
    let table = Dataframe::new(
        vec!["x".to_string(), "y".to_string()],
        vec![vec![0.0f32, 2.0], vec![1.0, 3.0], vec![2.0, 7.0]],
    )
    .unwrap();
    assert_eq!(
        minibatch_sgd::score::unexplained_share(&line(1.0, vec![2.0]), &table, 1, 3.0),
        Ok(5.0 / 14.0)
    );
    let exact = Dataframe::new(
        vec!["x".to_string(), "y".to_string()],
        vec![vec![0.0f32, 1.0], vec![1.0, 3.0], vec![2.0, 5.0]],
    )
    .unwrap();
    assert_eq!(
        minibatch_sgd::score::unexplained_share(&line(1.0, vec![2.0]), &exact, 1, 3.0),
        Ok(0.0)
    );
}

#[test]
fn unexplained_share_refuses_constant_targets() {
    let flat = Dataframe::new(
        vec!["x".to_string(), "y".to_string()],
        vec![vec![0.0f32, 4.0], vec![1.0, 4.0], vec![2.0, 4.0]],
    )
    .unwrap();
    assert_eq!(
        minibatch_sgd::score::unexplained_share(&line(1.0, vec![2.0]), &flat, 1, 3.0),
        Err(SgdError::DegenerateColumn)
    );
    let empty: Dataframe<f32> =
        Dataframe::new(vec!["x".to_string(), "y".to_string()], vec![]).unwrap();
    assert_eq!(
        minibatch_sgd::score::unexplained_share(&line(1.0, vec![2.0]), &empty, 1, 0.0),
        Err(SgdError::EmptyBatch)
    );
    assert_eq!(
        minibatch_sgd::score::unexplained_share(&line(1.0, vec![]), &flat, 1, 3.0),
        Err(SgdError::DimensionMismatch)
    );
}

#[test]
fn training_takes_one_step_per_minibatch_and_epoch() {
    let rows: Vec<Vec<f32>> = (0..7).map(|i| vec![0.1 * i as f32, 0.2 * i as f32]).collect();
    let table = Dataframe::new(vec!["x".to_string(), "y".to_string()], rows).unwrap();
    let sizes: RefCell<Vec<usize>> = RefCell::new(Vec::new());
    let mut rng = StdRng::seed_from_u64(4);
    let result = train_linear_regression(
        &table,
        &mut rng,
        line(0.0, vec![0.0]),
        3,
        1,
        0.01,
        4,
        |n: usize| {
            sizes.borrow_mut().push(n);
            n as f32
        },
        finite,
    );
    assert!(result.is_ok());
    assert_eq!(*sizes.borrow(), vec![3, 3, 1, 3, 3, 1, 3, 3, 1, 3, 3, 1]);
}

#[test]
fn training_stops_at_the_first_parameter_that_fails_the_test() {
    let rows: Vec<Vec<f32>> = (0..6).map(|i| vec![i as f32, 1.0]).collect();
    let table = Dataframe::new(vec!["x".to_string(), "y".to_string()], rows).unwrap();
    let steps: RefCell<usize> = RefCell::new(0);
    let mut rng = StdRng::seed_from_u64(4);
    let result = train_linear_regression(
        &table,
        &mut rng,
        line(0.0, vec![0.0]),
        2,
        1,
        0.01,
        10,
        |n: usize| {
            *steps.borrow_mut() += 1;
            n as f32
        },
        |_: f32| *steps.borrow() < 5,
    );
    assert_eq!(result.err(), Some(SgdError::Diverged { epoch: 1 }));
    assert_eq!(*steps.borrow(), 5);
}

#[test]
fn score_is_one_less_the_unexplained_share() {
    let table = Dataframe::new(
        vec!["x".to_string(), "y".to_string()],
        vec![vec![0.0f32, 2.0], vec![1.0, 3.0], vec![2.0, 7.0]],
    )
    .unwrap();
    assert_eq!(
        minibatch_sgd::score::score(&line(1.0, vec![2.0]), &table, 1, 3.0, 1.0),
        Ok(1.0 - 5.0 / 14.0)
    );
    let exact = Dataframe::new(
        vec!["x".to_string(), "y".to_string()],
        vec![vec![0.0f32, 1.0], vec![1.0, 3.0], vec![2.0, 5.0]],
    )
    .unwrap();
    assert_eq!(
        minibatch_sgd::score::score(&line(1.0, vec![2.0]), &exact, 1, 3.0, 1.0),
        Ok(1.0)
    );
    let flat = Dataframe::new(
        vec!["x".to_string(), "y".to_string()],
        vec![vec![0.0f32, 4.0], vec![1.0, 4.0]],
    )
    .unwrap();
    assert_eq!(
        minibatch_sgd::score::score(&line(1.0, vec![2.0]), &flat, 1, 2.0, 1.0),
        Err(SgdError::DegenerateColumn)
    );
}
