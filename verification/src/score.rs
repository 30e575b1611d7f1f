//! The sums from which the fit of a model on held-out rows is judged.

use crate::batch::{batch_fault, check_batch};
use crate::bounds::{below, bounds, greatest_of, least_of, ordered};
use crate::error::SgdError;
use crate::model::{
    arithmetic_defined, arithmetic_specified, dot, dot_product, sum_of, total, LinearRegression,
};
use crate::table::{all_of_width, column_of, row_views, without_column, Dataframe};
use core::ops::{Add, Div, Mul, Sub};
use vstd::prelude::*;
use vstd::std_specs::ops::{DivSpec, SubSpec};

verus! {

/// Each value of `values` less `center`.
pub open spec fn deviations<T: Sub<Output = T>>(values: Seq<T>, center: T) -> Seq<T> {
    Seq::new(values.len(), |i: int| values[i].sub_spec(center))
}

/// For every example, the target less the prediction of `model`.
pub open spec fn misses<
    T: Copy + Add<Output = T> + Sub<Output = T> + Mul<Output = T> + Div<Output = T>,
>(model: LinearRegression<T>, x: Seq<Seq<T>>, y: Seq<T>) -> Seq<T> {
    Seq::new(x.len(), |i: int| y[i].sub_spec(model.prediction(x[i])))
}

/// The sum of `values` divided by `num_examples`, the number of values as a
/// number of `T`. Fails without values.
pub fn mean<T: Copy + Add<Output = T> + Sub<Output = T> + Mul<Output = T> + Div<Output = T>>(
    values: &Vec<T>,
    num_examples: T,
) -> (result: Result<T, SgdError>)
    requires
        arithmetic_defined::<T>(),
    ensures
        values@.len() == 0 ==> result == Err::<T, SgdError>(SgdError::EmptyBatch),
        values@.len() > 0 ==> result is Ok,
        arithmetic_specified::<T>() && result is Ok ==> result->Ok_0 == total(values@).div_spec(
            num_examples,
        ),
{
    if values.len() == 0 {
        return Err(SgdError::EmptyBatch);
    }
    Ok(sum_of(values) / num_examples)
}

/// The sum of the squares of the distances of `values` from `center`.
/// Fails without values.
pub fn total_sum_of_squares<
    T: Copy + Add<Output = T> + Sub<Output = T> + Mul<Output = T> + Div<Output = T>,
>(values: &Vec<T>, center: T) -> (result: Result<T, SgdError>)
    requires
        arithmetic_defined::<T>(),
    ensures
        values@.len() == 0 ==> result == Err::<T, SgdError>(SgdError::EmptyBatch),
        values@.len() > 0 ==> result is Ok,
        arithmetic_specified::<T>() && result is Ok ==> result->Ok_0 == dot(
            deviations(values@, center),
            deviations(values@, center),
        ),
{
    if values.len() == 0 {
        return Err(SgdError::EmptyBatch);
    }
    let mut distances: Vec<T> = Vec::with_capacity(values.len());
    for i in 0..values.len()
        invariant
            arithmetic_defined::<T>(),
            distances@.len() == i,
            arithmetic_specified::<T>() ==> distances@ == deviations(values@, center).take(
                i as int,
            ),
    {
        distances.push(values[i] - center);
        proof {
            if arithmetic_specified::<T>() {
                assert(distances@ =~= deviations(values@, center).take(i + 1));
            }
        }
    }
    proof {
        assert(deviations(values@, center).take(values@.len() as int) == deviations(
            values@,
            center,
        ));
    }
    Ok(dot_product(&distances, &distances))
}

/// The sum over the batch `x`, `y` of the squares of target less
/// prediction. Fails on a batch without rows, and on one whose shape does
/// not fit the model.
pub fn residual_sum_of_squares<
    T: Copy + Add<Output = T> + Sub<Output = T> + Mul<Output = T> + Div<Output = T>,
>(model: &LinearRegression<T>, x: &Vec<Vec<T>>, y: &Vec<T>) -> (result: Result<T, SgdError>)
    requires
        arithmetic_defined::<T>(),
    ensures
        match batch_fault(row_views(x@), y@.len(), model.coefficients@.len()) {
            Some(e) => result == Err::<T, SgdError>(e),
            None => {
                &&& result is Ok
                &&& arithmetic_specified::<T>() ==> result->Ok_0 == dot(
                    misses(*model, row_views(x@), y@),
                    misses(*model, row_views(x@), y@),
                )
            },
        },
{
    match check_batch(x, y, model.coefficients.len()) {
        Err(e) => {
            return Err(e);
        },
        Ok(()) => {},
    }
    let ghost rows = row_views(x@);
    let mut residuals: Vec<T> = Vec::with_capacity(x.len());
    for i in 0..x.len()
        invariant
            arithmetic_defined::<T>(),
            rows == row_views(x@),
            x@.len() == y@.len(),
            all_of_width(rows, model.coefficients@.len() as nat),
            residuals@.len() == i,
            arithmetic_specified::<T>() ==> residuals@ == misses(*model, rows, y@).take(i as int),
    {
        assert(rows[i as int] == x@[i as int]@);
        let model_prediction = model.predict(&x[i]).unwrap();
        residuals.push(y[i] - model_prediction);
        proof {
            if arithmetic_specified::<T>() {
                assert(residuals@ =~= misses(*model, rows, y@).take(i + 1));
            }
        }
    }
    proof {
        assert(misses(*model, rows, y@).take(x@.len() as int) == misses(*model, rows, y@));
    }
    Ok(dot_product(&residuals, &residuals))
}

/// The two sums from which the coefficient of determination of `model` on
/// the rows of `validation` is formed: first the sum of squared residuals,
/// then the sum of the squared distances of the targets from their mean.
/// `num_examples` is the number of rows as a number of `T`. Fails on a
/// table without rows, and on one whose shape does not fit the model.
pub fn score_sums<
    T: Copy + Add<Output = T> + Sub<Output = T> + Mul<Output = T> + Div<Output = T>,
>(
    model: &LinearRegression<T>,
    validation: &Dataframe<T>,
    target_idx: usize,
    num_examples: T,
) -> (result: Result<(T, T), SgdError>)
    requires
        arithmetic_defined::<T>(),
        validation.rows().len() > 0 ==> target_idx < validation.columns().len(),
    ensures
        ({
            let x = without_column(validation.rows(), target_idx as int);
            let y = column_of(validation.rows(), target_idx as int);
            match batch_fault(x, y.len(), model.coefficients@.len()) {
                Some(e) => result == Err::<(T, T), SgdError>(e),
                None => {
                    &&& result is Ok
                    &&& arithmetic_specified::<T>() ==> {
                        let center = total(y).div_spec(num_examples);
                        &&& result->Ok_0.0 == dot(misses(*model, x, y), misses(*model, x, y))
                        &&& result->Ok_0.1 == dot(deviations(y, center), deviations(y, center))
                    }
                },
            }
        }),
{
    let (features, targets) = validation.feature_target_extraction(target_idx);
    let sum_squared_residuals = match residual_sum_of_squares(model, &features, &targets) {
        Ok(sum) => sum,
        Err(e) => {
            return Err(e);
        },
    };
    let mean_target = match mean(&targets, num_examples) {
        Ok(m) => m,
        Err(e) => {
            return Err(e);
        },
    };
    match total_sum_of_squares(&targets, mean_target) {
        Ok(tot_sum_of_squares) => Ok((sum_squared_residuals, tot_sum_of_squares)),
        Err(e) => Err(e),
    }
}

/// The share of the spread of the targets that `model` leaves unexplained
/// on the rows of `validation`: the sum of squared residuals divided by the
/// sum of the squared distances of the targets from their mean. One less
/// this share is the coefficient of determination. Fails on a table
/// without rows, on one whose shape does not fit the model, and where the
/// least target is not below the greatest, so that the targets have no
/// spread to divide by.
pub fn unexplained_share<
    T: Copy + PartialOrd + Add<Output = T> + Sub<Output = T> + Mul<Output = T> + Div<Output = T>,
>(
    model: &LinearRegression<T>,
    validation: &Dataframe<T>,
    target_idx: usize,
    num_examples: T,
) -> (result: Result<T, SgdError>)
    requires
        arithmetic_defined::<T>(),
        validation.rows().len() > 0 ==> target_idx < validation.columns().len(),
    ensures
        ({
            let x = without_column(validation.rows(), target_idx as int);
            let y = column_of(validation.rows(), target_idx as int);
            match batch_fault(x, y.len(), model.coefficients@.len()) {
                Some(e) => result == Err::<T, SgdError>(e),
                None => {
                    &&& result is Err ==> result == Err::<T, SgdError>(SgdError::DegenerateColumn)
                    &&& ordered::<T>() ==> (result is Ok <==> below(least_of(y), greatest_of(y)))
                    &&& arithmetic_specified::<T>() && result is Ok ==> {
                        let center = total(y).div_spec(num_examples);
                        result->Ok_0 == dot(misses(*model, x, y), misses(*model, x, y)).div_spec(
                            dot(deviations(y, center), deviations(y, center)),
                        )
                    }
                },
            }
        }),
{
    let (sum_squared_residuals, tot_sum_of_squares) = match score_sums(
        model,
        validation,
        target_idx,
        num_examples,
    ) {
        Ok(sums) => sums,
        Err(e) => {
            return Err(e);
        },
    };
    let targets = validation.column(target_idx);
    match bounds(&targets) {
        None => Err(SgdError::DegenerateColumn),
        Some((min, max)) => {
            if min < max {
                Ok(sum_squared_residuals / tot_sum_of_squares)
            } else {
                Err(SgdError::DegenerateColumn)
            }
        },
    }
}

/// The coefficient of determination of `model` on the rows of
/// `validation`: `one` less the share of the spread of the targets that the
/// model leaves unexplained. `num_examples` is the number of rows and `one`
/// the unit, both as numbers of `T`. Fails where that share cannot be
/// formed.
pub fn score<
    T: Copy + PartialOrd + Add<Output = T> + Sub<Output = T> + Mul<Output = T> + Div<Output = T>,
>(
    model: &LinearRegression<T>,
    validation: &Dataframe<T>,
    target_idx: usize,
    num_examples: T,
    one: T,
) -> (result: Result<T, SgdError>)
    requires
        arithmetic_defined::<T>(),
        validation.rows().len() > 0 ==> target_idx < validation.columns().len(),
    ensures
        ({
            let x = without_column(validation.rows(), target_idx as int);
            let y = column_of(validation.rows(), target_idx as int);
            match batch_fault(x, y.len(), model.coefficients@.len()) {
                Some(e) => result == Err::<T, SgdError>(e),
                None => {
                    &&& result is Err ==> result == Err::<T, SgdError>(SgdError::DegenerateColumn)
                    &&& ordered::<T>() ==> (result is Ok <==> below(least_of(y), greatest_of(y)))
                    &&& arithmetic_specified::<T>() && result is Ok ==> {
                        let center = total(y).div_spec(num_examples);
                        result->Ok_0 == one.sub_spec(
                            dot(misses(*model, x, y), misses(*model, x, y)).div_spec(
                                dot(deviations(y, center), deviations(y, center)),
                            ),
                        )
                    }
                },
            }
        }),
{
    match unexplained_share(model, validation, target_idx, num_examples) {
        Ok(share) => Ok(one - share),
        Err(e) => Err(e),
    }
}

} // verus!
