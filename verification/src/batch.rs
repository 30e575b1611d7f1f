//! Shape checks that come before any arithmetic on a batch of examples.

use crate::error::SgdError;
use crate::table::{all_of_width, row_views};
use vstd::prelude::*;

verus! {

/// What is wrong with the shape of one example for a model with
/// `num_coefficients` coefficients, if anything.
pub open spec fn example_fault(features_len: nat, num_coefficients: nat) -> Option<SgdError> {
    if features_len != num_coefficients {
        Some(SgdError::DimensionMismatch)
    } else {
        None
    }
}

/// What is wrong with the shape of a batch for a model with
/// `num_coefficients` coefficients, if anything: a batch without rows is
/// empty; otherwise it needs one target per row and one feature per
/// coefficient in every row.
pub open spec fn batch_fault<T>(
    features: Seq<Seq<T>>,
    targets_len: nat,
    num_coefficients: nat,
) -> Option<SgdError> {
    if features.len() == 0 {
        Some(SgdError::EmptyBatch)
    } else if targets_len != features.len() || !all_of_width(features, num_coefficients) {
        Some(SgdError::DimensionMismatch)
    } else {
        None
    }
}

/// Accepts a feature vector exactly when it has one value per coefficient.
pub fn check_example<T>(features: &Vec<T>, num_coefficients: usize) -> (result: Result<
    (),
    SgdError,
>)
    ensures
        result == match example_fault(features@.len(), num_coefficients as nat) {
            Some(e) => Err::<(), SgdError>(e),
            None => Ok(()),
        },
{
    if features.len() != num_coefficients {
        Err(SgdError::DimensionMismatch)
    } else {
        Ok(())
    }
}

/// Accepts a batch exactly when it has at least one row, one target per row
/// and one feature per coefficient in every row.
pub fn check_batch<T>(features: &Vec<Vec<T>>, targets: &Vec<T>, num_coefficients: usize) -> (result:
    Result<(), SgdError>)
    ensures
        result == match batch_fault(
            row_views(features@),
            targets@.len(),
            num_coefficients as nat,
        ) {
            Some(e) => Err::<(), SgdError>(e),
            None => Ok(()),
        },
{
    if features.len() == 0 {
        return Err(SgdError::EmptyBatch);
    }
    if targets.len() != features.len() {
        return Err(SgdError::DimensionMismatch);
    }
    let ghost rows = row_views(features@);
    for i in 0..features.len()
        invariant
            rows == row_views(features@),
            all_of_width(rows.take(i as int), num_coefficients as nat),
    {
        if features[i].len() != num_coefficients {
            assert(rows[i as int].len() != num_coefficients);
            return Err(SgdError::DimensionMismatch);
        }
        assert forall|j: int| 0 <= j < i + 1 implies (#[trigger] rows.take(i + 1)[j]).len()
            == num_coefficients by {
            if j < i {
                assert(rows.take(i as int)[j].len() == num_coefficients);
            }
        }
    }
    assert(rows.take(features@.len() as int) == rows);
    Ok(())
}

} // verus!
