//! Linear rescaling of one column of a table.

use crate::bounds::{below, bounds, greatest_of, least_of, ordered};
use crate::error::SgdError;
use crate::model::{arithmetic_defined, arithmetic_specified};
use crate::table::{column_of, replace_column, same_outside_column, Dataframe};
use core::ops::{Add, Div, Mul, Sub};
use vstd::prelude::*;
use vstd::std_specs::ops::{DivSpec, SubSpec};

verus! {

/// Each value of `values` less `min`, divided by the span from `min` to
/// `max`.
pub open spec fn rescaled<T: Sub<Output = T> + Div<Output = T>>(values: Seq<T>, min: T, max: T) -> Seq<
    T,
> {
    Seq::new(values.len(), |i: int| values[i].sub_spec(min).div_spec(max.sub_spec(min)))
}

/// The table that differs from `df` only in the column at `index`, where
/// every value `v` has become `(v - min) / (max - min)`. With the least
/// and the greatest value of the column as `min` and `max`, the column then
/// runs from 0 to 1.
pub fn rescale_column<
    T: Copy + Add<Output = T> + Sub<Output = T> + Mul<Output = T> + Div<Output = T>,
>(df: &Dataframe<T>, index: usize, min: T, max: T) -> (table: Dataframe<T>)
    requires
        arithmetic_defined::<T>(),
        df.rows().len() > 0 ==> index < df.columns().len(),
    ensures
        table.columns() == df.columns(),
        table.rows().len() == df.rows().len(),
        same_outside_column(df.rows(), table.rows(), index as int),
        arithmetic_specified::<T>() ==> table.rows() == replace_column(
            df.rows(),
            index as int,
            rescaled(column_of(df.rows(), index as int), min, max),
        ),
{
    let values = df.column(index);
    let mut scaled: Vec<T> = Vec::with_capacity(values.len());
    for i in 0..values.len()
        invariant
            arithmetic_defined::<T>(),
            scaled@.len() == i,
            arithmetic_specified::<T>() ==> scaled@ == rescaled(values@, min, max).take(i as int),
    {
        scaled.push((values[i] - min) / (max - min));
        proof {
            if arithmetic_specified::<T>() {
                assert(scaled@ =~= rescaled(values@, min, max).take(i + 1));
            }
        }
    }
    proof {
        assert(rescaled(values@, min, max).take(values@.len() as int) == rescaled(
            values@,
            min,
            max,
        ));
    }
    df.with_column(index, &scaled)
}

/// The table that differs from `df` only in the column at `target_idx`,
/// rescaled so that its least value becomes 0 and its greatest 1. Fails
/// where the column has no value, or where its least value is not below
/// its greatest, so that the span between them would be zero.
pub fn normalize_column<
    T: Copy + PartialOrd + Add<Output = T> + Sub<Output = T> + Mul<Output = T> + Div<Output = T>,
>(df: &Dataframe<T>, target_idx: usize) -> (result: Result<Dataframe<T>, SgdError>)
    requires
        arithmetic_defined::<T>(),
        df.rows().len() > 0 ==> target_idx < df.columns().len(),
    ensures
        df.rows().len() == 0 ==> result is Err,
        match result {
            Ok(table) => {
                &&& table.columns() == df.columns()
                &&& table.rows().len() == df.rows().len()
                &&& same_outside_column(df.rows(), table.rows(), target_idx as int)
            },
            Err(e) => e == SgdError::DegenerateColumn,
        },
        ordered::<T>() && df.rows().len() > 0 ==> {
            let column = column_of(df.rows(), target_idx as int);
            let min = least_of(column);
            let max = greatest_of(column);
            &&& result is Ok <==> below(min, max)
            &&& arithmetic_specified::<T>() && result is Ok ==> result->Ok_0.rows()
                == replace_column(df.rows(), target_idx as int, rescaled(column, min, max))
        },
{
    let values = df.column(target_idx);
    match bounds(&values) {
        None => Err(SgdError::DegenerateColumn),
        Some((min, max)) => {
            if min < max {
                Ok(rescale_column(df, target_idx, min, max))
            } else {
                Err(SgdError::DegenerateColumn)
            }
        },
    }
}

} // verus!
