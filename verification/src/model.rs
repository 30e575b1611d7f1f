//! A linear model over any number type, the gradient of its squared error,
//! and the gradient-descent update.

use crate::batch::{batch_fault, check_batch, check_example};
use crate::error::SgdError;
use crate::table::{all_of_width, column_of, row_views};
use core::ops::{Add, Div, Mul, Sub};
use vstd::prelude::*;
use vstd::std_specs::ops::{AddSpec, DivSpec, MulSpec, SubSpec};

verus! {

/// Sums, differences, products and quotients of `T` are defined for all
/// operands.
pub open spec fn arithmetic_defined<
    T: Add<Output = T> + Sub<Output = T> + Mul<Output = T> + Div<Output = T>,
>() -> bool {
    &&& forall|a: T, b: T| #[trigger] a.add_req(b)
    &&& forall|a: T, b: T| #[trigger] a.sub_req(b)
    &&& forall|a: T, b: T| #[trigger] a.mul_req(b)
    &&& forall|a: T, b: T| #[trigger] a.div_req(b)
}

/// The four operators of `T` compute what their specifications say.
pub open spec fn arithmetic_specified<
    T: Add<Output = T> + Sub<Output = T> + Mul<Output = T> + Div<Output = T>,
>() -> bool {
    &&& T::obeys_add_spec()
    &&& T::obeys_sub_spec()
    &&& T::obeys_mul_spec()
    &&& T::obeys_div_spec()
}

/// The entries of a non-empty sequence added up from the first to the last.
pub open spec fn total<T: Add<Output = T>>(s: Seq<T>) -> T
    decreases s.len(),
{
    if s.len() <= 1 {
        s[0]
    } else {
        total(s.drop_last()).add_spec(s.last())
    }
}

/// The products of corresponding entries of two sequences of equal length.
pub open spec fn products<T: Mul<Output = T>>(a: Seq<T>, b: Seq<T>) -> Seq<T> {
    Seq::new(a.len(), |i: int| a[i].mul_spec(b[i]))
}

/// The dot product of two non-empty sequences of equal length, added up
/// from the first product to the last.
pub open spec fn dot<T: Add<Output = T> + Mul<Output = T>>(a: Seq<T>, b: Seq<T>) -> T {
    total(products(a, b))
}

/// An intercept and one coefficient per feature.
#[derive(Debug)]
pub struct LinearRegression<T> {
    pub intercept: T,
    pub coefficients: Vec<T>,
}

/// The dot product of two vectors of equal length that hold at least one
/// value.
pub fn dot_product<T: Copy + Add<Output = T> + Sub<Output = T> + Mul<Output = T> + Div<Output = T>>(
    a: &Vec<T>,
    b: &Vec<T>,
) -> (sum: T)
    requires
        arithmetic_defined::<T>(),
        a@.len() == b@.len(),
        a@.len() > 0,
    ensures
        arithmetic_specified::<T>() ==> sum == dot(a@, b@),
{
    let mut sum = a[0] * b[0];
    proof {
        assert(products(a@, b@).take(1)[0] == a@[0].mul_spec(b@[0]));
    }
    for i in 1..a.len()
        invariant
            arithmetic_defined::<T>(),
            a@.len() == b@.len(),
            arithmetic_specified::<T>() ==> sum == total(products(a@, b@).take(i as int)),
    {
        proof {
            let p = products(a@, b@);
            assert(p.take(i + 1).drop_last() == p.take(i as int));
            assert(p.take(i + 1).last() == a@[i as int].mul_spec(b@[i as int]));
        }
        sum = sum + a[i] * b[i];
    }
    proof {
        let p = products(a@, b@);
        assert(p.take(a@.len() as int) == p);
    }
    sum
}

/// The sum of the values of a vector that holds at least one.
pub fn sum_of<T: Copy + Add<Output = T> + Sub<Output = T> + Mul<Output = T> + Div<Output = T>>(
    values: &Vec<T>,
) -> (sum: T)
    requires
        arithmetic_defined::<T>(),
        values@.len() > 0,
    ensures
        arithmetic_specified::<T>() ==> sum == total(values@),
{
    let mut sum = values[0];
    for i in 1..values.len()
        invariant
            arithmetic_defined::<T>(),
            arithmetic_specified::<T>() ==> sum == total(values@.take(i as int)),
    {
        proof {
            assert(values@.take(i + 1).drop_last() == values@.take(i as int));
        }
        sum = sum + values[i];
    }
    proof {
        assert(values@.take(values@.len() as int) == values@);
    }
    sum
}

impl<
    T: Copy + Add<Output = T> + Sub<Output = T> + Mul<Output = T> + Div<Output = T>,
> LinearRegression<T> {
    /// What the model predicts for `features`: the intercept plus the dot
    /// product of features and coefficients; the intercept alone for a
    /// model without coefficients.
    pub open spec fn prediction(&self, features: Seq<T>) -> T {
        if self.coefficients@.len() == 0 {
            self.intercept
        } else {
            self.intercept.add_spec(dot(features, self.coefficients@))
        }
    }

    /// For every example of a batch, the prediction minus the target.
    pub open spec fn residuals(&self, x: Seq<Seq<T>>, y: Seq<T>) -> Seq<T> {
        Seq::new(x.len(), |i: int| self.prediction(x[i]).sub_spec(y[i]))
    }

    /// The gradient of half the mean squared error over a batch of
    /// `num_examples` examples: for every coefficient the dot product of the
    /// residuals and the values of its feature, and for the intercept the
    /// sum of the residuals, each divided by `num_examples`.
    pub open spec fn mean_gradient(&self, x: Seq<Seq<T>>, y: Seq<T>, num_examples: T) -> (
        Seq<T>,
        T,
    ) {
        let errors = self.residuals(x, y);
        (
            Seq::new(
                self.coefficients@.len(),
                |j: int| dot(errors, column_of(x, j)).div_spec(num_examples),
            ),
            total(errors).div_spec(num_examples),
        )
    }

    /// The gradient of the squared error on one example: twice the
    /// residual times each feature, and twice the residual.
    pub open spec fn single_gradient(&self, x: Seq<T>, y: T) -> (Seq<T>, T) {
        let error = self.prediction(x).sub_spec(y);
        let twice = error.add_spec(error);
        (Seq::new(x.len(), |j: int| twice.mul_spec(x[j])), twice)
    }

    /// The coefficients after one step against `gradient` at
    /// `learning_rate`.
    pub open spec fn stepped_coefficients(&self, gradient: Seq<T>, learning_rate: T) -> Seq<T> {
        Seq::new(
            self.coefficients@.len(),
            |j: int| self.coefficients@[j].sub_spec(gradient[j].mul_spec(learning_rate)),
        )
    }

    /// The intercept after one step against `intercept_gradient` at
    /// `learning_rate`.
    pub open spec fn stepped_intercept(&self, intercept_gradient: T, learning_rate: T) -> T {
        self.intercept.sub_spec(intercept_gradient.mul_spec(learning_rate))
    }

    /// The prediction for `independents`, or `DimensionMismatch` where there
    /// is not one value per coefficient.
    pub fn predict(&self, independents: &Vec<T>) -> (result: Result<T, SgdError>)
        requires
            arithmetic_defined::<T>(),
        ensures
            independents@.len() != self.coefficients@.len() ==> result == Err::<T, SgdError>(
                SgdError::DimensionMismatch,
            ),
            independents@.len() == self.coefficients@.len() ==> result is Ok,
            arithmetic_specified::<T>() && result is Ok ==> result->Ok_0 == self.prediction(
                independents@,
            ),
    {
        match check_example(independents, self.coefficients.len()) {
            Err(e) => {
                return Err(e);
            },
            Ok(()) => {},
        }
        if independents.len() == 0 {
            return Ok(self.intercept);
        }
        let coefficients_independents_sum = dot_product(independents, &self.coefficients);
        Ok(self.intercept + coefficients_independents_sum)
    }

    /// Moves every parameter against its gradient by `learning_rate`. A
    /// gradient that does not hold one value per coefficient is refused and
    /// leaves the model as it was.
    pub fn apply_update(&mut self, gradient: &Vec<T>, intercept_gradient: T, learning_rate: T) -> (result:
        Result<(), SgdError>)
        requires
            arithmetic_defined::<T>(),
        ensures
            final(self).coefficients@.len() == old(self).coefficients@.len(),
            gradient@.len() != old(self).coefficients@.len() ==> {
                &&& result == Err::<(), SgdError>(SgdError::DimensionMismatch)
                &&& final(self).intercept == old(self).intercept
                &&& final(self).coefficients@ == old(self).coefficients@
            },
            gradient@.len() == old(self).coefficients@.len() ==> {
                &&& result == Ok::<(), SgdError>(())
                &&& arithmetic_specified::<T>() ==> {
                    &&& final(self).intercept == old(self).stepped_intercept(
                        intercept_gradient,
                        learning_rate,
                    )
                    &&& final(self).coefficients@ == old(self).stepped_coefficients(
                        gradient@,
                        learning_rate,
                    )
                }
            },
    {
        if gradient.len() != self.coefficients.len() {
            return Err(SgdError::DimensionMismatch);
        }
        let ghost before = *self;
        let n = self.coefficients.len();
        for j in 0..n
            invariant
                arithmetic_defined::<T>(),
                n == before.coefficients@.len(),
                gradient@.len() == n,
                self.intercept == before.intercept,
                self.coefficients@.len() == n,
                forall|k: int| j <= k < n ==> self.coefficients@[k] == before.coefficients@[k],
                arithmetic_specified::<T>() ==> forall|k: int|
                    0 <= k < j ==> self.coefficients@[k] == before.stepped_coefficients(
                        gradient@,
                        learning_rate,
                    )[k],
        {
            let moved = self.coefficients[j] - gradient[j] * learning_rate;
            self.coefficients.set(j, moved);
        }
        self.intercept = self.intercept - intercept_gradient * learning_rate;
        proof {
            if arithmetic_specified::<T>() {
                assert(self.coefficients@ =~= before.stepped_coefficients(
                    gradient@,
                    learning_rate,
                ));
            }
        }
        Ok(())
    }
}

/// A model with a single coefficient predicts the intercept plus feature
/// times coefficient. So where that product is `zero` and `zero` added to
/// the intercept gives `zero`, it predicts `zero`; and where the product is
/// the feature and adding it to the intercept leaves it as it is, it
/// predicts the feature.
pub proof fn lemma_single_coefficient_prediction<
    T: Copy + Add<Output = T> + Sub<Output = T> + Mul<Output = T> + Div<Output = T>,
>(model: LinearRegression<T>, x: T, zero: T)
    requires
        model.coefficients@.len() == 1,
    ensures
        model.prediction(seq![x]) == model.intercept.add_spec(
            x.mul_spec(model.coefficients@[0]),
        ),
        x.mul_spec(model.coefficients@[0]) == zero && model.intercept.add_spec(zero) == zero
            ==> model.prediction(seq![x]) == zero,
        x.mul_spec(model.coefficients@[0]) == x && model.intercept.add_spec(x) == x
            ==> model.prediction(seq![x]) == x,
{
    let p = products(seq![x], model.coefficients@);
    assert(p.len() == 1);
    assert(p[0] == x.mul_spec(model.coefficients@[0]));
    assert(total(p) == p[0]);
}

/// At an exact fit the gradient vanishes: where the residual of a single
/// example is a zero of `T`, that is, where its product with every feature
/// and its quotient by `num_examples` are the residual itself, and its
/// double is too, every entry of the batch gradient of that example and of
/// its single-example gradient is that zero.
pub proof fn lemma_gradient_vanishes_at_exact_fit<
    T: Copy + Add<Output = T> + Sub<Output = T> + Mul<Output = T> + Div<Output = T>,
>(model: LinearRegression<T>, x: Seq<T>, y: T, num_examples: T)
    requires
        x.len() == model.coefficients@.len(),
        forall|j: int|
            0 <= j < x.len() ==> model.prediction(x).sub_spec(y).mul_spec(#[trigger] x[j])
                == model.prediction(x).sub_spec(y),
        model.prediction(x).sub_spec(y).div_spec(num_examples) == model.prediction(x).sub_spec(y),
        model.prediction(x).sub_spec(y).add_spec(model.prediction(x).sub_spec(y))
            == model.prediction(x).sub_spec(y),
    ensures
        model.mean_gradient(seq![x], seq![y], num_examples) == (
            Seq::new(x.len(), |j: int| model.prediction(x).sub_spec(y)),
            model.prediction(x).sub_spec(y),
        ),
        model.single_gradient(x, y) == (
            Seq::new(x.len(), |j: int| model.prediction(x).sub_spec(y)),
            model.prediction(x).sub_spec(y),
        ),
{
    let zero = model.prediction(x).sub_spec(y);
    let errors = model.residuals(seq![x], seq![y]);
    assert(errors.len() == 1);
    assert(errors[0] == zero);
    assert(total(errors) == zero);
    let gradient = model.mean_gradient(seq![x], seq![y], num_examples);
    assert forall|j: int| 0 <= j < x.len() implies gradient.0[j] == zero by {
        let column = column_of(seq![x], j);
        let p = products(errors, column);
        assert(p.len() == 1);
        assert(p[0] == zero.mul_spec(x[j]));
        assert(total(p) == p[0]);
    }
    assert(gradient.0 =~= Seq::new(x.len(), |j: int| zero));
    assert(model.single_gradient(x, y).0 =~= Seq::new(x.len(), |j: int| zero));
}

/// The gradient of the squared error of `lr` on the single example `x`,
/// `y`, for the coefficients and for the intercept.
pub fn example_gradient<
    T: Copy + Add<Output = T> + Sub<Output = T> + Mul<Output = T> + Div<Output = T>,
>(x: &Vec<T>, y: T, lr: &LinearRegression<T>) -> (result: Result<(Vec<T>, T), SgdError>)
    requires
        arithmetic_defined::<T>(),
    ensures
        x@.len() != lr.coefficients@.len() ==> result == Err::<(Vec<T>, T), SgdError>(
            SgdError::DimensionMismatch,
        ),
        x@.len() == lr.coefficients@.len() ==> {
            &&& result is Ok
            &&& result->Ok_0.0@.len() == lr.coefficients@.len()
            &&& arithmetic_specified::<T>() ==> (result->Ok_0.0@, result->Ok_0.1)
                == lr.single_gradient(x@, y)
        },
{
    let prediction = match lr.predict(x) {
        Ok(p) => p,
        Err(e) => {
            return Err(e);
        },
    };
    let error = prediction - y;
    let twice = error + error;
    let mut gradient: Vec<T> = Vec::with_capacity(x.len());
    for j in 0..x.len()
        invariant
            arithmetic_defined::<T>(),
            gradient@.len() == j,
            arithmetic_specified::<T>() ==> gradient@ == Seq::new(
                x@.len(),
                |j: int| twice.mul_spec(x@[j]),
            ).take(j as int),
    {
        gradient.push(twice * x[j]);
        proof {
            if arithmetic_specified::<T>() {
                assert(gradient@ =~= Seq::new(x@.len(), |j: int| twice.mul_spec(x@[j])).take(
                    j + 1,
                ));
            }
        }
    }
    proof {
        let full = Seq::new(x@.len(), |j: int| twice.mul_spec(x@[j]));
        assert(full.take(x@.len() as int) == full);
    }
    Ok((gradient, twice))
}

/// The gradient of half the mean squared error of `lr` over the batch `x`,
/// `y` of `num_examples` examples, for the coefficients and for the
/// intercept. Fails on a batch without rows, and on one whose shape does
/// not fit the model.
pub fn calc_gradient<
    T: Copy + Add<Output = T> + Sub<Output = T> + Mul<Output = T> + Div<Output = T>,
>(x: &Vec<Vec<T>>, y: &Vec<T>, lr: &LinearRegression<T>, num_examples: T) -> (result: Result<
    (Vec<T>, T),
    SgdError,
>)
    requires
        arithmetic_defined::<T>(),
    ensures
        match batch_fault(row_views(x@), y@.len(), lr.coefficients@.len()) {
            Some(e) => result == Err::<(Vec<T>, T), SgdError>(e),
            None => {
                &&& result is Ok
                &&& result->Ok_0.0@.len() == lr.coefficients@.len()
                &&& arithmetic_specified::<T>() ==> (result->Ok_0.0@, result->Ok_0.1)
                    == lr.mean_gradient(row_views(x@), y@, num_examples)
            },
        },
{
    match check_batch(x, y, lr.coefficients.len()) {
        Err(e) => {
            return Err(e);
        },
        Ok(()) => {},
    }
    let ghost rows = row_views(x@);
    let num_features = lr.coefficients.len();
    let mut errors: Vec<T> = Vec::with_capacity(x.len());
    for i in 0..x.len()
        invariant
            arithmetic_defined::<T>(),
            rows == row_views(x@),
            x@.len() == y@.len(),
            all_of_width(rows, lr.coefficients@.len() as nat),
            errors@.len() == i,
            arithmetic_specified::<T>() ==> errors@ == lr.residuals(rows, y@).take(i as int),
    {
        assert(rows[i as int] == x@[i as int]@);
        let prediction = lr.predict(&x[i]).unwrap();
        let error = prediction - y[i];
        errors.push(error);
        proof {
            if arithmetic_specified::<T>() {
                assert(errors@ =~= lr.residuals(rows, y@).take(i + 1));
            }
        }
    }
    proof {
        assert(lr.residuals(rows, y@).take(x@.len() as int) == lr.residuals(rows, y@));
    }
    let mut gradient: Vec<T> = Vec::with_capacity(num_features);
    for j in 0..num_features
        invariant
            arithmetic_defined::<T>(),
            rows == row_views(x@),
            x@.len() > 0,
            errors@.len() == x@.len(),
            num_features == lr.coefficients@.len(),
            all_of_width(rows, num_features as nat),
            arithmetic_specified::<T>() ==> errors@ == lr.residuals(rows, y@),
            gradient@.len() == j,
            arithmetic_specified::<T>() ==> gradient@ == lr.mean_gradient(
                rows,
                y@,
                num_examples,
            ).0.take(j as int),
    {
        let mut feature: Vec<T> = Vec::with_capacity(x.len());
        for i in 0..x.len()
            invariant
                rows == row_views(x@),
                j < num_features,
                all_of_width(rows, num_features as nat),
                feature@ == column_of(rows, j as int).take(i as int),
        {
            assert(rows[i as int] == x@[i as int]@);
            feature.push(x[i][j]);
            assert(feature@ =~= column_of(rows, j as int).take(i + 1));
        }
        assert(column_of(rows, j as int).take(x@.len() as int) == column_of(rows, j as int));
        let sum = dot_product(&errors, &feature);
        gradient.push(sum / num_examples);
        proof {
            if arithmetic_specified::<T>() {
                assert(gradient@ =~= lr.mean_gradient(rows, y@, num_examples).0.take(j + 1));
            }
        }
    }
    proof {
        let full = lr.mean_gradient(rows, y@, num_examples).0;
        assert(full.take(num_features as int) == full);
    }
    let gradient_intercept = sum_of(&errors) / num_examples;
    Ok((gradient, gradient_intercept))
}

} // verus!
