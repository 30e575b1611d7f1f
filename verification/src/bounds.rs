//! The least and the greatest value of a list under the order of its type.

use core::cmp::Ordering;
use vstd::prelude::*;
use vstd::std_specs::cmp::PartialOrdSpec;

verus! {

/// The comparisons of `T` compute what their specification says.
pub open spec fn ordered<T: PartialOrd>() -> bool {
    T::obeys_partial_cmp_spec()
}

/// `a` comes strictly before `b` in the order of `T`.
pub open spec fn below<T: PartialOrd>(a: T, b: T) -> bool {
    a.partial_cmp_spec(&b) == Some(Ordering::Less)
}

/// The least value of a non-empty sequence: going from the first value to
/// the last, the value kept is replaced by each one that is below it.
pub open spec fn least_of<T: PartialOrd>(values: Seq<T>) -> T
    decreases values.len(),
{
    if values.len() <= 1 {
        values[0]
    } else {
        let least = least_of(values.drop_last());
        if below(values.last(), least) {
            values.last()
        } else {
            least
        }
    }
}

/// The greatest value of a non-empty sequence: going from the first value
/// to the last, the value kept is replaced by each one that it is below.
pub open spec fn greatest_of<T: PartialOrd>(values: Seq<T>) -> T
    decreases values.len(),
{
    if values.len() <= 1 {
        values[0]
    } else {
        let greatest = greatest_of(values.drop_last());
        if below(greatest, values.last()) {
            values.last()
        } else {
            greatest
        }
    }
}

/// The order of `T` is a strict one: no value is below itself, and a value
/// below one that is below a third is below the third.
pub open spec fn strict_order<T: PartialOrd>() -> bool {
    &&& forall|a: T| !#[trigger] below(a, a)
    &&& forall|a: T, b: T, c: T| #[trigger] below(a, b) && #[trigger] below(b, c) ==> below(a, c)
}

/// Under a strict order the least of a non-empty sequence is one of its
/// values, and none of its values is below it.
pub proof fn lemma_least_is_least<T: PartialOrd>(values: Seq<T>)
    requires
        strict_order::<T>(),
        values.len() > 0,
    ensures
        values.contains(least_of(values)),
        forall|k: int| 0 <= k < values.len() ==> !below(#[trigger] values[k], least_of(values)),
    decreases values.len(),
{
    if values.len() <= 1 {
        assert(values[0] == least_of(values));
    } else {
        let shorter = values.drop_last();
        lemma_least_is_least(shorter);
        let kept = least_of(shorter);
        let i = choose|i: int| 0 <= i < shorter.len() && shorter[i] == kept;
        assert(values[i] == kept);
        assert(values[values.len() - 1] == values.last());
        assert forall|k: int| 0 <= k < values.len() implies !below(
            #[trigger] values[k],
            least_of(values),
        ) by {
            if k < values.len() - 1 {
                assert(shorter[k] == values[k]);
                assert(!below(shorter[k], kept));
                if below(values.last(), kept) && below(values[k], values.last()) {
                    assert(below(values[k], kept));
                }
            }
        }
    }
}

/// Under a strict order the greatest of a non-empty sequence is one of its
/// values, and it is below none of its values.
pub proof fn lemma_greatest_is_greatest<T: PartialOrd>(values: Seq<T>)
    requires
        strict_order::<T>(),
        values.len() > 0,
    ensures
        values.contains(greatest_of(values)),
        forall|k: int|
            0 <= k < values.len() ==> !below(greatest_of(values), #[trigger] values[k]),
    decreases values.len(),
{
    if values.len() <= 1 {
        assert(values[0] == greatest_of(values));
    } else {
        let shorter = values.drop_last();
        lemma_greatest_is_greatest(shorter);
        let kept = greatest_of(shorter);
        let i = choose|i: int| 0 <= i < shorter.len() && shorter[i] == kept;
        assert(values[i] == kept);
        assert(values[values.len() - 1] == values.last());
        assert forall|k: int| 0 <= k < values.len() implies !below(
            greatest_of(values),
            #[trigger] values[k],
        ) by {
            if k < values.len() - 1 {
                assert(shorter[k] == values[k]);
                assert(!below(kept, shorter[k]));
                if below(kept, values.last()) && below(values.last(), values[k]) {
                    assert(below(kept, values[k]));
                }
            }
        }
    }
}

/// The least and the greatest of `values`, or `None` where there is no
/// value.
pub fn bounds<T: Copy + PartialOrd>(values: &Vec<T>) -> (result: Option<(T, T)>)
    ensures
        values@.len() == 0 <==> result is None,
        match result {
            Some((min, max)) => values@.contains(min) && values@.contains(max),
            None => true,
        },
        ordered::<T>() && result is Some ==> result == Some(
            (least_of(values@), greatest_of(values@)),
        ),
{
    if values.len() == 0 {
        return None;
    }
    let mut min = values[0];
    let mut max = values[0];
    assert(values@[0] == min);
    for i in 1..values.len()
        invariant
            values@.contains(min),
            values@.contains(max),
            ordered::<T>() ==> min == least_of(values@.take(i as int)),
            ordered::<T>() ==> max == greatest_of(values@.take(i as int)),
    {
        proof {
            assert(values@.take(i + 1).drop_last() == values@.take(i as int));
        }
        let value = values[i];
        assert(values@[i as int] == value);
        if value < min {
            min = value;
        }
        if max < value {
            max = value;
        }
    }
    proof {
        assert(values@.take(values@.len() as int) == values@);
    }
    Some((min, max))
}

} // verus!
