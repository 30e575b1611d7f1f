//! An in-memory table of rows of equal length, with operations that derive
//! new tables and never change the one they are applied to.

use crate::bounds::{below, ordered};
use crate::error::SgdError;
use crate::random::{
    lemma_order_in_range, lemma_reordered_is_permutation, random_order, reordered,
};
use rand::rngs::StdRng;
use vstd::prelude::*;

verus! {

/// The contents of each row of `data`, in order.
pub open spec fn row_views<T>(data: Seq<Vec<T>>) -> Seq<Seq<T>> {
    Seq::new(data.len(), |i: int| data[i]@)
}

/// Every row of `rows` has `width` values.
pub open spec fn all_of_width<T>(rows: Seq<Seq<T>>, width: nat) -> bool {
    forall|i: int| 0 <= i < rows.len() ==> (#[trigger] rows[i]).len() == width
}

/// The least index of a row of `rows` that does not have `width` values.
pub open spec fn first_misfit<T>(rows: Seq<Seq<T>>, width: nat, row: int) -> bool {
    &&& 0 <= row < rows.len()
    &&& rows[row].len() != width
    &&& all_of_width(rows.take(row), width)
}

/// The items of `items` whose pick equals `side`, in the order they have there.
/// `picks` holds one pick per item.
pub open spec fn selected<A>(items: Seq<A>, picks: Seq<bool>, side: bool) -> Seq<A>
    decreases items.len(),
{
    if items.len() == 0 {
        Seq::empty()
    } else {
        let rest = selected(items.drop_last(), picks.drop_last(), side);
        if picks.last() == side {
            rest.push(items.last())
        } else {
            rest
        }
    }
}

/// For every draw, whether it is below `ratio`.
pub open spec fn picks_of<D: PartialOrd>(draws: Seq<D>, ratio: D) -> Seq<bool> {
    Seq::new(draws.len(), |i: int| below(draws[i], ratio))
}

/// `after` has the shape of `before` and holds the same value wherever the
/// column is not the one at `index`.
pub open spec fn same_outside_column<T>(before: Seq<Seq<T>>, after: Seq<Seq<T>>, index: int) -> bool {
    &&& after.len() == before.len()
    &&& forall|i: int| 0 <= i < before.len() ==> (#[trigger] after[i]).len() == before[i].len()
    &&& forall|i: int, j: int|
        0 <= i < before.len() && 0 <= j < before[i].len() && j != index ==> #[trigger] after[i][j]
            == before[i][j]
}

/// Each row of `rows` without its value at `index`.
pub open spec fn without_column<T>(rows: Seq<Seq<T>>, index: int) -> Seq<Seq<T>> {
    Seq::new(rows.len(), |i: int| rows[i].remove(index))
}

/// The value at `index` of each row of `rows`.
pub open spec fn column_of<T>(rows: Seq<Seq<T>>, index: int) -> Seq<T> {
    Seq::new(rows.len(), |i: int| rows[i][index])
}

/// `rows` with the value at `index` of each row replaced by the value of
/// `values` for that row.
pub open spec fn replace_column<T>(rows: Seq<Seq<T>>, index: int, values: Seq<T>) -> Seq<Seq<T>> {
    Seq::new(rows.len(), |i: int| rows[i].update(index, values[i]))
}

/// `items` cut into consecutive chunks of `size` items; the last chunk holds
/// what is left and may be shorter.
pub open spec fn chunks<A>(items: Seq<A>, size: nat) -> Seq<Seq<A>>
    decreases items.len(),
{
    if size == 0 || items.len() == 0 {
        Seq::empty()
    } else if items.len() <= size {
        seq![items]
    } else {
        seq![items.take(size as int)] + chunks(items.skip(size as int), size)
    }
}

/// Chunks partition what they were cut from: joined in order they give the
/// items again, there are as many as it takes to hold all items, none is
/// empty or longer than `size`, and all but the last hold exactly `size`
/// items.
pub proof fn lemma_chunks_partition<A>(items: Seq<A>, size: nat)
    requires
        size > 0,
    ensures
        chunks(items, size).flatten() == items,
        chunks(items, size).len() == (items.len() + size - 1) / (size as int),
        forall|i: int|
            0 <= i < chunks(items, size).len() ==> 0 < (#[trigger] chunks(items, size)[i]).len()
                <= size,
        forall|i: int|
            0 <= i < chunks(items, size).len() - 1 ==> (#[trigger] chunks(items, size)[i]).len()
                == size,
    decreases items.len(),
{
    let all = chunks(items, size);
    let n = items.len() as int;
    let s = size as int;
    if items.len() == 0 {
        assert((n + s - 1) / s == 0) by (nonlinear_arith)
            requires
                n == 0,
                s > 0,
        ;
    } else if items.len() <= size {
        all.lemma_flatten_one_element();
        assert((n + s - 1) / s == 1) by (nonlinear_arith)
            requires
                0 < n <= s,
        ;
    } else {
        let head = items.take(size as int);
        let tail = items.skip(size as int);
        lemma_chunks_partition(tail, size);
        assert((n + s - 1) / s == (n - s + s - 1) / s + 1) by (nonlinear_arith)
            requires
                n > s,
                s > 0,
        ;
        assert(all.first() == head);
        assert(all.drop_first() =~= chunks(tail, size));
        assert(all.flatten() == all.first() + all.drop_first().flatten());
        assert(head + tail =~= items);
        assert forall|i: int| 0 <= i < all.len() implies 0 < (#[trigger] all[i]).len() <= size by {
            if i > 0 {
                assert(all[i] == chunks(tail, size)[i - 1]);
            }
        }
        assert forall|i: int| 0 <= i < all.len() - 1 implies (#[trigger] all[i]).len() == size by {
            if i > 0 {
                assert(all[i] == chunks(tail, size)[i - 1]);
            }
        }
    }
}

/// What a sequence of sequences holds at one index, its flattening holds at
/// least as often.
pub proof fn lemma_flatten_holds_each<A>(parts: Seq<Seq<A>>, i: int)
    requires
        0 <= i < parts.len(),
    ensures
        parts[i].to_multiset().subset_of(parts.flatten().to_multiset()),
    decreases parts.len(),
{
    let rest = parts.drop_first();
    vstd::seq_lib::lemma_multiset_commutative(parts.first(), rest.flatten());
    if i > 0 {
        lemma_flatten_holds_each(rest, i - 1);
        assert(rest[i - 1] == parts[i]);
    }
}

/// The rows of each table of `batches`, in order.
pub open spec fn batch_rows<T>(batches: Seq<Dataframe<T>>) -> Seq<Seq<Seq<T>>> {
    Seq::new(batches.len(), |i: int| batches[i].rows())
}

/// Every table of `batches` has the column names `columns`.
pub open spec fn all_with_columns<T>(batches: Seq<Dataframe<T>>, columns: Seq<String>) -> bool {
    forall|i: int| 0 <= i < batches.len() ==> (#[trigger] batches[i]).columns() == columns
}

/// A split loses and invents nothing: the two sides together hold as many
/// items as there were, and each item exactly as often as it occurred.
pub proof fn lemma_split_covers<A>(items: Seq<A>, picks: Seq<bool>)
    requires
        picks.len() == items.len(),
    ensures
        selected(items, picks, true).len() + selected(items, picks, false).len() == items.len(),
        selected(items, picks, true).to_multiset().add(
            selected(items, picks, false).to_multiset(),
        ) == items.to_multiset(),
    decreases items.len(),
{
    broadcast use vstd::seq_lib::group_to_multiset_ensures;

    if items.len() == 0 {
        assert(selected(items, picks, true).to_multiset().add(
            selected(items, picks, false).to_multiset(),
        ) =~= items.to_multiset());
    } else {
        lemma_split_covers(items.drop_last(), picks.drop_last());
        assert(items == items.drop_last().push(items.last()));
        assert(selected(items, picks, true).to_multiset().add(
            selected(items, picks, false).to_multiset(),
        ) =~= items.to_multiset());
    }
}

/// Putting the value that was taken out of a row back at its index gives
/// the row again, for every row that is long enough to hold that index.
pub proof fn lemma_extraction_round_trip<T>(rows: Seq<Seq<T>>, index: int)
    requires
        forall|i: int| 0 <= i < rows.len() ==> 0 <= index < (#[trigger] rows[i]).len(),
    ensures
        without_column(rows, index).len() == rows.len(),
        column_of(rows, index).len() == rows.len(),
        forall|i: int|
            0 <= i < rows.len() ==> (#[trigger] without_column(rows, index)[i]).insert(
                index,
                column_of(rows, index)[i],
            ) == rows[i],
{
    assert forall|i: int| 0 <= i < rows.len() implies (#[trigger] without_column(
        rows,
        index,
    )[i]).insert(index, column_of(rows, index)[i]) == rows[i] by {
        assert(rows[i].remove(index).insert(index, rows[i][index]) =~= rows[i]);
    }
}

/// Column names and rows of values, one value per column in every row.
#[derive(Debug)]
pub struct Dataframe<T> {
    headers: Vec<String>,
    data: Vec<Vec<T>>,
}

/// A copy of `row`.
fn copy_row<T: Copy>(row: &Vec<T>) -> (copy: Vec<T>)
    ensures
        copy@ == row@,
{
    let mut copy: Vec<T> = Vec::with_capacity(row.len());
    for i in 0..row.len()
        invariant
            copy@ == row@.take(i as int),
    {
        copy.push(row[i]);
        assert(row@.take(i + 1) == row@.take(i as int).push(row@[i as int]));
    }
    assert(row@.take(row.len() as int) == row@);
    copy
}

/// A copy of `names`.
fn copy_names(names: &Vec<String>) -> (copy: Vec<String>)
    ensures
        copy@ == names@,
{
    let mut copy: Vec<String> = Vec::with_capacity(names.len());
    for i in 0..names.len()
        invariant
            copy@ == names@.take(i as int),
    {
        copy.push(names[i].clone());
        assert(names@.take(i + 1) == names@.take(i as int).push(names@[i as int]));
    }
    assert(names@.take(names.len() as int) == names@);
    copy
}

impl<T> Dataframe<T> {
    #[verifier::type_invariant]
    spec fn rectangular(&self) -> bool {
        all_of_width(row_views(self.data@), self.headers@.len())
    }

    /// The column names, in order.
    pub closed spec fn columns(&self) -> Seq<String> {
        self.headers@
    }

    /// The rows, in order, each as the sequence of its values.
    pub closed spec fn rows(&self) -> Seq<Seq<T>> {
        row_views(self.data@)
    }


}

impl<T: Copy> Dataframe<T> {
    /// Builds a table from column names and rows. Fails with the index of
    /// the first row that does not have one value per column.
    pub fn new(headers: Vec<String>, data: Vec<Vec<T>>) -> (result: Result<Self, SgdError>)
        ensures
            match result {
                Ok(table) => {
                    &&& all_of_width(row_views(data@), headers@.len())
                    &&& table.columns() == headers@
                    &&& table.rows() == row_views(data@)
                },
                Err(e) => exists|row: int|
                    first_misfit(row_views(data@), headers@.len(), row) && e == (SgdError::Schema {
                        row: row as usize,
                    }),
            },
    {
        let width = headers.len();
        for i in 0..data.len()
            invariant
                width == headers@.len(),
                all_of_width(row_views(data@).take(i as int), width as nat),
        {
            if data[i].len() != width {
                assert(first_misfit(row_views(data@), headers@.len(), i as int));
                return Err(SgdError::Schema { row: i });
            }
            assert forall|j: int| 0 <= j < i + 1 implies (#[trigger] row_views(data@).take(
                i + 1,
            )[j]).len() == width by {
                if j < i {
                    assert(row_views(data@).take(i as int)[j].len() == width);
                }
            }
        }
        assert(row_views(data@).take(data@.len() as int) == row_views(data@));
        Ok(Dataframe { headers, data })
    }

    /// The column names.
    pub fn headers(&self) -> (names: &Vec<String>)
        ensures
            names@ == self.columns(),
    {
        &self.headers
    }

    /// The rows, each with one value per column.
    pub fn data(&self) -> (rows: &Vec<Vec<T>>)
        ensures
            row_views(rows@) == self.rows(),
            all_of_width(self.rows(), self.columns().len()),
    {
        proof {
            use_type_invariant(self);
        }
        &self.data
    }

    /// Splits the rows in two by one pick per row: the first table holds the
    /// rows whose pick is `true`, the second the others, both in the order
    /// they have here and under the same column names.
    pub fn split_by_picks(&self, picks: &Vec<bool>) -> (sides: (Self, Self))
        requires
            picks@.len() == self.rows().len(),
        ensures
            sides.0.columns() == self.columns(),
            sides.1.columns() == self.columns(),
            sides.0.rows() == selected(self.rows(), picks@, true),
            sides.1.rows() == selected(self.rows(), picks@, false),
    {
        proof {
            use_type_invariant(self);
        }
        let ghost rows = self.rows();
        let ghost width = self.headers@.len();
        let mut training_data: Vec<Vec<T>> = Vec::new();
        let mut validation_data: Vec<Vec<T>> = Vec::new();
        for i in 0..self.data.len()
            invariant
                rows == row_views(self.data@),
                picks@.len() == rows.len(),
                all_of_width(rows, width),
                row_views(training_data@) == selected(rows.take(i as int), picks@.take(i as int), true),
                row_views(validation_data@) == selected(
                    rows.take(i as int),
                    picks@.take(i as int),
                    false,
                ),
                all_of_width(row_views(training_data@), width),
                all_of_width(row_views(validation_data@), width),
        {
            let row = copy_row(&self.data[i]);
            proof {
                assert(rows.take(i + 1).drop_last() == rows.take(i as int));
                assert(picks@.take(i + 1).drop_last() == picks@.take(i as int));
                assert(row@ == rows[i as int]);
            }
            let ghost before_training = row_views(training_data@);
            let ghost before_validation = row_views(validation_data@);
            if picks[i] {
                training_data.push(row);
                assert(row_views(training_data@) =~= before_training.push(row@));
            } else {
                validation_data.push(row);
                assert(row_views(validation_data@) =~= before_validation.push(row@));
            }
        }
        proof {
            assert(rows.take(self.data@.len() as int) == rows);
            assert(picks@.take(self.data@.len() as int) == picks@);
        }
        let training_df = Dataframe { headers: copy_names(&self.headers), data: training_data };
        let validation_df = Dataframe { headers: copy_names(&self.headers), data: validation_data };
        (training_df, validation_df)
    }

    /// Splits the rows in two by one draw per row: a row goes to the first
    /// table where its draw is below `training_ratio`, else to the second.
    /// Both tables keep the order of the rows and the column names. With
    /// draws that are uniform over the numbers from 0 to 1, the first table
    /// gets about the share `training_ratio` of the rows.
    pub fn training_split<D: Copy + PartialOrd>(&self, draws: &Vec<D>, training_ratio: D) -> (sides:
        (Self, Self))
        requires
            draws@.len() == self.rows().len(),
        ensures
            sides.0.columns() == self.columns(),
            sides.1.columns() == self.columns(),
            sides.0.rows().len() + sides.1.rows().len() == self.rows().len(),
            sides.0.rows().to_multiset().add(sides.1.rows().to_multiset())
                == self.rows().to_multiset(),
            exists|picks: Seq<bool>|
                {
                    &&& picks.len() == self.rows().len()
                    &&& sides.0.rows() == #[trigger] selected(self.rows(), picks, true)
                    &&& sides.1.rows() == selected(self.rows(), picks, false)
                },
            ordered::<D>() ==> {
                &&& sides.0.rows() == selected(self.rows(), picks_of(draws@, training_ratio), true)
                &&& sides.1.rows() == selected(
                    self.rows(),
                    picks_of(draws@, training_ratio),
                    false,
                )
            },
    {
        let mut picks: Vec<bool> = Vec::with_capacity(draws.len());
        for i in 0..draws.len()
            invariant
                picks@.len() == i,
                ordered::<D>() ==> picks@ == picks_of(draws@, training_ratio).take(i as int),
        {
            let number = draws[i];
            picks.push(number < training_ratio);
            proof {
                if ordered::<D>() {
                    assert(picks@ =~= picks_of(draws@, training_ratio).take(i + 1));
                }
            }
        }
        proof {
            let all = picks_of(draws@, training_ratio);
            assert(all.take(draws@.len() as int) == all);
            lemma_split_covers(self.rows(), picks@);
        }
        self.split_by_picks(&picks)
    }

    /// Separates one column from the others: for every row, the row without
    /// its value at `target_index`, and that value.
    pub fn feature_target_extraction(&self, target_index: usize) -> (parts: (Vec<Vec<T>>, Vec<T>))
        requires
            self.rows().len() > 0 ==> target_index < self.columns().len(),
        ensures
            row_views(parts.0@) == without_column(self.rows(), target_index as int),
            parts.1@ == column_of(self.rows(), target_index as int),
            parts.0@.len() == self.rows().len(),
            parts.1@.len() == self.rows().len(),
            all_of_width(row_views(parts.0@), (self.columns().len() - 1) as nat),
    {
        proof {
            use_type_invariant(self);
        }
        let ghost rows = self.rows();
        let mut features: Vec<Vec<T>> = Vec::new();
        let mut target: Vec<T> = Vec::new();
        for i in 0..self.data.len()
            invariant
                rows == row_views(self.data@),
                all_of_width(rows, self.headers@.len()),
                rows.len() > 0 ==> target_index < self.headers@.len(),
                row_views(features@) == without_column(rows, target_index as int).take(i as int),
                target@ == column_of(rows, target_index as int).take(i as int),
        {
            let mut cleaned_record = copy_row(&self.data[i]);
            assert(cleaned_record@ == rows[i as int]);
            let target_extracted = cleaned_record.remove(target_index);
            let ghost before = row_views(features@);
            features.push(cleaned_record);
            target.push(target_extracted);
            proof {
                assert(row_views(features@) =~= before.push(cleaned_record@));
                assert(row_views(features@) =~= without_column(rows, target_index as int).take(
                    i + 1,
                ));
                assert(target@ =~= column_of(rows, target_index as int).take(i + 1));
            }
        }
        proof {
            let n = self.data@.len() as int;
            assert(without_column(rows, target_index as int).take(n) == without_column(
                rows,
                target_index as int,
            ));
            assert(column_of(rows, target_index as int).take(n) == column_of(
                rows,
                target_index as int,
            ));
        }
        (features, target)
    }

    /// The value at `index` of every row.
    pub fn column(&self, index: usize) -> (values: Vec<T>)
        requires
            self.rows().len() > 0 ==> index < self.columns().len(),
        ensures
            values@ == column_of(self.rows(), index as int),
    {
        proof {
            use_type_invariant(self);
        }
        let ghost rows = self.rows();
        let mut values: Vec<T> = Vec::with_capacity(self.data.len());
        for i in 0..self.data.len()
            invariant
                rows == row_views(self.data@),
                all_of_width(rows, self.headers@.len()),
                rows.len() > 0 ==> index < self.headers@.len(),
                values@ == column_of(rows, index as int).take(i as int),
        {
            assert(self.data@[i as int]@ == rows[i as int]);
            values.push(self.data[i][index]);
            assert(values@ =~= column_of(rows, index as int).take(i + 1));
        }
        assert(column_of(rows, index as int).take(self.data@.len() as int) == column_of(
            rows,
            index as int,
        ));
        values
    }

    /// A table that differs from this one only in the column at `index`,
    /// where row by row it holds `values`.
    pub fn with_column(&self, index: usize, values: &Vec<T>) -> (table: Self)
        requires
            values@.len() == self.rows().len(),
            self.rows().len() > 0 ==> index < self.columns().len(),
        ensures
            table.columns() == self.columns(),
            table.rows() == replace_column(self.rows(), index as int, values@),
            same_outside_column(self.rows(), table.rows(), index as int),
    {
        proof {
            use_type_invariant(self);
        }
        let ghost rows = self.rows();
        let ghost width = self.headers@.len();
        let mut new_data: Vec<Vec<T>> = Vec::with_capacity(self.data.len());
        for i in 0..self.data.len()
            invariant
                rows == row_views(self.data@),
                all_of_width(rows, width),
                values@.len() == rows.len(),
                rows.len() > 0 ==> index < width,
                row_views(new_data@) == replace_column(rows, index as int, values@).take(i as int),
                all_of_width(row_views(new_data@), width),
        {
            let mut row = copy_row(&self.data[i]);
            assert(row@ == rows[i as int]);
            row.set(index, values[i]);
            let ghost before = row_views(new_data@);
            new_data.push(row);
            proof {
                assert(row_views(new_data@) =~= before.push(row@));
                assert(row_views(new_data@) =~= replace_column(rows, index as int, values@).take(
                    i + 1,
                ));
            }
        }
        assert(replace_column(rows, index as int, values@).take(self.data@.len() as int)
            == replace_column(rows, index as int, values@));
        Dataframe { headers: copy_names(&self.headers), data: new_data }
    }

    /// The table whose rows are this table's rows taken in the order that
    /// `order` gives, under the same column names.
    pub fn reorder(&self, order: &Vec<usize>) -> (table: Self)
        requires
            forall|i: int| 0 <= i < order@.len() ==> (#[trigger] order@[i]) < self.rows().len(),
        ensures
            table.columns() == self.columns(),
            table.rows() == reordered(self.rows(), order@),
    {
        proof {
            use_type_invariant(self);
        }
        let ghost rows = self.rows();
        let ghost width = self.headers@.len();
        let mut new_data: Vec<Vec<T>> = Vec::with_capacity(order.len());
        for i in 0..order.len()
            invariant
                rows == row_views(self.data@),
                all_of_width(rows, width),
                forall|i: int| 0 <= i < order@.len() ==> (#[trigger] order@[i]) < rows.len(),
                row_views(new_data@) == reordered(rows, order@).take(i as int),
                all_of_width(row_views(new_data@), width),
        {
            let row = copy_row(&self.data[order[i]]);
            assert(row@ == rows[order@[i as int] as int]);
            let ghost before = row_views(new_data@);
            new_data.push(row);
            proof {
                assert(row_views(new_data@) =~= before.push(row@));
                assert(row_views(new_data@) =~= reordered(rows, order@).take(i + 1));
            }
        }
        assert(reordered(rows, order@).take(order@.len() as int) == reordered(rows, order@));
        Dataframe { headers: copy_names(&self.headers), data: new_data }
    }

    /// A table with the same column names and the same rows in an order that
    /// `rng` decides: every row occurs in it exactly as often as in this one.
    pub fn shuffled(&self, rng: &mut StdRng) -> (table: Self)
        ensures
            table.columns() == self.columns(),
            table.rows().len() == self.rows().len(),
            table.rows().to_multiset() == self.rows().to_multiset(),
    {
        let order = random_order(rng, self.data.len());
        proof {
            lemma_order_in_range(order@, self.rows().len());
            lemma_reordered_is_permutation(self.rows(), order@);
        }
        self.reorder(&order)
    }

    /// Cuts the rows, in their order, into consecutive tables of
    /// `batch_size` rows, the last one holding what is left.
    pub fn minibatches(&self, batch_size: usize) -> (batches: Vec<Self>)
        requires
            batch_size > 0,
        ensures
            all_with_columns(batches@, self.columns()),
            batch_rows(batches@) == chunks(self.rows(), batch_size as nat),
    {
        proof {
            use_type_invariant(self);
        }
        let ghost rows = self.rows();
        let ghost width = self.headers@.len();
        let n = self.data.len();
        let mut batches: Vec<Self> = Vec::new();
        let mut start: usize = 0;
        proof {
            assert(rows.skip(0) =~= rows);
            assert(batch_rows(batches@) + chunks(rows, batch_size as nat) =~= chunks(
                rows,
                batch_size as nat,
            ));
        }
        while start < n
            invariant
                n == self.data@.len(),
                rows == row_views(self.data@),
                rows == self.rows(),
                width == self.headers@.len(),
                all_of_width(rows, width),
                batch_size > 0,
                start <= n,
                all_with_columns(batches@, self.columns()),
                chunks(rows, batch_size as nat) == batch_rows(batches@) + chunks(
                    rows.skip(start as int),
                    batch_size as nat,
                ),
            decreases n - start,
        {
            let end = if n - start <= batch_size {
                n
            } else {
                start + batch_size
            };
            let mut batch_data: Vec<Vec<T>> = Vec::with_capacity(end - start);
            for i in start..end
                invariant
                    start <= end <= n,
                    n == self.data@.len(),
                    rows == row_views(self.data@),
                    all_of_width(rows, width),
                    row_views(batch_data@) == rows.subrange(start as int, i as int),
                    all_of_width(row_views(batch_data@), width),
            {
                let row = copy_row(&self.data[i]);
                assert(row@ == rows[i as int]);
                let ghost before = row_views(batch_data@);
                batch_data.push(row);
                proof {
                    assert(row_views(batch_data@) =~= before.push(row@));
                    assert(row_views(batch_data@) =~= rows.subrange(start as int, i + 1));
                }
            }
            let batch = Dataframe { headers: copy_names(&self.headers), data: batch_data };
            let ghost before = batch_rows(batches@);
            let ghost rest = rows.skip(start as int);
            proof {
                if n - start <= batch_size {
                    assert(rows.subrange(start as int, end as int) =~= rest);
                    assert(rows.skip(end as int).len() == 0);
                } else {
                    assert(rows.subrange(start as int, end as int) =~= rest.take(
                        batch_size as int,
                    ));
                    assert(rest.skip(batch_size as int) =~= rows.skip(end as int));
                }
            }
            batches.push(batch);
            proof {
                assert(batch_rows(batches@) =~= before.push(batch.rows()));
                assert(chunks(rows, batch_size as nat) =~= batch_rows(batches@) + chunks(
                    rows.skip(end as int),
                    batch_size as nat,
                ));
            }
            start = end;
        }
        proof {
            assert(rows.skip(start as int).len() == 0);
            assert(chunks(rows, batch_size as nat) =~= batch_rows(batches@));
        }
        batches
    }

    /// The minibatches of one epoch: shuffles the rows with `rng` and cuts
    /// the shuffled rows into consecutive tables of `batch_size` rows, the
    /// last one holding what is left. Joined in order, the tables hold every
    /// row of this table exactly as often as it occurs here; a `batch_size`
    /// above the number of rows gives one table with all of them.
    pub fn get_shuffled_minibatch(&self, rng: &mut StdRng, batch_size: usize) -> (batches: Vec<
        Self,
    >)
        requires
            batch_size > 0,
        ensures
            all_with_columns(batches@, self.columns()),
            batch_rows(batches@) == chunks(batch_rows(batches@).flatten(), batch_size as nat),
            batch_rows(batches@).flatten().len() == self.rows().len(),
            batch_rows(batches@).flatten().to_multiset() == self.rows().to_multiset(),
            batches@.len() == (self.rows().len() + batch_size - 1) / (batch_size as int),
            forall|i: int|
                0 <= i < batches@.len() ==> 0 < (#[trigger] batches@[i]).rows().len()
                    <= batch_size,
            forall|i: int|
                0 <= i < batches@.len() - 1 ==> (#[trigger] batches@[i]).rows().len()
                    == batch_size,
    {
        let shuffled = self.shuffled(rng);
        proof {
            lemma_chunks_partition(shuffled.rows(), batch_size as nat);
        }
        let batches = shuffled.minibatches(batch_size);
        proof {
            assert(batch_rows(batches@).len() == batches@.len());
            assert forall|i: int| 0 <= i < batches@.len() implies 0 < (
            #[trigger] batches@[i]).rows().len() <= batch_size by {
                assert(batches@[i].rows() == batch_rows(batches@)[i]);
            }
            assert forall|i: int| 0 <= i < batches@.len() - 1 implies (
            #[trigger] batches@[i]).rows().len() == batch_size by {
                assert(batches@[i].rows() == batch_rows(batches@)[i]);
            }
        }
        batches
    }

    /// The number of rows.
    pub fn num_rows(&self) -> (n: usize)
        ensures
            n == self.rows().len(),
    {
        self.data.len()
    }

    /// The number of columns.
    pub fn num_columns(&self) -> (n: usize)
        ensures
            n == self.columns().len(),
    {
        self.headers.len()
    }
}

} // verus!
