//! Sorts a collection of columns by some of its columns, in place and in
//! ascending order, nulls last. The sort is not stable.

use std::collections::BTreeSet;
use std::ops::Range;
use vstd::prelude::*;
use crate::laws::{law_nulls_last, law_sorted_in_order};
use crate::order::{
    bytes_order, cell_order, keys_in_bounds, lemma_row_order_reflexive, row_order, Order,
};
use crate::ordered::{
    in_order_at, lemma_partitioned_separated, lemma_quicksorted_ordered, nulls_come_last, ordered,
    ordered_within, separated,
};
use crate::packers::Packers;
use crate::quicksort::{
    exchange_from, follow, left_alone, lemma_exchange_keeps_stops, lemma_partitioned,
    lemma_quicksorted_all_push, lemma_quicksorted_rearranged, lemma_sorted_multiset, partitioned,
    quicksorted, quicksorted_all, scan_down, scan_up, sorted, work_left, SORTED_CHECK_SIZE,
};
use crate::rearrange::{exchange, lemma_rearranged_multiset};
use crate::table::{aligned, kinds, lemma_rows_index, lemma_rows_typed, num_rows, row, rows};

verus! {

/// Why a sort was refused.
#[derive(Debug, Clone, Copy, PartialEq, Eq, Structural)]
pub enum Error {
    /// More sort columns than there are columns.
    TooManyColumns,
    /// A column is named as sort column more than once.
    RepeatedColumns,
    /// A sort column index is not that of a column.
    OutOfBoundsColumnIndex,
}

impl Error {
    /// The message that describes the error.
    pub fn message(&self) -> (text: &'static str)
        ensures
            text@ == (match self {
                Error::TooManyColumns => "Too many sort columns specified"@,
                Error::RepeatedColumns => "Same column specified as sort column multiple times"@,
                Error::OutOfBoundsColumnIndex => "Specified column index is out bounds"@,
            }),
    {
        match self {
            Error::TooManyColumns => "Too many sort columns specified",
            Error::RepeatedColumns => "Same column specified as sort column multiple times",
            Error::OutOfBoundsColumnIndex => "Specified column index is out bounds",
        }
    }
}

/// The outcome of checking the sort columns `keys` against a collection of
/// `columns` columns. Nothing is checked where there is no column or no key,
/// and of several faults the first in this order is reported: too many keys,
/// a repeated key, a key that is no column index.
pub open spec fn checked(columns: nat, keys: Seq<usize>) -> Result<(), Error> {
    if columns == 0 || keys.len() == 0 {
        Ok(())
    } else if keys.len() > columns {
        Err(Error::TooManyColumns)
    } else if !keys.no_duplicates() {
        Err(Error::RepeatedColumns)
    } else if !keys_in_bounds(keys, columns) {
        Err(Error::OutOfBoundsColumnIndex)
    } else {
        Ok(())
    }
}

/// Whether a sort by `keys` goes on to read the rows: there are columns and
/// keys, and the keys are accepted.
pub open spec fn reads_rows(columns: nat, keys: Seq<usize>) -> bool {
    columns > 0 && keys.len() > 0 && checked(columns, keys) is Ok
}

/// Checks the sort columns `sort_by` against a collection of `columns`
/// columns.
pub fn validate(columns: usize, sort_by: &[usize]) -> (result: Result<(), Error>)
    ensures
        result == checked(columns as nat, sort_by@),
{
    if columns == 0 || sort_by.len() == 0 {
        return Ok(());
    } else if sort_by.len() > columns {
        return Err(Error::TooManyColumns);
    }
    let mut col_set: BTreeSet<usize> = BTreeSet::new();
    let mut k: usize = 0;
    while k < sort_by.len()
        invariant
            0 < sort_by.len() <= columns,
            k <= sort_by.len(),
            col_set@ == sort_by@.take(k as int).to_set(),
            sort_by@.take(k as int).no_duplicates(),
        decreases sort_by.len() - k,
    {
        if !col_set.insert(sort_by[k]) {
            proof {
                let earlier = choose|i: int|
                    0 <= i < k && sort_by@.take(k as int)[i] == sort_by@[k as int];
                assert(sort_by@[earlier] == sort_by@[k as int]);
            }
            return Err(Error::RepeatedColumns);
        }
        proof {
            assert(sort_by@.take(k + 1) == sort_by@.take(k as int).push(sort_by@[k as int]));
            sort_by@.take(k as int).lemma_push_to_set_commute(sort_by@[k as int]);
        }
        k += 1;
    }
    assert(sort_by@.take(k as int) == sort_by@);
    let mut k: usize = 0;
    while k < sort_by.len()
        invariant
            0 < sort_by.len() <= columns,
            sort_by@.no_duplicates(),
            k <= sort_by.len(),
            keys_in_bounds(sort_by@.take(k as int), columns as nat),
        decreases sort_by.len() - k,
    {
        if sort_by[k] >= columns {
            return Err(Error::OutOfBoundsColumnIndex);
        }
        k += 1;
    }
    assert(sort_by@.take(k as int) == sort_by@);
    Ok(())
}

/// Sorts the rows of `packers` by the columns `sort_by`, most significant
/// first, in ascending order with nulls last. The sort is not stable.
///
/// Nothing is moved when the sort columns are refused. A sort that is not
/// refused keeps every row and leaves the rows in order. The columns must
/// have the same number of rows where the sort goes on to read them.
pub fn sort(packers: &mut [Packers], sort_by: &[usize]) -> (result: Result<(), Error>)
    requires
        reads_rows(old(packers)@.len(), sort_by@) ==> aligned(old(packers)@),
    ensures
        result == checked(old(packers)@.len(), sort_by@),
        final(packers)@.len() == old(packers)@.len(),
        num_rows(final(packers)@) == num_rows(old(packers)@),
        kinds(final(packers)@) == kinds(old(packers)@),
        aligned(old(packers)@) ==> aligned(final(packers)@),
        old(packers)@.len() == 0 || sort_by@.len() == 0 ==> result is Ok,
        result is Err || old(packers)@.len() == 0 || left_alone(rows(old(packers)@), sort_by@)
            ==> final(packers)@ == old(packers)@,
        result is Ok ==> rows(final(packers)@) == sorted(rows(old(packers)@), sort_by@),
        rows(final(packers)@).to_multiset() == rows(old(packers)@).to_multiset(),
        result is Ok ==> ordered(rows(final(packers)@), sort_by@),
        result is Ok ==> nulls_come_last(rows(final(packers)@), sort_by@, kinds(final(packers)@)),
{
    proof {
        let table = rows(packers@);
        lemma_sorted_multiset(table, sort_by@);
        if reads_rows(packers@.len(), sort_by@) {
            lemma_rows_typed(packers@);
            law_sorted_in_order(table, sort_by@, kinds(packers@));
            law_nulls_last(table, sort_by@, kinds(packers@));
        } else if sort_by@.len() == 0 {
            assert forall|i: int| 0 <= i < table.len() - 1 implies #[trigger] in_order_at(
                table,
                i,
                sort_by@,
            ) by {}
        }
    }
    match validate(packers.len(), sort_by) {
        Err(refusal) => {
            return Err(refusal);
        },
        Ok(()) => {},
    }
    if packers.len() == 0 || sort_by.len() == 0 {
        return Ok(());
    }
    let n = packers[0].num_rows();
    if n == 0 {
        return Ok(());
    }
    if n > SORTED_CHECK_SIZE {
        let mut ties = true;
        let mut i: usize = 1;
        while ties && i < n
            invariant
                packers@ == old(packers)@,
                aligned(packers@),
                keys_in_bounds(sort_by@, packers@.len()),
                n == num_rows(packers@),
                1 <= i <= n,
                ties ==> forall|r: int|
                    0 < r < i ==> row_order(
                        rows(packers@)[0],
                        #[trigger] rows(packers@)[r],
                        sort_by@,
                    ) == Order::Equal,
                !ties ==> !left_alone(rows(packers@), sort_by@),
            decreases n - i + (if ties { 1int } else { 0int }),
        {
            proof {
                lemma_rows_index(packers@, 0);
                lemma_rows_index(packers@, i as int);
            }
            if compare(packers, 0, i, sort_by) != Order::Equal {
                ties = false;
            } else {
                i += 1;
            }
        }
        if ties {
            return Ok(());
        }
    }
    quicksort_by(packers, 0..n - 1, sort_by);
    Ok(())
}

/// Compares two byte strings lexicographically, which for UTF-8 text is the
/// order of the code points.
pub fn compare_bytes(a: &[u8], b: &[u8]) -> (order: Order)
    ensures
        order == bytes_order(a@, b@),
{
    let mut k: usize = 0;
    assert(a@.skip(0) == a@ && b@.skip(0) == b@);
    while k < a.len() && k < b.len()
        invariant
            k <= a.len(),
            k <= b.len(),
            bytes_order(a@, b@) == bytes_order(a@.skip(k as int), b@.skip(k as int)),
        decreases a.len() - k,
    {
        if a[k] < b[k] {
            return Order::Less;
        }
        if a[k] > b[k] {
            return Order::Greater;
        }
        proof {
            assert(a@.skip(k as int).drop_first() == a@.skip(k + 1));
            assert(b@.skip(k as int).drop_first() == b@.skip(k + 1));
        }
        k += 1;
    }
    if k < b.len() {
        Order::Less
    } else if k < a.len() {
        Order::Greater
    } else {
        Order::Equal
    }
}

/// Compares the rows at `a` and `b` within one column: integers
/// numerically, strings bytewise, a null after every value. Rows of a float
/// or boolean column never differ.
pub fn compare_cells(column: &Packers, a: usize, b: usize) -> (order: Order)
    requires
        a < column@.len(),
        b < column@.len(),
    ensures
        order == cell_order(column@[a as int], column@[b as int]),
{
    match column {
        Packers::String(p) => match (p.get(a), p.get(b)) {
            (None, None) => Order::Equal,
            (None, Some(_)) => Order::Greater,
            (Some(_), None) => Order::Less,
            (Some(x), Some(y)) => compare_bytes(x.as_slice(), y.as_slice()),
        },
        Packers::Integer(p) => match (p.get(a), p.get(b)) {
            (None, None) => Order::Equal,
            (None, Some(_)) => Order::Greater,
            (Some(_), None) => Order::Less,
            (Some(x), Some(y)) => if *x < *y {
                Order::Less
            } else if *x > *y {
                Order::Greater
            } else {
                Order::Equal
            },
        },
        _ => Order::Equal,
    }
}

/// Compares the rows at `a` and `b` by the key columns `sort_by`, most
/// significant first: the first of them in which the rows differ decides.
/// Key columns of floats and of booleans are passed over.
pub fn compare(packers: &[Packers], a: usize, b: usize, sort_by: &[usize]) -> (order: Order)
    requires
        aligned(packers@),
        keys_in_bounds(sort_by@, packers@.len()),
        a < num_rows(packers@),
        b < num_rows(packers@),
    ensures
        order == row_order(row(packers@, a as int), row(packers@, b as int), sort_by@),
{
    let ghost left = row(packers@, a as int);
    let ghost right = row(packers@, b as int);
    let mut k: usize = 0;
    assert(sort_by@.skip(0) == sort_by@);
    while k < sort_by.len()
        invariant
            k <= sort_by.len(),
            aligned(packers@),
            keys_in_bounds(sort_by@, packers@.len()),
            a < num_rows(packers@),
            b < num_rows(packers@),
            left == row(packers@, a as int),
            right == row(packers@, b as int),
            row_order(left, right, sort_by@) == row_order(left, right, sort_by@.skip(k as int)),
        decreases sort_by.len() - k,
    {
        let order = compare_cells(&packers[sort_by[k]], a, b);
        proof {
            assert(sort_by@.skip(k as int).drop_first() == sort_by@.skip(k + 1));
        }
        if order != Order::Equal {
            return order;
        }
        k += 1;
    }
    Order::Equal
}

/// Exchanges the rows at `a` and `b` in every column.
pub fn swap(packers: &mut [Packers], a: usize, b: usize)
    requires
        aligned(old(packers)@),
        a < num_rows(old(packers)@),
        b < num_rows(old(packers)@),
    ensures
        final(packers)@.len() == old(packers)@.len(),
        num_rows(final(packers)@) == num_rows(old(packers)@),
        aligned(final(packers)@),
        kinds(final(packers)@) == kinds(old(packers)@),
        rows(final(packers)@) == exchange(rows(old(packers)@), a as int, b as int),
{
    let mut c: usize = 0;
    while c < packers.len()
        invariant
            c <= packers@.len(),
            packers@.len() == old(packers)@.len(),
            a < num_rows(old(packers)@),
            b < num_rows(old(packers)@),
            aligned(old(packers)@),
            forall|d: int|
                0 <= d < c ==> (#[trigger] packers@[d]).kind() == old(packers)@[d].kind()
                    && packers@[d]@ == exchange(old(packers)@[d]@, a as int, b as int),
            forall|d: int| c <= d < packers@.len() ==> #[trigger] packers@[d] == old(packers)@[d],
        decreases packers.len() - c,
    {
        packers[c].swap(a, b);
        c += 1;
    }
    proof {
        let before = rows(old(packers)@);
        assert forall|i: int| 0 <= i < before.len() implies rows(packers@)[i] == exchange(
            before,
            a as int,
            b as int,
        )[i] by {
            let source = if i == a {
                b as int
            } else if i == b {
                a as int
            } else {
                i
            };
            assert(row(packers@, i) =~= row(old(packers)@, source));
        }
    }
}

/// One partition step on the rows `range.start..=range.end`, around the row
/// that stands at the midpoint of the range. Returns the boundary between
/// the two sides, the last row of the lower one: no row up to the boundary
/// is left sorting after a row beyond it.
///
/// Two cursors scan inwards from the ends of the range, the lower one past
/// the rows that sort before the pivot row, the upper one past those that
/// sort after it; the rows they stop at are exchanged, until the cursors
/// meet. The pivot row is not copied: its position is kept, and follows the
/// row when an exchange moves it.
pub fn partition(packers: &mut [Packers], range: &Range<usize>, sort_by: &[usize]) -> (boundary:
    usize)
    requires
        aligned(old(packers)@),
        keys_in_bounds(sort_by@, old(packers)@.len()),
        range.start <= range.end < num_rows(old(packers)@),
    ensures
        final(packers)@.len() == old(packers)@.len(),
        num_rows(final(packers)@) == num_rows(old(packers)@),
        aligned(final(packers)@),
        kinds(final(packers)@) == kinds(old(packers)@),
        range.start <= boundary <= range.end,
        range.start < range.end ==> boundary < range.end,
        separated(
            rows(final(packers)@),
            range.start as int,
            boundary as int,
            range.end as int,
            sort_by@,
        ),
        rows(final(packers)@).to_multiset() == rows(old(packers)@).to_multiset(),
        (rows(final(packers)@), boundary as int) == partitioned(
            rows(old(packers)@),
            range.start as int,
            range.end as int,
            sort_by@,
        ),
{
    let mut pivot = range.start + (range.end - range.start) / 2;
    let mut i = range.start;
    let mut j = range.end;
    let ghost before = rows(packers@);
    let ghost mut up_stop = pivot as int;
    let ghost mut down_stop = pivot as int;
    proof {
        lemma_row_order_reflexive(before[pivot as int], sort_by@);
        lemma_partitioned(before, range.start as int, range.end as int, sort_by@);
        lemma_rows_typed(packers@);
        lemma_partitioned_separated(
            before,
            range.start as int,
            range.end as int,
            sort_by@,
            kinds(packers@),
        );
        lemma_rearranged_multiset(
            before,
            partitioned(before, range.start as int, range.end as int, sort_by@).0,
            range.start as int,
            range.end as int,
        );
    }
    loop
        invariant
            packers@.len() == old(packers)@.len(),
            aligned(packers@),
            kinds(packers@) == kinds(old(packers)@),
            keys_in_bounds(sort_by@, packers@.len()),
            before == rows(old(packers)@),
            rows(packers@).len() == before.len(),
            range.start <= pivot <= range.end < before.len(),
            range.start <= i <= up_stop <= range.end,
            range.start <= down_stop <= j <= range.end,
            row_order(rows(packers@)[up_stop], rows(packers@)[pivot as int], sort_by@)
                != Order::Less,
            row_order(rows(packers@)[down_stop], rows(packers@)[pivot as int], sort_by@)
                != Order::Greater,
            exchange_from(rows(packers@), i as int, j as int, pivot as int, sort_by@)
                == partitioned(before, range.start as int, range.end as int, sort_by@),
            range.start <= partitioned(before, range.start as int, range.end as int, sort_by@).1
                <= range.end,
            range.start < range.end ==> partitioned(
                before,
                range.start as int,
                range.end as int,
                sort_by@,
            ).1 < range.end,
            separated(
                partitioned(before, range.start as int, range.end as int, sort_by@).0,
                range.start as int,
                partitioned(before, range.start as int, range.end as int, sort_by@).1,
                range.end as int,
                sort_by@,
            ),
            partitioned(before, range.start as int, range.end as int, sort_by@).0.to_multiset()
                == before.to_multiset(),
        decreases j - i + 2,
    {
        let ghost from_up = i as int;
        while compare(packers, i, pivot, sort_by) == Order::Less
            invariant
                aligned(packers@),
                keys_in_bounds(sort_by@, packers@.len()),
                pivot < num_rows(packers@),
                from_up <= i <= up_stop <= range.end < num_rows(packers@),
                row_order(rows(packers@)[up_stop], rows(packers@)[pivot as int], sort_by@)
                    != Order::Less,
                scan_up(rows(packers@), i as int, pivot as int, sort_by@) == scan_up(
                    rows(packers@),
                    from_up,
                    pivot as int,
                    sort_by@,
                ),
            decreases up_stop - i,
        {
            proof {
                lemma_rows_index(packers@, i as int);
                lemma_rows_index(packers@, pivot as int);
            }
            i += 1;
        }
        proof {
            lemma_rows_index(packers@, i as int);
            lemma_rows_index(packers@, pivot as int);
        }
        let ghost from_down = j as int;
        while compare(packers, j, pivot, sort_by) == Order::Greater
            invariant
                aligned(packers@),
                keys_in_bounds(sort_by@, packers@.len()),
                pivot < num_rows(packers@),
                0 <= down_stop <= j <= from_down < num_rows(packers@),
                row_order(rows(packers@)[down_stop], rows(packers@)[pivot as int], sort_by@)
                    != Order::Greater,
                scan_down(rows(packers@), j as int, pivot as int, sort_by@) == scan_down(
                    rows(packers@),
                    from_down,
                    pivot as int,
                    sort_by@,
                ),
            decreases j - down_stop,
        {
            proof {
                lemma_rows_index(packers@, j as int);
                lemma_rows_index(packers@, pivot as int);
            }
            j -= 1;
        }
        proof {
            lemma_rows_index(packers@, j as int);
            lemma_rows_index(packers@, pivot as int);
        }
        if i >= j {
            return j;
        }
        proof {
            lemma_exchange_keeps_stops(rows(packers@), i as int, j as int, pivot as int, sort_by@);
            assert(follow(pivot as int, i as int, j as int) == (if pivot == i {
                j
            } else if pivot == j {
                i
            } else {
                pivot
            }));
            up_stop = j as int;
            down_stop = i as int;
        }
        swap(packers, i, j);
        if pivot == i {
            pivot = j;
        } else if pivot == j {
            pivot = i;
        }
        i += 1;
        j -= 1;
    }
}

/// Sorts the rows `range.start..=range.end`, `range.end` included, and
/// leaves them in order; a range without a second row is left as it is,
/// whatever the columns and the keys.
///
/// The two sides of a partitioned range wait on a work list until their turn
/// comes, the lower side first, so that the depth of the call stack does not
/// grow with the table.
pub fn quicksort_by(packers: &mut [Packers], range: Range<usize>, sort_by: &[usize])
    requires
        range.start < range.end ==> {
            &&& aligned(old(packers)@)
            &&& keys_in_bounds(sort_by@, old(packers)@.len())
            &&& range.end < num_rows(old(packers)@)
        },
    ensures
        final(packers)@.len() == old(packers)@.len(),
        num_rows(final(packers)@) == num_rows(old(packers)@),
        kinds(final(packers)@) == kinds(old(packers)@),
        aligned(old(packers)@) ==> aligned(final(packers)@),
        range.start >= range.end ==> final(packers)@ == old(packers)@,
        ordered_within(rows(final(packers)@), range.start as int, range.end as int, sort_by@),
        rows(final(packers)@).to_multiset() == rows(old(packers)@).to_multiset(),
        rows(final(packers)@) == quicksorted(
            rows(old(packers)@),
            range.start as int,
            range.end as int,
            sort_by@,
        ),
{
    if range.start >= range.end {
        return ;
    }
    let mut pending: Vec<Range<usize>> = Vec::new();
    proof {
        let table = rows(packers@);
        lemma_quicksorted_all_push(table, pending@, range, sort_by@);
        lemma_rows_typed(packers@);
        lemma_quicksorted_ordered(
            table,
            range.start as int,
            range.end as int,
            sort_by@,
            kinds(packers@),
        );
        lemma_quicksorted_rearranged(table, range.start as int, range.end as int, sort_by@);
        lemma_rearranged_multiset(
            table,
            quicksorted(table, range.start as int, range.end as int, sort_by@),
            range.start as int,
            range.end as int,
        );
    }
    pending.push(range);
    loop
        invariant
            range.start < range.end,
            packers@.len() == old(packers)@.len(),
            num_rows(packers@) == num_rows(old(packers)@),
            aligned(packers@),
            kinds(packers@) == kinds(old(packers)@),
            keys_in_bounds(sort_by@, packers@.len()),
            forall|k: int|
                0 <= k < pending@.len() && (#[trigger] pending@[k]).start < pending@[k].end
                    ==> pending@[k].end < num_rows(packers@),
            quicksorted_all(rows(packers@), pending@, sort_by@) == quicksorted(
                rows(old(packers)@),
                range.start as int,
                range.end as int,
                sort_by@,
            ),
            ordered_within(
                quicksorted(rows(old(packers)@), range.start as int, range.end as int, sort_by@),
                range.start as int,
                range.end as int,
                sort_by@,
            ),
            quicksorted(
                rows(old(packers)@),
                range.start as int,
                range.end as int,
                sort_by@,
            ).to_multiset() == rows(old(packers)@).to_multiset(),
        decreases work_left(pending@),
    {
        let ghost table = rows(packers@);
        let ghost waiting = pending@;
        match pending.pop() {
            None => {
                return ;
            },
            Some(next) => {
                proof {
                    assert(waiting == pending@.push(next));
                    lemma_quicksorted_all_push(table, pending@, next, sort_by@);
                }
                if next.start < next.end {
                    let pivot = partition(packers, &next, sort_by);
                    let upper = pivot + 1..next.end;
                    let lower = next.start..pivot;
                    proof {
                        lemma_quicksorted_all_push(rows(packers@), pending@, upper, sort_by@);
                        lemma_quicksorted_all_push(
                            rows(packers@),
                            pending@.push(upper),
                            lower,
                            sort_by@,
                        );
                        lemma_quicksorted_all_push(
                            quicksorted(
                                rows(packers@),
                                lower.start as int,
                                lower.end as int,
                                sort_by@,
                            ),
                            pending@,
                            upper,
                            sort_by@,
                        );
                    }
                    pending.push(upper);
                    pending.push(lower);
                }
            },
        }
    }
}

} // verus!
