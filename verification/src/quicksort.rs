//! The partition-exchange sort on a table of rows, as a function from the
//! table to the table it leaves.
//!
//! The pivot of a range is the row that stands at the range's midpoint when
//! the partition step begins. It is never copied: the step keeps its
//! position, which follows the row when an exchange moves it.

use std::ops::Range;
use vstd::prelude::*;
use crate::order::{lemma_row_order_reflexive, row_order, Order};
use crate::rearrange::{
    exchange, lemma_exchange_rearranged, lemma_rearranged_multiset, lemma_rearranged_widen,
    rearranged,
};
use crate::table::Row;

verus! {

/// The first position at or after `i` whose row does not sort before the
/// row at `pivot`.
pub open spec fn scan_up(table: Seq<Row>, i: int, pivot: int, keys: Seq<usize>) -> int
    decreases table.len() - i,
{
    if 0 <= i < table.len() && row_order(table[i], table[pivot], keys) == Order::Less {
        scan_up(table, i + 1, pivot, keys)
    } else {
        i
    }
}

/// The last position at or before `j` whose row does not sort after the row
/// at `pivot`.
pub open spec fn scan_down(table: Seq<Row>, j: int, pivot: int, keys: Seq<usize>) -> int
    decreases j + 1,
{
    if 0 <= j < table.len() && row_order(table[j], table[pivot], keys) == Order::Greater {
        scan_down(table, j - 1, pivot, keys)
    } else {
        j
    }
}

/// Where the row at `pivot` stands once the rows at `up` and `down` have
/// been exchanged.
pub open spec fn follow(pivot: int, up: int, down: int) -> int {
    if pivot == up {
        down
    } else if pivot == down {
        up
    } else {
        pivot
    }
}

/// The exchange loop of one partition step, entered with the cursors at `i`
/// and `j` and the pivot row at `pivot`: both cursors scan inwards, and
/// while they have not met the rows they stop at are exchanged and both step
/// on. Gives the table that the loop leaves and the boundary, which is where
/// the down cursor stopped last.
pub open spec fn exchange_from(
    table: Seq<Row>,
    i: int,
    j: int,
    pivot: int,
    keys: Seq<usize>,
) -> (Seq<Row>, int)
    decreases j - i + 2,
    via exchange_from_decreases
{
    let up = scan_up(table, i, pivot, keys);
    let down = scan_down(table, j, pivot, keys);
    if up >= down {
        (table, down)
    } else {
        exchange_from(
            exchange(table, up, down),
            up + 1,
            down - 1,
            follow(pivot, up, down),
            keys,
        )
    }
}

#[via_fn]
proof fn exchange_from_decreases(table: Seq<Row>, i: int, j: int, pivot: int, keys: Seq<usize>) {
    lemma_scan_up_from(table, i, pivot, keys);
    lemma_scan_down_from(table, j, pivot, keys);
}

/// The up scan does not go back.
proof fn lemma_scan_up_from(table: Seq<Row>, i: int, pivot: int, keys: Seq<usize>)
    ensures
        scan_up(table, i, pivot, keys) >= i,
    decreases table.len() - i,
{
    if 0 <= i < table.len() && row_order(table[i], table[pivot], keys) == Order::Less {
        lemma_scan_up_from(table, i + 1, pivot, keys);
    }
}

/// The down scan does not go forward.
proof fn lemma_scan_down_from(table: Seq<Row>, j: int, pivot: int, keys: Seq<usize>)
    ensures
        scan_down(table, j, pivot, keys) <= j,
    decreases j + 1,
{
    if 0 <= j < table.len() && row_order(table[j], table[pivot], keys) == Order::Greater {
        lemma_scan_down_from(table, j - 1, pivot, keys);
    }
}

/// The up scan stops at or before any row that does not sort before the
/// pivot row, having passed only rows that do.
pub proof fn lemma_scan_up(table: Seq<Row>, i: int, pivot: int, keys: Seq<usize>, stop: int)
    requires
        0 <= i <= stop < table.len(),
        row_order(table[stop], table[pivot], keys) != Order::Less,
    ensures
        i <= scan_up(table, i, pivot, keys) <= stop,
        row_order(table[scan_up(table, i, pivot, keys)], table[pivot], keys) != Order::Less,
        forall|k: int|
            i <= k < scan_up(table, i, pivot, keys) ==> row_order(
                #[trigger] table[k],
                table[pivot],
                keys,
            ) == Order::Less,
    decreases stop - i,
{
    if row_order(table[i], table[pivot], keys) == Order::Less {
        lemma_scan_up(table, i + 1, pivot, keys, stop);
    }
}

/// The down scan stops at or after any row that does not sort after the
/// pivot row, having passed only rows that do.
pub proof fn lemma_scan_down(table: Seq<Row>, j: int, pivot: int, keys: Seq<usize>, stop: int)
    requires
        0 <= stop <= j < table.len(),
        row_order(table[stop], table[pivot], keys) != Order::Greater,
    ensures
        stop <= scan_down(table, j, pivot, keys) <= j,
        row_order(table[scan_down(table, j, pivot, keys)], table[pivot], keys) != Order::Greater,
        forall|k: int|
            scan_down(table, j, pivot, keys) < k <= j ==> row_order(
                #[trigger] table[k],
                table[pivot],
                keys,
            ) == Order::Greater,
    decreases j - stop,
{
    if row_order(table[j], table[pivot], keys) == Order::Greater {
        lemma_scan_down(table, j - 1, pivot, keys, stop);
    }
}

/// After the rows at which the two scans stopped are exchanged, the pivot
/// row is found where `follow` says, and each of the two positions stops the
/// scan that comes to it next.
pub proof fn lemma_exchange_keeps_stops(
    table: Seq<Row>,
    up: int,
    down: int,
    pivot: int,
    keys: Seq<usize>,
)
    requires
        0 <= up < table.len(),
        0 <= down < table.len(),
        0 <= pivot < table.len(),
        row_order(table[up], table[pivot], keys) != Order::Less,
        row_order(table[down], table[pivot], keys) != Order::Greater,
    ensures
        exchange(table, up, down)[follow(pivot, up, down)] == table[pivot],
        exchange(table, up, down)[down] == table[up],
        exchange(table, up, down)[up] == table[down],
        row_order(
            exchange(table, up, down)[down],
            exchange(table, up, down)[follow(pivot, up, down)],
            keys,
        ) != Order::Less,
        row_order(
            exchange(table, up, down)[up],
            exchange(table, up, down)[follow(pivot, up, down)],
            keys,
        ) != Order::Greater,
{
}

/// The exchange loop rearranges the rows of `lo..=hi` and ends on a boundary
/// in that range, as long as each cursor has a row ahead of it that stops
/// it: `up_stop` for the up cursor and `down_stop` for the down cursor.
pub proof fn lemma_exchange_from(
    table: Seq<Row>,
    i: int,
    j: int,
    pivot: int,
    keys: Seq<usize>,
    lo: int,
    hi: int,
    up_stop: int,
    down_stop: int,
)
    requires
        0 <= lo <= i <= up_stop <= hi < table.len(),
        lo <= down_stop <= j <= hi,
        lo <= pivot <= hi,
        row_order(table[up_stop], table[pivot], keys) != Order::Less,
        row_order(table[down_stop], table[pivot], keys) != Order::Greater,
    ensures
        rearranged(table, exchange_from(table, i, j, pivot, keys).0, lo, hi),
        lo <= exchange_from(table, i, j, pivot, keys).1 <= j,
        exchange_from(table, i, j, pivot, keys).1 <= up_stop || exchange_from(
            table,
            i,
            j,
            pivot,
            keys,
        ).1 < j,
    decreases j - i + 2,
{
    let up = scan_up(table, i, pivot, keys);
    let down = scan_down(table, j, pivot, keys);
    lemma_scan_up(table, i, pivot, keys, up_stop);
    lemma_scan_down(table, j, pivot, keys, down_stop);
    if up >= down {
        assert(table.subrange(lo, hi + 1) =~= table.subrange(lo, hi + 1));
    } else {
        let next = exchange(table, up, down);
        lemma_exchange_keeps_stops(table, up, down, pivot, keys);
        lemma_exchange_rearranged(table, up, down, lo, hi);
        lemma_exchange_from(
            next,
            up + 1,
            down - 1,
            follow(pivot, up, down),
            keys,
            lo,
            hi,
            down,
            up,
        );
    }
}

/// One partition step on the rows `start..=end`: the exchange loop around
/// the row at the midpoint. Gives the table it leaves and the boundary: no
/// row of `start..=boundary` is left sorting after a row of
/// `boundary + 1..=end`.
pub open spec fn partitioned(table: Seq<Row>, start: int, end: int, keys: Seq<usize>) -> (
    Seq<Row>,
    int,
) {
    exchange_from(table, start, end, (start + end) / 2, keys)
}

/// A partition step rearranges its range and ends on a boundary within it,
/// which leaves rows on both sides where the range has more than one row.
pub proof fn lemma_partitioned(table: Seq<Row>, start: int, end: int, keys: Seq<usize>)
    requires
        0 <= start <= end < table.len(),
    ensures
        rearranged(table, partitioned(table, start, end, keys).0, start, end),
        start <= partitioned(table, start, end, keys).1 <= end,
        start < end ==> partitioned(table, start, end, keys).1 < end,
{
    let pivot = (start + end) / 2;
    lemma_row_order_reflexive(table[pivot], keys);
    lemma_exchange_from(table, start, end, pivot, keys, start, end, pivot, pivot);
}

/// The table that the sort leaves of the rows `start..=end`: a range of
/// more than one row is partitioned, then its two sides are sorted, the
/// lower one first. Any other range is left as it is.
pub open spec fn quicksorted(table: Seq<Row>, start: int, end: int, keys: Seq<usize>) -> Seq<Row>
    decreases end - start,
    via quicksorted_decreases
{
    if 0 <= start < end < table.len() {
        let (split, boundary) = partitioned(table, start, end, keys);
        quicksorted(quicksorted(split, start, boundary, keys), boundary + 1, end, keys)
    } else {
        table
    }
}

#[via_fn]
proof fn quicksorted_decreases(table: Seq<Row>, start: int, end: int, keys: Seq<usize>) {
    if 0 <= start < end < table.len() {
        lemma_partitioned(table, start, end, keys);
    }
}

/// Sorting a range rearranges it.
pub proof fn lemma_quicksorted_rearranged(table: Seq<Row>, start: int, end: int, keys: Seq<usize>)
    requires
        0 <= start <= end < table.len(),
    ensures
        rearranged(table, quicksorted(table, start, end, keys), start, end),
    decreases end - start,
{
    if start >= end {
        assert(table.subrange(start, end + 1) =~= table.subrange(start, end + 1));
    } else {
        let (split, boundary) = partitioned(table, start, end, keys);
        lemma_partitioned(table, start, end, keys);
        let lower = quicksorted(split, start, boundary, keys);
        lemma_quicksorted_rearranged(split, start, boundary, keys);
        lemma_rearranged_widen(split, lower, start, boundary, start, end);
        let both = quicksorted(lower, boundary + 1, end, keys);
        lemma_quicksorted_rearranged(lower, boundary + 1, end, keys);
        lemma_rearranged_widen(lower, both, boundary + 1, end, start, end);
    }
}

/// The table that is left once every range of `pending` has been sorted,
/// the last of them first. The ends of a range are its first and its last
/// row.
pub open spec fn quicksorted_all(
    table: Seq<Row>,
    pending: Seq<Range<usize>>,
    keys: Seq<usize>,
) -> Seq<Row>
    decreases pending.len(),
{
    if pending.len() == 0 {
        table
    } else {
        let range = pending.last();
        quicksorted_all(
            quicksorted(table, range.start as int, range.end as int, keys),
            pending.drop_last(),
            keys,
        )
    }
}

/// A bound on the partition steps and the visits that sorting the range
/// takes.
pub open spec fn work_in(range: Range<usize>) -> nat {
    if range.start < range.end {
        (2 * (range.end - range.start) + 1) as nat
    } else {
        1
    }
}

/// A bound on the partition steps and the visits that sorting all ranges of
/// `pending` takes.
pub open spec fn work_left(pending: Seq<Range<usize>>) -> nat
    decreases pending.len(),
{
    if pending.len() == 0 {
        0
    } else {
        work_left(pending.drop_last()) + work_in(pending.last())
    }
}

/// Sorting the ranges of a work list starts with the range that was added
/// last.
pub proof fn lemma_quicksorted_all_push(
    table: Seq<Row>,
    pending: Seq<Range<usize>>,
    range: Range<usize>,
    keys: Seq<usize>,
)
    ensures
        quicksorted_all(table, pending.push(range), keys) == quicksorted_all(
            quicksorted(table, range.start as int, range.end as int, keys),
            pending,
            keys,
        ),
        work_left(pending.push(range)) == work_left(pending) + work_in(range),
{
    assert(pending.push(range).drop_last() == pending);
}

/// A table of more rows than this is scanned before it is sorted, and left
/// as it is if no row differs in order from the first.
pub const SORTED_CHECK_SIZE: usize = 1000;

/// No row of the table differs in order from the first row.
pub open spec fn ties_throughout(table: Seq<Row>, keys: Seq<usize>) -> bool {
    forall|i: int| 0 < i < table.len() ==> row_order(table[0], #[trigger] table[i], keys) == Order::Equal
}

/// Whether sorting by `keys` leaves the table untouched: there is no key,
/// or the table is a large one in which no row differs in order from the
/// first.
pub open spec fn left_alone(table: Seq<Row>, keys: Seq<usize>) -> bool {
    keys.len() == 0 || (table.len() > SORTED_CHECK_SIZE && ties_throughout(table, keys))
}

/// The table that sorting by `keys` leaves.
pub open spec fn sorted(table: Seq<Row>, keys: Seq<usize>) -> Seq<Row> {
    if left_alone(table, keys) {
        table
    } else {
        quicksorted(table, 0, table.len() - 1, keys)
    }
}

/// Sorting keeps every row, each as often as it occurred.
pub proof fn lemma_sorted_multiset(table: Seq<Row>, keys: Seq<usize>)
    ensures
        sorted(table, keys).len() == table.len(),
        sorted(table, keys).to_multiset() == table.to_multiset(),
{
    if !left_alone(table, keys) && table.len() > 0 {
        lemma_quicksorted_rearranged(table, 0, table.len() - 1, keys);
        lemma_rearranged_multiset(table, sorted(table, keys), 0, table.len() - 1);
    }
}

} // verus!
