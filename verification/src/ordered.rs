//! Tables in order, tables that differ by ties only, and what the steps of
//! the sort do to them.

use vstd::prelude::*;
use crate::order::{
    cell_order, keys_in_bounds, lemma_row_order_reflexive, lemma_row_order_reverse,
    lemma_row_order_split, lemma_row_order_transitive, row_order, Order,
};
use crate::packers::Kind;
use crate::quicksort::{
    exchange_from, follow, lemma_exchange_from, lemma_exchange_keeps_stops, lemma_partitioned,
    lemma_quicksorted_rearranged, lemma_scan_down, lemma_scan_up, partitioned, quicksorted,
    scan_down, scan_up,
};
use crate::rearrange::{exchange, lemma_exchange_rearranged, lemma_rearranged_source, rearranged};
use crate::table::{conforms, typed, Row};

verus! {


/// Row `i` does not sort after the row that follows it.
pub open spec fn in_order_at(table: Seq<Row>, i: int, keys: Seq<usize>) -> bool {
    row_order(table[i], table[i + 1], keys) != Order::Greater
}

/// No row of `lo..=hi` sorts after the row that follows it there.
pub open spec fn ordered_within(table: Seq<Row>, lo: int, hi: int, keys: Seq<usize>) -> bool {
    forall|i: int| lo <= i < hi ==> #[trigger] in_order_at(table, i, keys)
}

/// No row sorts after the row that follows it.
pub open spec fn ordered(table: Seq<Row>, keys: Seq<usize>) -> bool {
    ordered_within(table, 0, table.len() - 1, keys)
}

/// The tables have as many rows, and no row differs in order from the row
/// at its position in the other table.
pub open spec fn tied(a: Seq<Row>, b: Seq<Row>, keys: Seq<usize>) -> bool {
    &&& a.len() == b.len()
    &&& forall|i: int| 0 <= i < a.len() ==> row_order(#[trigger] a[i], b[i], keys) == Order::Equal
}

/// No row of `lo..=boundary` sorts after a row of `boundary + 1..=hi`.
pub open spec fn separated(
    table: Seq<Row>,
    lo: int,
    boundary: int,
    hi: int,
    keys: Seq<usize>,
) -> bool {
    forall|a: int, b: int|
        lo <= a <= boundary && boundary < b <= hi ==> row_order(
            #[trigger] table[a],
            #[trigger] table[b],
            keys,
        ) != Order::Greater
}

/// A rearranged table conforms to the kinds that the table before conformed
/// to.
pub proof fn lemma_rearranged_typed(
    before: Seq<Row>,
    after: Seq<Row>,
    lo: int,
    hi: int,
    kinds: Seq<Kind>,
)
    requires
        rearranged(before, after, lo, hi),
        0 <= lo,
        hi < before.len(),
        typed(before, kinds),
    ensures
        typed(after, kinds),
{
    assert forall|i: int| 0 <= i < after.len() implies conforms(#[trigger] after[i], kinds) by {
        let source = lemma_rearranged_source(before, after, lo, hi, i);
        assert(conforms(before[source], kinds));
    }
}

/// In a range that is in order, no row sorts after a later one.
pub proof fn lemma_ordered_pair(
    table: Seq<Row>,
    lo: int,
    hi: int,
    keys: Seq<usize>,
    kinds: Seq<Kind>,
    a: int,
    b: int,
)
    requires
        typed(table, kinds),
        keys_in_bounds(keys, kinds.len()),
        ordered_within(table, lo, hi, keys),
        0 <= lo <= a <= b <= hi < table.len(),
    ensures
        row_order(table[a], table[b], keys) != Order::Greater,
    decreases b - a,
{
    if a == b {
        lemma_row_order_reflexive(table[a], keys);
    } else {
        lemma_ordered_pair(table, lo, hi, keys, kinds, a, b - 1);
        assert(in_order_at(table, b - 1, keys));
        lemma_row_order_transitive(table[a], table[b - 1], table[b], keys, kinds);
    }
}

/// Every table is tied with itself.
pub proof fn lemma_tied_reflexive(table: Seq<Row>, keys: Seq<usize>)
    ensures
        tied(table, table, keys),
{
    assert forall|i: int| 0 <= i < table.len() implies row_order(
        #[trigger] table[i],
        table[i],
        keys,
    ) == Order::Equal by {
        lemma_row_order_reflexive(table[i], keys);
    }
}

/// Being tied is transitive.
pub proof fn lemma_tied_transitive(
    a: Seq<Row>,
    b: Seq<Row>,
    c: Seq<Row>,
    keys: Seq<usize>,
    kinds: Seq<Kind>,
)
    requires
        typed(a, kinds),
        typed(b, kinds),
        typed(c, kinds),
        keys_in_bounds(keys, kinds.len()),
        tied(a, b, keys),
        tied(b, c, keys),
    ensures
        tied(a, c, keys),
{
    assert forall|i: int| 0 <= i < a.len() implies row_order(#[trigger] a[i], c[i], keys)
        == Order::Equal by {
        assert(row_order(b[i], c[i], keys) == Order::Equal);
        lemma_row_order_transitive(a[i], b[i], c[i], keys, kinds);
    }
}

/// A table that is tied with one in order is in order.
pub proof fn lemma_tied_ordered(
    a: Seq<Row>,
    b: Seq<Row>,
    lo: int,
    hi: int,
    keys: Seq<usize>,
    kinds: Seq<Kind>,
)
    requires
        typed(a, kinds),
        typed(b, kinds),
        keys_in_bounds(keys, kinds.len()),
        tied(a, b, keys),
        ordered_within(b, lo, hi, keys),
        0 <= lo,
        hi < a.len(),
    ensures
        ordered_within(a, lo, hi, keys),
{
    assert forall|i: int| lo <= i < hi implies #[trigger] in_order_at(a, i, keys) by {
        assert(in_order_at(b, i, keys));
        assert(row_order(a[i], b[i], keys) == Order::Equal);
        lemma_row_order_transitive(a[i], b[i], b[i + 1], keys, kinds);
        assert(row_order(a[i + 1], b[i + 1], keys) == Order::Equal);
        lemma_row_order_reverse(a[i + 1], b[i + 1], keys);
        lemma_row_order_transitive(a[i], b[i + 1], a[i + 1], keys, kinds);
    }
}

/// Exchanging two rows that do not differ in order leaves a table tied with
/// the one before.
pub proof fn lemma_exchange_tied(table: Seq<Row>, up: int, down: int, keys: Seq<usize>)
    requires
        0 <= up < table.len(),
        0 <= down < table.len(),
        row_order(table[up], table[down], keys) == Order::Equal,
    ensures
        tied(exchange(table, up, down), table, keys),
{
    let next = exchange(table, up, down);
    assert forall|i: int| 0 <= i < next.len() implies row_order(#[trigger] next[i], table[i], keys)
        == Order::Equal by {
        lemma_row_order_reflexive(table[i], keys);
        lemma_row_order_reverse(table[up], table[down], keys);
    }
}

/// On a range that is in order, the exchange loop only exchanges rows that
/// do not differ in order.
pub proof fn lemma_exchange_from_in_order(
    table: Seq<Row>,
    i: int,
    j: int,
    pivot: int,
    keys: Seq<usize>,
    kinds: Seq<Kind>,
    lo: int,
    hi: int,
    up_stop: int,
    down_stop: int,
)
    requires
        0 <= lo <= i <= up_stop <= hi < table.len(),
        lo <= down_stop <= j <= hi,
        lo <= pivot <= hi,
        row_order(table[up_stop], table[pivot], keys) != Order::Less,
        row_order(table[down_stop], table[pivot], keys) != Order::Greater,
        typed(table, kinds),
        keys_in_bounds(keys, kinds.len()),
        ordered_within(table, lo, hi, keys),
    ensures
        tied(exchange_from(table, i, j, pivot, keys).0, table, keys),
    decreases j - i + 2,
{
    let up = scan_up(table, i, pivot, keys);
    let down = scan_down(table, j, pivot, keys);
    lemma_scan_up(table, i, pivot, keys, up_stop);
    lemma_scan_down(table, j, pivot, keys, down_stop);
    if up >= down {
        lemma_tied_reflexive(table, keys);
    } else {
        let next = exchange(table, up, down);
        lemma_ordered_pair(table, lo, hi, keys, kinds, up, down);
        lemma_row_order_reverse(table[up], table[pivot], keys);
        lemma_row_order_transitive(table[down], table[pivot], table[up], keys, kinds);
        lemma_row_order_reverse(table[up], table[down], keys);
        lemma_exchange_tied(table, up, down, keys);
        lemma_exchange_rearranged(table, up, down, lo, hi);
        lemma_rearranged_typed(table, next, lo, hi, kinds);
        lemma_tied_ordered(next, table, lo, hi, keys, kinds);
        lemma_exchange_keeps_stops(table, up, down, pivot, keys);
        let moved = follow(pivot, up, down);
        lemma_exchange_from_in_order(next, up + 1, down - 1, moved, keys, kinds, lo, hi, down, up);
        let last = exchange_from(next, up + 1, down - 1, moved, keys).0;
        lemma_exchange_from(next, up + 1, down - 1, moved, keys, lo, hi, down, up);
        lemma_rearranged_typed(next, last, lo, hi, kinds);
        lemma_tied_transitive(last, next, table, keys, kinds);
    }
}

/// Sorting a range that is in order leaves a table tied with the one
/// before.
pub proof fn lemma_quicksorted_in_order(
    table: Seq<Row>,
    start: int,
    end: int,
    keys: Seq<usize>,
    kinds: Seq<Kind>,
)
    requires
        0 <= start <= end < table.len(),
        typed(table, kinds),
        keys_in_bounds(keys, kinds.len()),
        ordered_within(table, start, end, keys),
    ensures
        tied(quicksorted(table, start, end, keys), table, keys),
    decreases end - start,
{
    if start >= end {
        lemma_tied_reflexive(table, keys);
    } else {
        let pivot = (start + end) / 2;
        let (split, boundary) = partitioned(table, start, end, keys);
        lemma_partitioned(table, start, end, keys);
        lemma_row_order_reflexive(table[pivot], keys);
        lemma_exchange_from_in_order(table, start, end, pivot, keys, kinds, start, end, pivot, pivot);
        lemma_rearranged_typed(table, split, start, end, kinds);
        lemma_tied_ordered(split, table, start, end, keys, kinds);

        let lower = quicksorted(split, start, boundary, keys);
        lemma_quicksorted_in_order(split, start, boundary, keys, kinds);
        lemma_quicksorted_rearranged(split, start, boundary, keys);
        lemma_rearranged_typed(split, lower, start, boundary, kinds);
        lemma_tied_ordered(lower, split, start, end, keys, kinds);

        let both = quicksorted(lower, boundary + 1, end, keys);
        lemma_quicksorted_in_order(lower, boundary + 1, end, keys, kinds);
        lemma_quicksorted_rearranged(lower, boundary + 1, end, keys);
        lemma_rearranged_typed(lower, both, boundary + 1, end, kinds);

        lemma_tied_transitive(lower, split, table, keys, kinds);
        lemma_tied_transitive(both, lower, table, keys, kinds);
    }
}

/// The exchange loop separates: if no row that the up cursor has left
/// behind sorts after the pivot row, and no row that the down cursor has
/// left behind sorts before it, then no row up to the boundary is left
/// sorting after a row beyond it.
pub proof fn lemma_exchange_from_separated(
    table: Seq<Row>,
    i: int,
    j: int,
    pivot: int,
    keys: Seq<usize>,
    kinds: Seq<Kind>,
    lo: int,
    hi: int,
    up_stop: int,
    down_stop: int,
)
    requires
        0 <= lo <= i <= up_stop <= hi < table.len(),
        lo <= down_stop <= j <= hi,
        lo <= pivot <= hi,
        row_order(table[up_stop], table[pivot], keys) != Order::Less,
        row_order(table[down_stop], table[pivot], keys) != Order::Greater,
        typed(table, kinds),
        keys_in_bounds(keys, kinds.len()),
        forall|k: int|
            lo <= k < i ==> row_order(#[trigger] table[k], table[pivot], keys) != Order::Greater,
        forall|k: int|
            j < k <= hi ==> row_order(#[trigger] table[k], table[pivot], keys) != Order::Less,
    ensures
        separated(
            exchange_from(table, i, j, pivot, keys).0,
            lo,
            exchange_from(table, i, j, pivot, keys).1,
            hi,
            keys,
        ),
    decreases j - i + 2,
{
    let up = scan_up(table, i, pivot, keys);
    let down = scan_down(table, j, pivot, keys);
    lemma_scan_up(table, i, pivot, keys, up_stop);
    lemma_scan_down(table, j, pivot, keys, down_stop);
    if up >= down {
        assert forall|a: int, b: int| lo <= a <= down && down < b <= hi implies row_order(
            #[trigger] table[a],
            #[trigger] table[b],
            keys,
        ) != Order::Greater by {
            assert(row_order(table[a], table[pivot], keys) != Order::Greater);
            assert(row_order(table[b], table[pivot], keys) != Order::Less);
            lemma_row_order_reverse(table[b], table[pivot], keys);
            lemma_row_order_transitive(table[a], table[pivot], table[b], keys, kinds);
        }
    } else {
        let next = exchange(table, up, down);
        let moved = follow(pivot, up, down);
        lemma_exchange_keeps_stops(table, up, down, pivot, keys);
        lemma_exchange_rearranged(table, up, down, lo, hi);
        lemma_rearranged_typed(table, next, lo, hi, kinds);
        assert forall|k: int| lo <= k < up + 1 implies row_order(
            #[trigger] next[k],
            next[moved],
            keys,
        ) != Order::Greater by {
            if k < up {
                assert(next[k] == table[k]);
                assert(row_order(table[k], table[pivot], keys) != Order::Greater);
            }
        }
        assert forall|k: int| down - 1 < k <= hi implies row_order(
            #[trigger] next[k],
            next[moved],
            keys,
        ) != Order::Less by {
            if k > down {
                assert(next[k] == table[k]);
                assert(row_order(table[k], table[pivot], keys) != Order::Less);
            }
        }
        lemma_exchange_from_separated(next, up + 1, down - 1, moved, keys, kinds, lo, hi, down, up);
    }
}

/// A partition step separates its range at the boundary.
pub proof fn lemma_partitioned_separated(
    table: Seq<Row>,
    start: int,
    end: int,
    keys: Seq<usize>,
    kinds: Seq<Kind>,
)
    requires
        0 <= start <= end < table.len(),
        typed(table, kinds),
        keys_in_bounds(keys, kinds.len()),
    ensures
        separated(
            partitioned(table, start, end, keys).0,
            start,
            partitioned(table, start, end, keys).1,
            end,
            keys,
        ),
{
    let pivot = (start + end) / 2;
    lemma_row_order_reflexive(table[pivot], keys);
    lemma_exchange_from_separated(table, start, end, pivot, keys, kinds, start, end, pivot, pivot);
}

/// Sorting a range leaves it in order.
pub proof fn lemma_quicksorted_ordered(
    table: Seq<Row>,
    start: int,
    end: int,
    keys: Seq<usize>,
    kinds: Seq<Kind>,
)
    requires
        0 <= start <= end < table.len(),
        typed(table, kinds),
        keys_in_bounds(keys, kinds.len()),
    ensures
        ordered_within(quicksorted(table, start, end, keys), start, end, keys),
    decreases end - start,
{
    if start < end {
        let (split, boundary) = partitioned(table, start, end, keys);
        lemma_partitioned(table, start, end, keys);
        lemma_partitioned_separated(table, start, end, keys, kinds);
        lemma_rearranged_typed(table, split, start, end, kinds);
        let lower = quicksorted(split, start, boundary, keys);
        lemma_quicksorted_ordered(split, start, boundary, keys, kinds);
        lemma_quicksorted_rearranged(split, start, boundary, keys);
        lemma_rearranged_typed(split, lower, start, boundary, kinds);
        let both = quicksorted(lower, boundary + 1, end, keys);
        lemma_quicksorted_ordered(lower, boundary + 1, end, keys, kinds);
        lemma_quicksorted_rearranged(lower, boundary + 1, end, keys);

        let below = lemma_rearranged_source(split, lower, start, boundary, boundary);
        let above = lemma_rearranged_source(lower, both, boundary + 1, end, boundary + 1);
        assert(lower[above] == split[above]);
        assert(row_order(split[below], split[above], keys) != Order::Greater);
        assert forall|i: int| start <= i < end implies #[trigger] in_order_at(both, i, keys) by {
            if i < boundary {
                assert(both[i] == lower[i] && both[i + 1] == lower[i + 1]);
                assert(in_order_at(lower, i, keys));
            } else if i == boundary {
                assert(both[i] == lower[boundary]);
            } else {
                assert(in_order_at(both, i, keys));
            }
        }
    }
}

/// In a table in order, a null in a key column of integers or strings is
/// followed by nulls only, among the rows that tie with its row under the
/// keys before that column.
pub proof fn lemma_nulls_follow(
    table: Seq<Row>,
    keys: Seq<usize>,
    kinds: Seq<Kind>,
    i: int,
    j: int,
    k: int,
)
    requires
        typed(table, kinds),
        keys_in_bounds(keys, kinds.len()),
        ordered(table, keys),
        0 <= i < j < table.len(),
        0 <= k < keys.len(),
        kinds[keys[k] as int] == Kind::Integer || kinds[keys[k] as int] == Kind::String,
        row_order(table[i], table[j], keys.take(k)) == Order::Equal,
        table[i][keys[k] as int].is_null(),
    ensures
        table[j][keys[k] as int].is_null(),
{
    lemma_ordered_pair(table, 0, table.len() - 1, keys, kinds, i, j);
    lemma_row_order_split(table[i], table[j], keys, k);
    let column = keys[k] as int;
    assert(keys.skip(k)[0] == keys[k]);
    assert(table[i][column].kind() == kinds[column]);
    assert(table[j][column].kind() == kinds[column]);
    assert(cell_order(table[i][column], table[j][column]) != Order::Greater);
}

/// In every key column of integers or strings, a null is followed by nulls
/// only, among the rows that tie with its row under the keys before that
/// column.
pub open spec fn nulls_come_last(table: Seq<Row>, keys: Seq<usize>, kinds: Seq<Kind>) -> bool {
    forall|i: int, j: int, k: int|
        #![trigger row_order(table[i], table[j], keys.take(k))]
        0 <= i < j < table.len() && 0 <= k < keys.len() && (kinds[keys[k] as int] == Kind::Integer
            || kinds[keys[k] as int] == Kind::String) && row_order(
            table[i],
            table[j],
            keys.take(k),
        ) == Order::Equal && table[i][keys[k] as int].is_null()
            ==> table[j][keys[k] as int].is_null()
}

/// In a table in order, nulls come last.
pub proof fn lemma_nulls_come_last(table: Seq<Row>, keys: Seq<usize>, kinds: Seq<Kind>)
    requires
        typed(table, kinds),
        keys_in_bounds(keys, kinds.len()),
        ordered(table, keys),
    ensures
        nulls_come_last(table, keys, kinds),
{
    assert forall|i: int, j: int, k: int|
        #![trigger row_order(table[i], table[j], keys.take(k))]
        0 <= i < j < table.len() && 0 <= k < keys.len() && (kinds[keys[k] as int] == Kind::Integer
            || kinds[keys[k] as int] == Kind::String) && row_order(
            table[i],
            table[j],
            keys.take(k),
        ) == Order::Equal && table[i][keys[k] as int].is_null()
        implies table[j][keys[k] as int].is_null() by {
        lemma_nulls_follow(table, keys, kinds, i, j, k);
    }
}

} // verus!
