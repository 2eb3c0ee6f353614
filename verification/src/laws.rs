//! What holds of the sort, whatever the table.

use vstd::prelude::*;
use crate::order::{
    keys_in_bounds, lemma_row_order_reflexive, lemma_row_order_reverse,
    lemma_row_order_transitive, row_order, Order,
};
use crate::ordered::{
    in_order_at, lemma_nulls_come_last, lemma_quicksorted_in_order, lemma_quicksorted_ordered,
    lemma_rearranged_typed, lemma_tied_ordered, lemma_tied_reflexive, nulls_come_last, ordered,
    tied,
};
use crate::packers::Kind;
use crate::quicksort::{
    left_alone, lemma_quicksorted_rearranged, lemma_sorted_multiset, quicksorted, sorted,
};
use crate::table::{typed, Row};

verus! {

/// Sorting keeps every row, each as often as it occurs, and every row keeps
/// its cells in all columns.
pub proof fn law_rows_kept(table: Seq<Row>, keys: Seq<usize>, kinds: Seq<Kind>)
    requires
        typed(table, kinds),
    ensures
        sorted(table, keys).len() == table.len(),
        sorted(table, keys).to_multiset() == table.to_multiset(),
        typed(sorted(table, keys), kinds),
{
    lemma_sorted_multiset(table, keys);
    if !left_alone(table, keys) && table.len() > 0 {
        lemma_quicksorted_rearranged(table, 0, table.len() - 1, keys);
        lemma_rearranged_typed(table, sorted(table, keys), 0, table.len() - 1, kinds);
    }
}

/// After a sort no row sorts after the row that follows it.
pub proof fn law_sorted_in_order(table: Seq<Row>, keys: Seq<usize>, kinds: Seq<Kind>)
    requires
        typed(table, kinds),
        keys_in_bounds(keys, kinds.len()),
    ensures
        ordered(sorted(table, keys), keys),
{
    let last = table.len() - 1;
    lemma_sorted_multiset(table, keys);
    if left_alone(table, keys) {
        assert forall|i: int| 0 <= i < last implies #[trigger] in_order_at(table, i, keys) by {
            if keys.len() > 0 {
                lemma_row_order_reflexive(table[0], keys);
                assert(row_order(table[0], table[i], keys) == Order::Equal);
                assert(row_order(table[0], table[i + 1], keys) == Order::Equal);
                lemma_row_order_reverse(table[0], table[i], keys);
                lemma_row_order_transitive(table[i], table[0], table[i + 1], keys, kinds);
            }
        }
    } else if table.len() > 0 {
        lemma_quicksorted_ordered(table, 0, last, keys, kinds);
    }
}

/// Nulls come last: after a sort, a null in a key column of integers or
/// strings is followed by nulls only, among the rows that tie with its row
/// under the keys before that column.
pub proof fn law_nulls_last(table: Seq<Row>, keys: Seq<usize>, kinds: Seq<Kind>)
    requires
        typed(table, kinds),
        keys_in_bounds(keys, kinds.len()),
    ensures
        nulls_come_last(sorted(table, keys), keys, kinds),
{
    law_rows_kept(table, keys, kinds);
    law_sorted_in_order(table, keys, kinds);
    lemma_nulls_come_last(sorted(table, keys), keys, kinds);
}

/// Sorting a table that is in order moves rows only among rows that do not
/// differ in order from them: each position keeps a row tied with the one
/// it had, and the table stays in order.
pub proof fn law_in_order_stays(table: Seq<Row>, keys: Seq<usize>, kinds: Seq<Kind>)
    requires
        typed(table, kinds),
        keys_in_bounds(keys, kinds.len()),
        ordered(table, keys),
    ensures
        tied(sorted(table, keys), table, keys),
        ordered(sorted(table, keys), keys),
{
    if left_alone(table, keys) || table.len() == 0 {
        lemma_tied_reflexive(table, keys);
    } else {
        let last = table.len() - 1;
        lemma_quicksorted_in_order(table, 0, last, keys, kinds);
        lemma_quicksorted_rearranged(table, 0, last, keys);
        lemma_rearranged_typed(table, sorted(table, keys), 0, last, kinds);
        lemma_tied_ordered(sorted(table, keys), table, 0, last, keys, kinds);
    }
}

/// Leaving a table alone in which no row differs in order from the first
/// changes the outcome by ties only: sorting it would have left each
/// position a row tied with the one it has.
pub proof fn law_scan_skips_ties_only(table: Seq<Row>, keys: Seq<usize>, kinds: Seq<Kind>)
    requires
        typed(table, kinds),
        keys_in_bounds(keys, kinds.len()),
        left_alone(table, keys),
    ensures
        tied(quicksorted(table, 0, table.len() - 1, keys), table, keys),
{
    if table.len() == 0 {
        lemma_tied_reflexive(table, keys);
    } else {
        law_sorted_in_order(table, keys, kinds);
        lemma_quicksorted_in_order(table, 0, table.len() - 1, keys, kinds);
    }
}

/// Sorting the outcome of a sort again changes it by ties only.
pub proof fn law_sorting_again(table: Seq<Row>, keys: Seq<usize>, kinds: Seq<Kind>)
    requires
        typed(table, kinds),
        keys_in_bounds(keys, kinds.len()),
    ensures
        tied(sorted(sorted(table, keys), keys), sorted(table, keys), keys),
{
    law_rows_kept(table, keys, kinds);
    law_sorted_in_order(table, keys, kinds);
    law_in_order_stays(sorted(table, keys), keys, kinds);
}

} // verus!
