//! The ascending, nulls-last order of rows under a list of key columns.

use vstd::prelude::*;
use crate::packers::{Cell, Kind};
use crate::table::{conforms, Row};

verus! {

/// Outcome of comparing a left value with a right one.
#[derive(Debug, Clone, Copy, PartialEq, Eq, Structural)]
pub enum Order {
    Less,
    Equal,
    Greater,
}

impl Order {
    /// The outcome with left and right exchanged.
    pub open spec fn reverse(self) -> Order {
        match self {
            Order::Less => Order::Greater,
            Order::Equal => Order::Equal,
            Order::Greater => Order::Less,
        }
    }
}

/// Numeric order of two integers.
pub open spec fn int_order(a: int, b: int) -> Order {
    if a < b {
        Order::Less
    } else if a > b {
        Order::Greater
    } else {
        Order::Equal
    }
}

/// Lexicographic order of two byte strings: the first differing byte
/// decides, and a proper prefix sorts before its extensions.
pub open spec fn bytes_order(a: Seq<u8>, b: Seq<u8>) -> Order
    decreases a.len(),
{
    if a.len() == 0 && b.len() == 0 {
        Order::Equal
    } else if a.len() == 0 {
        Order::Less
    } else if b.len() == 0 {
        Order::Greater
    } else if a[0] != b[0] {
        int_order(a[0] as int, b[0] as int)
    } else {
        bytes_order(a.drop_first(), b.drop_first())
    }
}

/// Nulls-last order of two nullable values whose order, were both present,
/// is `present`.
pub open spec fn nulls_last(a_null: bool, b_null: bool, present: Order) -> Order {
    if a_null && b_null {
        Order::Equal
    } else if a_null {
        Order::Greater
    } else if b_null {
        Order::Less
    } else {
        present
    }
}

/// Order of two cells of one column. Integers compare numerically and
/// strings bytewise, a null after every value; cells of the other kinds
/// never differ in order.
pub open spec fn cell_order(a: Cell, b: Cell) -> Order {
    match (a, b) {
        (Cell::Integer(x), Cell::Integer(y)) => nulls_last(
            x is None,
            y is None,
            int_order(x.unwrap() as int, y.unwrap() as int),
        ),
        (Cell::String(x), Cell::String(y)) => nulls_last(
            x is None,
            y is None,
            bytes_order(x.unwrap(), y.unwrap()),
        ),
        _ => Order::Equal,
    }
}

/// Order of two rows under the key columns `keys`, most significant first:
/// the first key column in which the rows differ decides.
pub open spec fn row_order(a: Row, b: Row, keys: Seq<usize>) -> Order
    decreases keys.len(),
{
    if keys.len() == 0 {
        Order::Equal
    } else {
        let first = cell_order(a[keys[0] as int], b[keys[0] as int]);
        if first != Order::Equal {
            first
        } else {
            row_order(a, b, keys.drop_first())
        }
    }
}

/// Every key names a column of a row that is `width` cells wide.
pub open spec fn keys_in_bounds(keys: Seq<usize>, width: nat) -> bool {
    forall|k: int| 0 <= k < keys.len() ==> (#[trigger] keys[k]) < width
}

/// A byte string ties with itself.
pub proof fn lemma_bytes_order_reflexive(a: Seq<u8>)
    ensures
        bytes_order(a, a) == Order::Equal,
    decreases a.len(),
{
    if a.len() > 0 {
        lemma_bytes_order_reflexive(a.drop_first());
    }
}

/// Exchanging two byte strings reverses the outcome.
pub proof fn lemma_bytes_order_reverse(a: Seq<u8>, b: Seq<u8>)
    ensures
        bytes_order(b, a) == bytes_order(a, b).reverse(),
    decreases a.len(),
{
    if a.len() > 0 && b.len() > 0 && a[0] == b[0] {
        lemma_bytes_order_reverse(a.drop_first(), b.drop_first());
    }
}

/// What two outcomes that are not `Greater` compose to: a tie if both are
/// ties, and `Less` otherwise.
pub open spec fn chain(first: Order, second: Order) -> Order {
    if first == Order::Equal && second == Order::Equal {
        Order::Equal
    } else {
        Order::Less
    }
}

/// The order of byte strings is transitive.
pub proof fn lemma_bytes_order_transitive(a: Seq<u8>, b: Seq<u8>, c: Seq<u8>)
    requires
        bytes_order(a, b) != Order::Greater,
        bytes_order(b, c) != Order::Greater,
    ensures
        bytes_order(a, c) == chain(bytes_order(a, b), bytes_order(b, c)),
    decreases a.len(),
{
    if a.len() > 0 && b.len() > 0 && c.len() > 0 && a[0] == b[0] && b[0] == c[0] {
        lemma_bytes_order_transitive(a.drop_first(), b.drop_first(), c.drop_first());
    }
}

/// A cell ties with itself.
pub proof fn lemma_cell_order_reflexive(a: Cell)
    ensures
        cell_order(a, a) == Order::Equal,
{
    if let Cell::String(Some(bytes)) = a {
        lemma_bytes_order_reflexive(bytes);
    }
}

/// Exchanging two cells reverses the outcome.
pub proof fn lemma_cell_order_reverse(a: Cell, b: Cell)
    ensures
        cell_order(b, a) == cell_order(a, b).reverse(),
{
    if let (Cell::String(Some(x)), Cell::String(Some(y))) = (a, b) {
        lemma_bytes_order_reverse(x, y);
    }
}

/// The order of the cells of one column is transitive.
pub proof fn lemma_cell_order_transitive(a: Cell, b: Cell, c: Cell)
    requires
        a.kind() == b.kind(),
        b.kind() == c.kind(),
        cell_order(a, b) != Order::Greater,
        cell_order(b, c) != Order::Greater,
    ensures
        cell_order(a, c) == chain(cell_order(a, b), cell_order(b, c)),
{
    if let (Cell::String(Some(x)), Cell::String(Some(y)), Cell::String(Some(z))) = (a, b, c) {
        lemma_bytes_order_transitive(x, y, z);
    }
}

/// A row never differs in order from itself.
pub proof fn lemma_row_order_reflexive(a: Row, keys: Seq<usize>)
    ensures
        row_order(a, a, keys) == Order::Equal,
    decreases keys.len(),
{
    if keys.len() > 0 {
        lemma_cell_order_reflexive(a[keys[0] as int]);
        lemma_row_order_reflexive(a, keys.drop_first());
    }
}

/// Exchanging the two rows reverses the outcome.
pub proof fn lemma_row_order_reverse(a: Row, b: Row, keys: Seq<usize>)
    ensures
        row_order(b, a, keys) == row_order(a, b, keys).reverse(),
    decreases keys.len(),
{
    if keys.len() > 0 {
        lemma_cell_order_reverse(a[keys[0] as int], b[keys[0] as int]);
        lemma_row_order_reverse(a, b, keys.drop_first());
    }
}

/// The order is transitive on rows of one table: if `a` does not follow `b`
/// and `b` does not follow `c`, then `a` does not follow `c`, and ties with
/// it only where both pairs tie.
pub proof fn lemma_row_order_transitive(
    a: Row,
    b: Row,
    c: Row,
    keys: Seq<usize>,
    kinds: Seq<Kind>,
)
    requires
        conforms(a, kinds),
        conforms(b, kinds),
        conforms(c, kinds),
        keys_in_bounds(keys, kinds.len()),
        row_order(a, b, keys) != Order::Greater,
        row_order(b, c, keys) != Order::Greater,
    ensures
        row_order(a, c, keys) == chain(row_order(a, b, keys), row_order(b, c, keys)),
    decreases keys.len(),
{
    if keys.len() > 0 {
        let k = keys[0] as int;
        lemma_cell_order_transitive(a[k], b[k], c[k]);
        if cell_order(a[k], b[k]) == Order::Equal && cell_order(b[k], c[k]) == Order::Equal {
            let rest = keys.drop_first();
            assert forall|i: int| 0 <= i < rest.len() implies (#[trigger] rest[i]) < kinds.len() by {
                assert(rest[i] == keys[i + 1]);
            }
            lemma_row_order_transitive(a, b, c, rest, kinds);
        }
    }
}

/// The order under `keys` is the order under the first `k` of them, and
/// where the rows tie under those, the order under the keys that follow.
pub proof fn lemma_row_order_split(a: Row, b: Row, keys: Seq<usize>, k: int)
    requires
        0 <= k <= keys.len(),
    ensures
        row_order(a, b, keys) == (if row_order(a, b, keys.take(k)) != Order::Equal {
            row_order(a, b, keys.take(k))
        } else {
            row_order(a, b, keys.skip(k))
        }),
    decreases k,
{
    if k == 0 {
        assert(keys.skip(0) == keys);
    } else {
        let rest = keys.drop_first();
        lemma_row_order_split(a, b, rest, k - 1);
        assert(keys.take(k).drop_first() == rest.take(k - 1));
        assert(keys.skip(k) == rest.skip(k - 1));
    }
}

} // verus!
