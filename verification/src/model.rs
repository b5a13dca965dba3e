//! The mathematical model of a book: a sequence of price levels in priority
//! order, each level a sequence of orders in arrival order.

use crate::order::{OpenLimitOrder, Side};
use vstd::prelude::*;

verus! {

/// The orders that rest at one price, oldest first.
pub type Level = Seq<OpenLimitOrder>;

/// The levels of a book, best price first.
pub type Levels = Seq<Seq<OpenLimitOrder>>;

/// Whether price `a` is strictly more competitive than price `b` on `side`:
/// higher in a buy book, lower in a sell book.
pub open spec fn outranks(side: Side, a: u32, b: u32) -> bool {
    match side {
        Side::Buy => a > b,
        Side::Sell => a < b,
    }
}

/// Whether a resting order at `candidate_price` in a book of `side` may fill
/// an incoming order whose limit is `request_price`: a bid at or above the
/// seller's ask, an ask at or below the buyer's bid.
pub open spec fn acceptable(side: Side, request_price: u32, candidate_price: u32) -> bool {
    match side {
        Side::Buy => request_price <= candidate_price,
        Side::Sell => request_price >= candidate_price,
    }
}

/// A level is never empty, and its orders share one price, stand on the
/// book's side and carry an identifier.
pub open spec fn level_ok(side: Side, level: Level) -> bool {
    &&& level.len() > 0
    &&& forall|j: int|
        0 <= j < level.len() ==> {
            &&& (#[trigger] level[j]).side == side
            &&& level[j].price == level[0].price
            &&& level[j].id != 0
        }
}

/// The invariant of a book: every level is in order, and the levels stand in
/// strictly falling priority, so that no price has two levels.
pub open spec fn well_formed(side: Side, levels: Levels) -> bool {
    &&& forall|i: int| 0 <= i < levels.len() ==> level_ok(side, #[trigger] levels[i])
    &&& forall|i: int, j: int|
        0 <= i < j < levels.len() ==> outranks(
            side,
            (#[trigger] levels[i])[0].price,
            (#[trigger] levels[j])[0].price,
        )
}

/// The number of leading levels whose price outranks `price`: the index at
/// which an order at `price` joins the book.
pub open spec fn slot(side: Side, levels: Levels, price: u32) -> nat
    decreases levels.len(),
{
    if levels.len() == 0 || !outranks(side, levels[0][0].price, price) {
        0
    } else {
        (1 + slot(side, levels.drop_first(), price)) as nat
    }
}

/// The book after `order` has joined it: at the tail of the level of its
/// price where there is one, else as a level of its own before the first
/// level that it outranks.
pub open spec fn insert_order(side: Side, levels: Levels, order: OpenLimitOrder) -> Levels {
    let k = slot(side, levels, order.price) as int;
    if k < levels.len() && levels[k][0].price == order.price {
        levels.update(k, levels[k].push(order))
    } else {
        levels.insert(k, seq![order])
    }
}

/// `slot` is within the book, every level before it outranks `price`, and the
/// level at it, if any, does not.
pub proof fn lemma_slot_bounds(side: Side, levels: Levels, price: u32)
    ensures
        slot(side, levels, price) <= levels.len(),
        forall|i: int|
            0 <= i < slot(side, levels, price) ==> outranks(
                side,
                (#[trigger] levels[i])[0].price,
                price,
            ),
        slot(side, levels, price) < levels.len() ==> !outranks(
            side,
            levels[slot(side, levels, price) as int][0].price,
            price,
        ),
    decreases levels.len(),
{
    if levels.len() > 0 && outranks(side, levels[0][0].price, price) {
        let rest = levels.drop_first();
        lemma_slot_bounds(side, rest, price);
        assert forall|i: int| 0 <= i < slot(side, levels, price) implies outranks(
            side,
            (#[trigger] levels[i])[0].price,
            price,
        ) by {
            if i > 0 {
                assert(levels[i] == rest[i - 1]);
            }
        }
    }
}

/// The index `k` is the slot of `price` when the levels before it outrank
/// `price` and the level at it, if any, does not.
pub proof fn lemma_slot_is(side: Side, levels: Levels, price: u32, k: int)
    requires
        0 <= k <= levels.len(),
        forall|i: int| 0 <= i < k ==> outranks(side, (#[trigger] levels[i])[0].price, price),
        k < levels.len() ==> !outranks(side, levels[k][0].price, price),
    ensures
        slot(side, levels, price) == k,
    decreases k,
{
    if k > 0 {
        lemma_slot_is(side, levels.drop_first(), price, k - 1);
    }
}

/// An order of the book's side that carries an identifier keeps the book
/// well formed when it joins.
pub proof fn lemma_insert_keeps_well_formed(side: Side, levels: Levels, order: OpenLimitOrder)
    requires
        well_formed(side, levels),
        order.side == side,
        order.id != 0,
    ensures
        well_formed(side, insert_order(side, levels, order)),
{
    lemma_slot_bounds(side, levels, order.price);
}

/// Whether some resting order carries `id`.
pub open spec fn holds_id(levels: Levels, id: u128) -> bool {
    exists|i: int, j: int|
        0 <= i < levels.len() && 0 <= j < levels[i].len() && (#[trigger] levels[i][j]).id == id
}

/// Whether the order at place `j` of level `i` is the first one, in priority
/// order, that carries `id`.
pub open spec fn is_first_with_id(levels: Levels, id: u128, i: int, j: int) -> bool {
    &&& 0 <= i < levels.len()
    &&& 0 <= j < levels[i].len()
    &&& levels[i][j].id == id
    &&& forall|b: int| 0 <= b < j ==> (#[trigger] levels[i][b]).id != id
    &&& forall|a: int, b: int|
        0 <= a < i && 0 <= b < levels[a].len() ==> (#[trigger] levels[a][b]).id != id
}

/// The book without the order at place `j` of level `i`; a level that the
/// order leaves empty goes with it.
pub open spec fn without(levels: Levels, i: int, j: int) -> Levels {
    if levels[i].len() == 1 {
        levels.remove(i)
    } else {
        levels.update(i, levels[i].remove(j))
    }
}

/// Taking one order out keeps the book well formed.
pub proof fn lemma_without_keeps_well_formed(side: Side, levels: Levels, i: int, j: int)
    requires
        well_formed(side, levels),
        0 <= i < levels.len(),
        0 <= j < levels[i].len(),
    ensures
        well_formed(side, without(levels, i, j)),
{
}

} // verus!
