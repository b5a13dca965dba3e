//! Laws of the book, proved of its model. The operations of `OrderBook`
//! change a book as `insert_order`, `without` and `fill_outcome` say, so
//! what is proved here of those holds of every book.

use crate::matching::{
    admit_all, after_taking, book_after, eligible_count, fill_outcome,
    lemma_admit_all_keeps_well_formed, lemma_after_taking, lemma_eligible_count_bounds,
    lemma_filled, residual, FillOutcome,
};
use crate::model::{
    acceptable, holds_id, insert_order, lemma_slot_bounds, lemma_slot_is, outranks, slot,
    well_formed, without, Levels,
};
use crate::order::{BookError, OpenLimitOrder, Side};
use vstd::prelude::*;

verus! {

/// Whether every resting order holds at least one unit.
pub open spec fn amounts_positive(levels: Levels) -> bool {
    forall|i: int, j: int|
        0 <= i < levels.len() && 0 <= j < levels[i].len() ==> (#[trigger] levels[i][j]).amount > 0
}

/// Whatever orders are admitted to an empty book, one after another, the
/// book's levels stand in strictly falling priority: prices strictly
/// descending in a buy book, strictly ascending in a sell book. No level is
/// empty, and a level's orders share its price.
pub proof fn law_admitted_levels_are_sorted(side: Side, orders: Seq<OpenLimitOrder>)
    requires
        forall|i: int|
            0 <= i < orders.len() ==> (#[trigger] orders[i]).side == side && orders[i].id != 0,
    ensures
        ({
            let book = admit_all(side, Levels::empty(), orders);
            &&& forall|i: int, j: int|
                0 <= i < j < book.len() ==> match side {
                    Side::Buy => (#[trigger] book[i])[0].price > (#[trigger] book[j])[0].price,
                    Side::Sell => book[i][0].price < book[j][0].price,
                }
            &&& forall|i: int, k: int|
                0 <= i < book.len() && 0 <= k < book[i].len() ==> (#[trigger] book[i][k]).price
                    == book[i][0].price
            &&& forall|i: int| 0 <= i < book.len() ==> (#[trigger] book[i]).len() > 0
        }),
{
    lemma_admit_all_keeps_well_formed(side, Levels::empty(), orders);
}

/// The orders among `orders` that name `price`, in their order.
pub open spec fn at_price(orders: Seq<OpenLimitOrder>, price: u32) -> Seq<OpenLimitOrder> {
    orders.filter(|order: OpenLimitOrder| order.price == price)
}

/// Appending an order extends the orders at its price by it, and leaves
/// those at every other price as they were.
pub proof fn lemma_at_price_push(orders: Seq<OpenLimitOrder>, order: OpenLimitOrder, price: u32)
    ensures
        at_price(orders.push(order), price) == if order.price == price {
            at_price(orders, price).push(order)
        } else {
            at_price(orders, price)
        },
{
    reveal(Seq::filter);
    assert(orders.push(order).drop_last() =~= orders);
}

/// Where no order names `price`, there are no orders at that price.
pub proof fn lemma_at_price_none(orders: Seq<OpenLimitOrder>, price: u32)
    requires
        forall|i: int| 0 <= i < orders.len() ==> (#[trigger] orders[i]).price != price,
    ensures
        at_price(orders, price) == Seq::<OpenLimitOrder>::empty(),
    decreases orders.len(),
{
    reveal(Seq::filter);
    if orders.len() > 0 {
        lemma_at_price_none(orders.drop_last(), price);
    }
}

/// Whatever orders are admitted to an empty book, one after another, each
/// level of the book holds exactly the admitted orders of its price, in the
/// order in which they were admitted; and every admitted order's price has
/// a level.
pub proof fn law_levels_hold_orders_in_arrival_order(side: Side, orders: Seq<OpenLimitOrder>)
    requires
        forall|i: int|
            0 <= i < orders.len() ==> (#[trigger] orders[i]).side == side && orders[i].id != 0,
    ensures
        ({
            let book = admit_all(side, Levels::empty(), orders);
            &&& forall|k: int|
                0 <= k < book.len() ==> (#[trigger] book[k]) == at_price(orders, book[k][0].price)
            &&& forall|i: int|
                0 <= i < orders.len() ==> exists|k: int|
                    0 <= k < book.len() && (#[trigger] book[k])[0].price == (
                    #[trigger] orders[i]).price
        }),
    decreases orders.len(),
{
    if orders.len() > 0 {
        let earlier = orders.drop_last();
        let order = orders.last();
        let before = admit_all(side, Levels::empty(), earlier);
        let book = insert_order(side, before, order);
        law_levels_hold_orders_in_arrival_order(side, earlier);
        lemma_admit_all_keeps_well_formed(side, Levels::empty(), earlier);
        lemma_slot_bounds(side, before, order.price);
        assert(orders =~= earlier.push(order));
        let s = slot(side, before, order.price) as int;
        let joins = s < before.len() && before[s][0].price == order.price;
        assert forall|k: int| 0 <= k < book.len() implies (#[trigger] book[k]) == at_price(
            orders,
            book[k][0].price,
        ) by {
            lemma_at_price_push(earlier, order, book[k][0].price);
            if k == s && !joins {
                // The order opens a level: no earlier order names its price.
                lemma_at_price_none(earlier, order.price);
            }
        }
        assert forall|i: int| 0 <= i < orders.len() implies exists|k: int|
            0 <= k < book.len() && (#[trigger] book[k])[0].price == (#[trigger] orders[i]).price by {
            if i == orders.len() - 1 {
                assert(book[s][0].price == order.price);
            } else {
                let at = choose|at: int|
                    0 <= at < before.len() && (#[trigger] before[at])[0].price == earlier[i].price;
                let to = if joins || at < s { at } else { at + 1 };
                assert(book[to][0].price == before[at][0].price);
            }
        }
    }
}

/// Two orders at one price that join a book one after the other rest in one
/// level, in the order in which they came, behind every order that rested at
/// that price before them.
pub proof fn law_same_price_keeps_arrival_order(
    side: Side,
    levels: Levels,
    first: OpenLimitOrder,
    second: OpenLimitOrder,
)
    requires
        well_formed(side, levels),
        first.side == side,
        second.side == side,
        first.id != 0,
        second.id != 0,
        first.price == second.price,
    ensures
        ({
            let k = slot(side, levels, first.price) as int;
            let after = insert_order(side, insert_order(side, levels, first), second);
            &&& k < after.len()
            &&& if k < levels.len() && levels[k][0].price == first.price {
                after[k] == levels[k].push(first).push(second)
            } else {
                after[k] == seq![first, second]
            }
        }),
{
    let k = slot(side, levels, first.price) as int;
    let middle = insert_order(side, levels, first);
    lemma_slot_bounds(side, levels, first.price);
    assert(middle[k][0].price == first.price);
    lemma_slot_is(side, middle, second.price, k);
}

/// Taking an order out of a book leaves no empty level behind; and when the
/// order was the only one at its price, no order at that price rests in the
/// book afterwards.
pub proof fn law_emptied_level_leaves(side: Side, levels: Levels, i: int, j: int)
    requires
        well_formed(side, levels),
        0 <= i < levels.len(),
        0 <= j < levels[i].len(),
    ensures
        forall|a: int|
            0 <= a < without(levels, i, j).len() ==> (#[trigger] without(levels, i, j)[a]).len()
                > 0,
        levels[i].len() == 1 ==> forall|a: int, b: int|
            0 <= a < without(levels, i, j).len() && 0 <= b < without(levels, i, j)[a].len() ==> (
            #[trigger] without(levels, i, j)[a][b]).price != levels[i][j].price,
{
}

/// An attempt to fill that fails for want of size leaves the book exactly as
/// it was: every level, every order, every amount.
pub proof fn law_want_of_size_leaves_book(
    side: Side,
    levels: Levels,
    to_fill: OpenLimitOrder,
    after: Levels,
)
    requires
        fill_outcome(side, levels, to_fill) matches FillOutcome::Refused { error, .. }
            && error == BookError::CantFillSize,
        book_after(side, fill_outcome(side, levels, to_fill), after),
    ensures
        after == levels,
{
}

/// An order that holds at least one unit keeps the amounts of a book
/// positive when it joins.
pub proof fn law_insert_keeps_amounts_positive(side: Side, levels: Levels, order: OpenLimitOrder)
    requires
        amounts_positive(levels),
        order.amount > 0,
    ensures
        amounts_positive(insert_order(side, levels, order)),
{
    lemma_slot_bounds(side, levels, order.price);
}

/// Taking an order out keeps the amounts of a book positive.
pub proof fn law_without_keeps_amounts_positive(levels: Levels, i: int, j: int)
    requires
        amounts_positive(levels),
        0 <= i < levels.len(),
        0 <= j < levels[i].len(),
    ensures
        amounts_positive(without(levels, i, j)),
{
}

/// Taking orders from the front keeps the amounts of a book positive.
pub proof fn law_taking_keeps_amounts_positive(side: Side, levels: Levels, n: nat)
    requires
        well_formed(side, levels),
        amounts_positive(levels),
        n <= levels.flatten().len(),
    ensures
        amounts_positive(after_taking(levels, n)),
    decreases n,
{
    if n > 0 {
        let before = after_taking(levels, (n - 1) as nat);
        law_taking_keeps_amounts_positive(side, levels, (n - 1) as nat);
        lemma_after_taking(side, levels, (n - 1) as nat);
        assert(before.flatten().len() > 0);
    }
}

/// However an attempt to fill ends, a book whose orders each held at least
/// one unit is left with such orders only: the unused part of a split order
/// goes back to the book only if it holds a unit.
pub proof fn law_fill_keeps_amounts_positive(
    side: Side,
    levels: Levels,
    to_fill: OpenLimitOrder,
    after: Levels,
)
    requires
        well_formed(side, levels),
        amounts_positive(levels),
        book_after(side, fill_outcome(side, levels, to_fill), after),
    ensures
        amounts_positive(after),
{
    match fill_outcome(side, levels, to_fill) {
        FillOutcome::Refused { rest, .. } => {
            if rest != levels {
                let eligible = eligible_count(side, levels.flatten(), to_fill.price);
                lemma_eligible_count_bounds(side, levels.flatten(), to_fill.price);
                law_taking_keeps_amounts_positive(side, levels, eligible);
            }
        },
        FillOutcome::Filled { taken, rest, leftover } => {
            lemma_filled(side, levels, to_fill);
            law_taking_keeps_amounts_positive(side, levels, taken.len());
            if leftover != 0 {
                let id = choose|id: u128|
                    after == insert_order(side, rest, #[trigger] residual(taken.last(), leftover, id));
                law_insert_keeps_amounts_positive(
                    side,
                    rest,
                    residual(taken.last(), leftover, id),
                );
            }
        },
    }
}

/// Whether no two resting orders carry the same identifier.
pub open spec fn ids_distinct(levels: Levels) -> bool {
    forall|i: int, j: int, a: int, b: int|
        0 <= i < levels.len() && 0 <= j < levels[i].len() && 0 <= a < levels.len() && 0 <= b
            < levels[a].len() && (i != a || j != b) ==> (#[trigger] levels[i][j]).id != (
        #[trigger] levels[a][b]).id
}

/// An order whose identifier no resting order carries keeps the identifiers
/// of a book distinct when it joins.
pub proof fn law_insert_keeps_ids_distinct(side: Side, levels: Levels, order: OpenLimitOrder)
    requires
        ids_distinct(levels),
        !holds_id(levels, order.id),
    ensures
        ids_distinct(insert_order(side, levels, order)),
{
    lemma_slot_bounds(side, levels, order.price);
}

/// Taking an order out keeps the identifiers of a book distinct, and where
/// they are distinct, no resting order carries the identifier of the order
/// that was taken out.
pub proof fn law_without_keeps_ids_distinct(levels: Levels, i: int, j: int)
    requires
        ids_distinct(levels),
        0 <= i < levels.len(),
        0 <= j < levels[i].len(),
    ensures
        ids_distinct(without(levels, i, j)),
        !holds_id(without(levels, i, j), levels[i][j].id),
{
}

/// The orders of a well-formed book stand in priority order: no order
/// outranks one that stands before it, and none outranks the best level.
pub proof fn law_orders_stand_in_priority_order(side: Side, levels: Levels)
    requires
        well_formed(side, levels),
    ensures
        forall|k: int|
            0 <= k < levels.flatten().len() ==> !outranks(
                side,
                (#[trigger] levels.flatten()[k]).price,
                levels[0][0].price,
            ),
        forall|a: int, b: int|
            0 <= a <= b < levels.flatten().len() ==> !outranks(
                side,
                (#[trigger] levels.flatten()[b]).price,
                (#[trigger] levels.flatten()[a]).price,
            ),
    decreases levels.len(),
{
    if levels.len() > 0 {
        law_orders_stand_in_priority_order(side, levels.drop_first());
    }
}

/// The eligible orders are all the orders at acceptable prices: behind them
/// no resting order has a price that the incoming order accepts.
pub proof fn law_eligible_orders_are_all(side: Side, levels: Levels, request_price: u32)
    requires
        well_formed(side, levels),
    ensures
        forall|k: int|
            eligible_count(side, levels.flatten(), request_price) <= k < levels.flatten().len()
                ==> !acceptable(side, request_price, (#[trigger] levels.flatten()[k]).price),
{
    lemma_eligible_count_bounds(side, levels.flatten(), request_price);
    law_orders_stand_in_priority_order(side, levels);
}

} // verus!
