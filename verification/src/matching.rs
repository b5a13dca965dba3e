//! What matching an incoming order against a book means, stated over the
//! book's model.

use crate::ids::is_random_id;
use crate::model::{
    acceptable, insert_order, lemma_insert_keeps_well_formed, lemma_slot_is, well_formed,
    without, Levels,
};
use crate::order::{BookError, OpenLimitOrder, Side};
use vstd::prelude::*;

verus! {

/// The units that `orders` hold together.
pub open spec fn total_amount(orders: Seq<OpenLimitOrder>) -> int
    decreases orders.len(),
{
    if orders.len() == 0 {
        0
    } else {
        total_amount(orders.drop_last()) + orders.last().amount
    }
}

/// The money that `orders` are worth together: each order's price times its
/// amount.
pub open spec fn total_cost(orders: Seq<OpenLimitOrder>) -> int
    decreases orders.len(),
{
    if orders.len() == 0 {
        0
    } else {
        total_cost(orders.drop_last()) + orders.last().price * orders.last().amount
    }
}

/// The number of leading orders of `orders` whose price is acceptable to an
/// incoming order with the limit `request_price`.
pub open spec fn eligible_count(side: Side, orders: Seq<OpenLimitOrder>, request_price: u32) -> nat
    decreases orders.len(),
{
    if orders.len() == 0 || !acceptable(side, request_price, orders[0].price) {
        0
    } else {
        (1 + eligible_count(side, orders.drop_first(), request_price)) as nat
    }
}

/// The number of leading orders of `orders` that are taken to cover
/// `amount`: at least one, and no more once their amounts reach `amount`;
/// all of them if they never do.
pub open spec fn orders_needed(orders: Seq<OpenLimitOrder>, amount: int) -> nat
    decreases orders.len(),
{
    if orders.len() == 0 {
        0
    } else if orders[0].amount >= amount {
        1
    } else {
        (1 + orders_needed(orders.drop_first(), amount - orders[0].amount)) as nat
    }
}

/// The book without its first order in priority order.
pub open spec fn without_front(levels: Levels) -> Levels {
    if levels.len() == 0 {
        levels
    } else {
        without(levels, 0, 0)
    }
}

/// The book without its first `n` orders in priority order.
pub open spec fn after_taking(levels: Levels, n: nat) -> Levels
    decreases n,
{
    if n == 0 {
        levels
    } else {
        without_front(after_taking(levels, (n - 1) as nat))
    }
}

/// The book that results when `orders` join `levels` one after another.
pub open spec fn admit_all(side: Side, levels: Levels, orders: Seq<OpenLimitOrder>) -> Levels
    decreases orders.len(),
{
    if orders.len() == 0 {
        levels
    } else {
        insert_order(side, admit_all(side, levels, orders.drop_last()), orders.last())
    }
}

/// How an attempt to fill an order ends.
pub enum FillOutcome {
    /// The attempt fails with `error` and leaves the book as `rest`.
    Refused { error: BookError, rest: Levels },
    /// The orders `taken` fill the incoming order. `rest` is the book
    /// without them, and `leftover` units of the last of them stay unused.
    Filled { taken: Seq<OpenLimitOrder>, rest: Levels, leftover: int },
}

/// The outcome of filling `to_fill` from a book of `side` that holds
/// `levels`.
///
/// The incoming order must stand on the other side. It is matched against
/// the resting orders in priority order, as far as their prices are
/// acceptable, and takes whole orders until their amounts reach its own. If
/// they do, the order is filled. If they do not, the attempt fails: for want
/// of size, with the book untouched, when every resting order was eligible
/// (or none rests at all); else for want of price, in which case the
/// eligible orders are gone from the book unless there were none.
pub open spec fn fill_outcome(side: Side, levels: Levels, to_fill: OpenLimitOrder) -> FillOutcome {
    let all = levels.flatten();
    let eligible = eligible_count(side, all, to_fill.price);
    let needed = orders_needed(all.take(eligible as int), to_fill.amount as int);
    let got = total_amount(all.take(needed as int));
    if to_fill.side == side {
        FillOutcome::Refused { error: BookError::WrongSide, rest: levels }
    } else if levels.len() == 0 {
        FillOutcome::Refused { error: BookError::CantFillSize, rest: levels }
    } else if eligible == 0 {
        FillOutcome::Refused { error: BookError::CantFillPrice, rest: levels }
    } else if got >= to_fill.amount {
        FillOutcome::Filled {
            taken: all.take(needed as int),
            rest: after_taking(levels, needed),
            leftover: got - to_fill.amount,
        }
    } else if eligible == all.len() {
        FillOutcome::Refused { error: BookError::CantFillSize, rest: levels }
    } else {
        FillOutcome::Refused {
            error: BookError::CantFillPrice,
            rest: after_taking(levels, eligible),
        }
    }
}

/// The part of a partly used order that goes back to the book: `leftover`
/// units at the same price, under the identifier `id`.
pub open spec fn residual(last: OpenLimitOrder, leftover: int, id: u128) -> OpenLimitOrder {
    OpenLimitOrder { id, amount: leftover as u32, ..last }
}

/// Whether `after` is the book that an attempt with this outcome leaves
/// behind. After a fill that used its last order only in part, the unused
/// part rests in the book as a new order under a randomly drawn identifier.
pub open spec fn book_after(side: Side, outcome: FillOutcome, after: Levels) -> bool {
    match outcome {
        FillOutcome::Refused { rest, .. } => after == rest,
        FillOutcome::Filled { taken, rest, leftover } => if leftover == 0 {
            after == rest
        } else {
            exists|id: u128|
                is_random_id(id) && after == insert_order(
                    side,
                    rest,
                    #[trigger] residual(taken.last(), leftover, id),
                )
        },
    }
}

/// Appending an order adds its amount and its worth to the totals.
pub proof fn lemma_totals_push(orders: Seq<OpenLimitOrder>, order: OpenLimitOrder)
    ensures
        total_amount(orders.push(order)) == total_amount(orders) + order.amount,
        total_cost(orders.push(order)) == total_cost(orders) + order.price * order.amount,
{
    assert(orders.push(order).drop_last() =~= orders);
}

/// The totals of a sequence are those of its first order plus those of the
/// rest.
pub proof fn lemma_totals_front(orders: Seq<OpenLimitOrder>)
    requires
        orders.len() > 0,
    ensures
        total_amount(orders) == orders[0].amount + total_amount(orders.drop_first()),
        total_cost(orders) == orders[0].price * orders[0].amount + total_cost(
            orders.drop_first(),
        ),
    decreases orders.len(),
{
    if orders.len() == 1 {
        assert(orders.drop_last() =~= orders.drop_first());
    } else {
        lemma_totals_front(orders.drop_last());
        assert(orders.drop_last().drop_first() =~= orders.drop_first().drop_last());
    }
}

/// `eligible_count` is within the sequence, every order before it is
/// acceptable, and the order at it, if any, is not.
pub proof fn lemma_eligible_count_bounds(
    side: Side,
    orders: Seq<OpenLimitOrder>,
    request_price: u32,
)
    ensures
        eligible_count(side, orders, request_price) <= orders.len(),
        forall|i: int|
            0 <= i < eligible_count(side, orders, request_price) ==> acceptable(
                side,
                request_price,
                (#[trigger] orders[i]).price,
            ),
        eligible_count(side, orders, request_price) < orders.len() ==> !acceptable(
            side,
            request_price,
            orders[eligible_count(side, orders, request_price) as int].price,
        ),
    decreases orders.len(),
{
    if orders.len() > 0 && acceptable(side, request_price, orders[0].price) {
        let rest = orders.drop_first();
        lemma_eligible_count_bounds(side, rest, request_price);
        assert forall|i: int|
            0 <= i < eligible_count(side, orders, request_price) implies acceptable(
            side,
            request_price,
            (#[trigger] orders[i]).price,
        ) by {
            if i > 0 {
                assert(orders[i] == rest[i - 1]);
            }
        }
    }
}

/// No more orders are counted as needed than there are, at least one if
/// there is any, and the orders before the last one needed do not reach the
/// amount.
pub proof fn lemma_orders_needed_minimal(orders: Seq<OpenLimitOrder>, amount: int)
    ensures
        orders_needed(orders, amount) <= orders.len(),
        orders.len() > 0 ==> orders_needed(orders, amount) >= 1,
        forall|k: int|
            0 < k < orders_needed(orders, amount) ==> total_amount(#[trigger] orders.take(k))
                < amount,
        orders_needed(orders, amount) < orders.len() ==> total_amount(
            orders.take(orders_needed(orders, amount) as int),
        ) >= amount,
    decreases orders.len(),
{
    if orders.len() == 0 {
    } else if orders[0].amount >= amount {
        assert(total_amount(orders.take(1).drop_last()) == 0);
    } else {
        let rest = orders.drop_first();
        let less = amount - orders[0].amount;
        lemma_orders_needed_minimal(rest, less);
        let n = orders_needed(orders, amount) as int;
        assert forall|k: int| 0 < k < n implies total_amount(#[trigger] orders.take(k))
            < amount by {
            lemma_totals_front(orders.take(k));
            assert(orders.take(k).drop_first() =~= rest.take(k - 1));
        }
        if n < orders.len() {
            lemma_totals_front(orders.take(n));
            assert(orders.take(n).drop_first() =~= rest.take(n - 1));
        }
    }
}

/// The first order of a book leads its orders in priority order, and the
/// book without it holds the others.
pub proof fn lemma_flatten_front(levels: Levels)
    requires
        levels.len() > 0,
        levels[0].len() > 0,
    ensures
        levels.flatten().len() > 0,
        levels.flatten()[0] == levels[0][0],
        without_front(levels).flatten() == levels.flatten().drop_first(),
{
    if levels[0].len() > 1 {
        assert(without_front(levels).drop_first() =~= levels.drop_first());
    }
}

/// A book whose orders are taken from the front stays well formed, and
/// holds the orders that are left, in their order.
pub proof fn lemma_after_taking(side: Side, levels: Levels, n: nat)
    requires
        well_formed(side, levels),
        n <= levels.flatten().len(),
    ensures
        well_formed(side, after_taking(levels, n)),
        after_taking(levels, n).flatten() == levels.flatten().skip(n as int),
    decreases n,
{
    if n > 0 {
        let before = after_taking(levels, (n - 1) as nat);
        lemma_after_taking(side, levels, (n - 1) as nat);
        assert(before.flatten().len() > 0);
        lemma_flatten_front(before);
    }
}

/// The last order of a book ends its orders in priority order, and the book
/// without it holds the others.
pub proof fn lemma_flatten_back(levels: Levels)
    requires
        levels.len() > 0,
        levels.last().len() > 0,
    ensures
        levels.flatten().len() > 0,
        levels.flatten().last() == levels.last().last(),
        without(levels, levels.len() - 1, levels.last().len() - 1).flatten()
            == levels.flatten().drop_last(),
{
    let head = levels.drop_last();
    let tail = levels.last();
    assert(levels =~= head.push(tail));
    head.lemma_flatten_push(tail);
    if tail.len() > 1 {
        let after = without(levels, levels.len() - 1, tail.len() - 1);
        assert(after =~= head.push(tail.drop_last()));
        head.lemma_flatten_push(tail.drop_last());
    }
}

/// Re-admitting the orders of a well-formed book to an empty book, in
/// priority order, gives the same book back.
pub proof fn lemma_admit_all_restores(side: Side, levels: Levels)
    requires
        well_formed(side, levels),
    ensures
        admit_all(side, Levels::empty(), levels.flatten()) == levels,
    decreases levels.flatten().len(),
{
    if levels.len() > 0 {
        // Take the last order out, restore the rest, and let the order join
        // again: it goes back to the end of the last level.
        let k = levels.len() - 1;
        let order = levels[k].last();
        let before = without(levels, k, levels[k].len() - 1);
        lemma_flatten_back(levels);
        lemma_admit_all_restores(side, before);
        lemma_slot_is(side, before, order.price, k);
        let joined = insert_order(side, before, order);
        assert forall|i: int| 0 <= i < levels.len() implies joined[i] == levels[i] by {
        }
    }
}

/// Orders of the book's side that carry identifiers keep a book well formed
/// when they join it one after another.
pub proof fn lemma_admit_all_keeps_well_formed(
    side: Side,
    levels: Levels,
    orders: Seq<OpenLimitOrder>,
)
    requires
        well_formed(side, levels),
        forall|i: int| 0 <= i < orders.len() ==> (#[trigger] orders[i]).side == side && orders[i].id != 0,
    ensures
        well_formed(side, admit_all(side, levels, orders)),
    decreases orders.len(),
{
    if orders.len() > 0 {
        lemma_admit_all_keeps_well_formed(side, levels, orders.drop_last());
        lemma_insert_keeps_well_formed(
            side,
            admit_all(side, levels, orders.drop_last()),
            orders.last(),
        );
    }
}

/// Every order of a well-formed book stands on the book's side and carries
/// an identifier.
pub proof fn lemma_flatten_orders(side: Side, levels: Levels)
    requires
        well_formed(side, levels),
    ensures
        forall|i: int|
            0 <= i < levels.flatten().len() ==> (#[trigger] levels.flatten()[i]).side == side
                && levels.flatten()[i].id != 0,
    decreases levels.len(),
{
    if levels.len() > 0 {
        lemma_flatten_orders(side, levels.drop_first());
    }
}

/// What holds of every fill: the orders taken are the first resting orders
/// in priority order, at least one, each at an acceptable price; their
/// amounts cover the incoming amount, and would not without the last of
/// them; what they hold beyond it is the unused part of the last; and the
/// book without them is well formed and holds the other orders.
pub proof fn lemma_filled(side: Side, levels: Levels, to_fill: OpenLimitOrder)
    requires
        well_formed(side, levels),
        fill_outcome(side, levels, to_fill) is Filled,
    ensures
        match fill_outcome(side, levels, to_fill) {
            FillOutcome::Filled { taken, rest, leftover } => {
                &&& 1 <= taken.len() <= levels.flatten().len()
                &&& taken == levels.flatten().take(taken.len() as int)
                &&& forall|i: int|
                    0 <= i < taken.len() ==> {
                        &&& acceptable(side, to_fill.price, (#[trigger] taken[i]).price)
                        &&& taken[i].side == side
                        &&& taken[i].id != 0
                    }
                &&& total_amount(taken) == to_fill.amount + leftover
                &&& total_amount(taken.drop_last()) <= to_fill.amount
                &&& taken.len() > 1 ==> total_amount(taken.drop_last()) < to_fill.amount
                &&& 0 <= leftover <= taken.last().amount
                &&& rest == after_taking(levels, taken.len())
                &&& well_formed(side, rest)
                &&& rest.flatten() == levels.flatten().skip(taken.len() as int)
            },
            FillOutcome::Refused { .. } => false,
        },
{
    let all = levels.flatten();
    let eligible = eligible_count(side, all, to_fill.price);
    let candidates = all.take(eligible as int);
    let needed = orders_needed(candidates, to_fill.amount as int);
    lemma_eligible_count_bounds(side, all, to_fill.price);
    lemma_orders_needed_minimal(candidates, to_fill.amount as int);
    lemma_flatten_orders(side, levels);
    lemma_after_taking(side, levels, needed);
    assert(all.take(needed as int).drop_last() =~= candidates.take(needed - 1));
}

} // verus!
