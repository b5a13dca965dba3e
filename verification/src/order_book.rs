//! The book of one side of one instrument, and the operations on it.

use crate::ids::{fresh_id, is_random_id, lemma_random_id_is_set};
use crate::model::{
    acceptable, holds_id, insert_order, is_first_with_id, lemma_insert_keeps_well_formed,
    lemma_slot_is, lemma_without_keeps_well_formed, outranks, well_formed, without, Levels,
};
use crate::matching::{
    admit_all, after_taking, book_after, eligible_count, fill_outcome, lemma_admit_all_restores,
    lemma_eligible_count_bounds, lemma_filled, lemma_flatten_front, lemma_totals_push,
    orders_needed, residual, total_amount, total_cost, without_front, FillOutcome,
};
use crate::order::{AveragePrice, BookError, FillResult, OpenLimitOrder, Side};
use std::collections::VecDeque;
use vstd::prelude::*;

verus! {

/// The resting orders of one side: price levels in priority order, each a
/// queue of orders in arrival order.
pub struct OrderBook {
    book: Vec<VecDeque<OpenLimitOrder>>,
    side: Side,
}

/// The levels that a vector of queues holds.
pub open spec fn levels_of(queues: Seq<VecDeque<OpenLimitOrder>>) -> Levels {
    Seq::new(queues.len(), |i: int| queues[i]@)
}

/// What admission does to an order: it gives a randomly drawn identifier to
/// an order that has none, and changes nothing else.
pub open spec fn admitted(submitted: OpenLimitOrder, resting: OpenLimitOrder) -> bool {
    &&& resting == OpenLimitOrder { id: resting.id, ..submitted }
    &&& resting.id != 0
    &&& if submitted.id == 0 {
        is_random_id(resting.id)
    } else {
        resting.id == submitted.id
    }
}

impl View for OrderBook {
    type V = Levels;

    closed spec fn view(&self) -> Levels {
        levels_of(self.book@)
    }
}

impl OrderBook {
    /// The side whose orders the book holds.
    pub closed spec fn side(&self) -> Side {
        self.side
    }

    /// The book's invariant: no level is empty, a level's orders share its
    /// price, every order stands on the book's side and carries an
    /// identifier, and the levels are strictly ordered, best price first.
    pub open spec fn wf(&self) -> bool {
        well_formed(self.side(), self@)
    }

    /// An empty book for `side`.
    pub fn new(side: Side) -> (res: OrderBook)
        ensures
            res.side() == side,
            res@ == Levels::empty(),
            res.wf(),
    {
        let res = OrderBook { book: Vec::new(), side: side };
        res
    }

    /// A copy of the levels, which later changes to the book do not reach.
    pub fn get_book(&self) -> (snapshot: Vec<VecDeque<OpenLimitOrder>>)
        ensures
            levels_of(snapshot@) == self@,
    {
        let snapshot = self.book.clone();
        assert(levels_of(snapshot@) =~= self@);
        snapshot
    }

    /// Admits `t` to the book. An order of the other side is turned down and
    /// the book stays as it was. Otherwise the order, with a fresh identifier
    /// if it had none, joins the tail of the level of its price, or becomes a
    /// level of its own in priority order, and is returned as it now rests.
    pub fn add_order(&mut self, t: OpenLimitOrder) -> (res: Result<OpenLimitOrder, BookError>)
        requires
            old(self).wf(),
        ensures
            final(self).wf(),
            final(self).side() == old(self).side(),
            t.side != old(self).side() ==> res == Err::<OpenLimitOrder, BookError>(
                BookError::WrongSide,
            ) && final(self)@ == old(self)@,
            t.side == old(self).side() ==> res is Ok && admitted(t, res.unwrap()) && final(self)@
                == insert_order(old(self).side(), old(self)@, res.unwrap()),
    {
        if t.side != self.side {
            return Err(BookError::WrongSide);
        }
        let mut order = t;
        if t.id == 0 {
            order.id = fresh_id();
            proof {
                lemma_random_id_is_set(order.id);
            }
        }
        // Look for the level of the order's price, or else for the first
        // level that the order outranks.
        let mut queue_index: Option<usize> = None;
        let mut insert_index: Option<usize> = None;
        let mut index: usize = 0;
        while index < self.book.len()
            invariant_except_break
                queue_index is None,
                insert_index is None,
            invariant
                self.wf(),
                *self == *old(self),
                index <= self.book.len(),
                forall|i: int|
                    0 <= i < index ==> outranks(self.side(), (#[trigger] self@[i])[0].price, t.price),
            ensures
                match (queue_index, insert_index) {
                    (Some(q), None) => q == index && index < self.book.len()
                        && self@[index as int][0].price == t.price,
                    (None, Some(i)) => i == index && index < self.book.len()
                        && self@[index as int][0].price != t.price
                        && !outranks(self.side(), self@[index as int][0].price, t.price),
                    (None, None) => index == self.book.len(),
                    (Some(_), Some(_)) => false,
                },
            decreases self.book.len() - index,
        {
            let price = self.book[index][0].price;
            if price == t.price {
                queue_index = Some(index);
                break;
            } else if price < t.price && self.side == Side::Buy {
                insert_index = Some(index);
                break;
            } else if price > t.price && self.side == Side::Sell {
                insert_index = Some(index);
                break;
            }
            index += 1;
        }
        proof {
            lemma_slot_is(self.side(), self@, order.price, index as int);
            lemma_insert_keeps_well_formed(self.side(), self@, order);
        }
        match queue_index {
            Some(queue_index) => {
                self.book[queue_index].push_back(order);
            },
            None => {
                let mut orders: VecDeque<OpenLimitOrder> = VecDeque::new();
                orders.push_back(order);
                match insert_index {
                    Some(insert_index) => {
                        self.book.insert(insert_index, orders);
                    },
                    None => {
                        self.book.push(orders);
                    },
                }
            },
        }
        assert(self@ =~= insert_order(old(self).side(), old(self)@, order));
        Ok(order)
    }

    /// Where the order with the identifier of `t` rests: the index of its
    /// level and its place in that level's queue, or nothing twice if no
    /// resting order carries the identifier. Of several orders with one
    /// identifier, the first in priority order is found.
    pub fn find_order(&self, t: OpenLimitOrder) -> (res: (Option<usize>, Option<usize>))
        ensures
            res.0 is Some <==> holds_id(self@, t.id),
            res.1 is Some <==> holds_id(self@, t.id),
            holds_id(self@, t.id) ==> is_first_with_id(
                self@,
                t.id,
                res.0.unwrap() as int,
                res.1.unwrap() as int,
            ),
    {
        let mut i: usize = 0;
        while i < self.book.len()
            invariant
                i <= self.book.len(),
                forall|a: int, b: int|
                    0 <= a < i && 0 <= b < self@[a].len() ==> (#[trigger] self@[a][b]).id != t.id,
            decreases self.book.len() - i,
        {
            let order_queue = &self.book[i];
            let mut j: usize = 0;
            while j < order_queue.len()
                invariant
                    i < self.book.len(),
                    self@[i as int] == order_queue@,
                    j <= order_queue.len(),
                    forall|b: int| 0 <= b < j ==> (#[trigger] self@[i as int][b]).id != t.id,
                    forall|a: int, b: int|
                        0 <= a < i && 0 <= b < self@[a].len() ==> (#[trigger] self@[a][b]).id
                            != t.id,
                decreases order_queue.len() - j,
            {
                if order_queue[j].id == t.id {
                    return (Some(i), Some(j));
                }
                j += 1;
            }
            i += 1;
        }
        (None, None)
    }

    /// Cancels the resting order that carries the identifier of `t`. If no
    /// order carries it, the book stays as it was. A level that the order
    /// leaves empty is dropped.
    pub fn remove_order(&mut self, t: OpenLimitOrder) -> (res: Result<(), BookError>)
        requires
            old(self).wf(),
        ensures
            final(self).wf(),
            final(self).side() == old(self).side(),
            res is Ok <==> holds_id(old(self)@, t.id),
            res is Err ==> res == Err::<(), BookError>(BookError::NotFound) && final(self)@ == old(
                self,
            )@,
            res is Ok ==> exists|i: int, j: int|
                is_first_with_id(old(self)@, t.id, i, j) && final(self)@ == without(
                    old(self)@,
                    i,
                    j,
                ),
    {
        let (queue_index, order_index) = self.find_order(t);
        match (queue_index, order_index) {
            (Some(queue_index), Some(order_index)) => {
                proof {
                    lemma_without_keeps_well_formed(
                        self.side(),
                        self@,
                        queue_index as int,
                        order_index as int,
                    );
                }
                let _ = self.book[queue_index].remove(order_index);
                if self.book[queue_index].len() == 0 {
                    self.book.remove(queue_index);
                }
                assert(self@ =~= without(old(self)@, queue_index as int, order_index as int));
                Ok(())
            },
            _ => Err(BookError::NotFound),
        }
    }

    /// The price-eligibility rule of the book's side: whether a resting order
    /// at `candidate_order_price` may fill an order whose limit is
    /// `to_fill_price`.
    pub fn valid_price(&self, to_fill_price: u32, candidate_order_price: u32) -> (ok: bool)
        ensures
            ok == acceptable(self.side(), to_fill_price, candidate_order_price),
    {
        if self.side == Side::Buy {
            return to_fill_price <= candidate_order_price;
        }
        to_fill_price >= candidate_order_price
    }

    /// Fills `to_fill` from the book, which must be that of the other side,
    /// and returns the resting orders that were used, in the order in which
    /// they were taken: best price first, oldest first within a price. If the
    /// last of them was needed only in part, it is returned whole, and its
    /// unused part goes back to the book as a new order.
    ///
    /// The attempt fails when the acceptable resting orders do not cover the
    /// amount. If the whole book was drained in the attempt, every order is
    /// put back and the book is as it was. If orders at unacceptable prices
    /// are left, the acceptable ones that were taken are not put back.
    pub fn fill_order_helper(&mut self, to_fill: OpenLimitOrder) -> (res: Result<
        Vec<OpenLimitOrder>,
        BookError,
    >)
        requires
            old(self).wf(),
        ensures
            final(self).wf(),
            final(self).side() == old(self).side(),
            book_after(
                old(self).side(),
                fill_outcome(old(self).side(), old(self)@, to_fill),
                final(self)@,
            ),
            match fill_outcome(old(self).side(), old(self)@, to_fill) {
                FillOutcome::Refused { error, .. } => res == Err::<Vec<OpenLimitOrder>, BookError>(
                    error,
                ),
                FillOutcome::Filled { taken, .. } => res is Ok && res.unwrap()@ == taken,
            },
    {
        if to_fill.side == self.side {
            return Err(BookError::WrongSide);
        }
        if self.book.len() == 0 {
            assert(self@.len() == 0);
            return Err(BookError::CantFillSize);
        }
        let ghost side = self.side();
        let ghost book = self@;
        let ghost all = book.flatten();
        let ghost eligible = eligible_count(side, all, to_fill.price);
        let ghost candidates = all.take(eligible as int);
        proof {
            lemma_eligible_count_bounds(side, all, to_fill.price);
            assert(candidates.skip(0) =~= candidates);
        }
        if !self.valid_price(to_fill.price, self.book[0][0].price) {
            return Err(BookError::CantFillPrice);
        }
        let mut remaining: i64 = to_fill.amount as i64;
        let mut orders: Vec<OpenLimitOrder> = Vec::new();

        // Take order after order from the best level, for as long as its
        // price is acceptable.
        while self.valid_price(to_fill.price, self.book[0][0].price)
            invariant_except_break
                self.book@.len() > 0,
                orders@.len() > 0 ==> remaining > 0,
                orders@.len() == 0 ==> acceptable(side, to_fill.price, self@[0][0].price),
            invariant
                self.wf(),
                self.side() == side,
                side == old(self).side(),
                book == old(self)@,
                well_formed(side, book),
                book.len() > 0,
                all == book.flatten(),
                eligible == eligible_count(side, all, to_fill.price),
                candidates == all.take(eligible as int),
                to_fill.side != side,
                orders@.len() <= eligible <= all.len(),
                orders@ == all.take(orders@.len() as int),
                self@ == after_taking(book, orders@.len()),
                self@.flatten() == all.skip(orders@.len() as int),
                remaining == to_fill.amount - total_amount(orders@),
                -0x1_0000_0000 < remaining <= 0xFFFF_FFFF,
                forall|i: int|
                    0 <= i < orders@.len() ==> (#[trigger] orders@[i]).side == side && orders@[i].id
                        != 0,
                remaining > 0 || orders@.len() == 0 ==> orders_needed(
                    candidates,
                    to_fill.amount as int,
                ) == orders@.len() + orders_needed(
                    candidates.skip(orders@.len() as int),
                    remaining as int,
                ),
                remaining <= 0 && orders@.len() > 0 ==> orders_needed(
                    candidates,
                    to_fill.amount as int,
                ) == orders@.len(),
            ensures
                orders@.len() > 0,
                remaining > 0 ==> self@.len() > 0 && !acceptable(
                    side,
                    to_fill.price,
                    self@[0][0].price,
                ),
            decreases all.len() - orders@.len(),
        {
            let ghost before = self@;
            let ghost taken = orders@;
            let ghost count = orders@.len() as int;
            let ghost wanted = remaining as int;
            proof {
                assert(before[0] == self.book@[0]@);
                lemma_flatten_front(before);
                lemma_without_keeps_well_formed(side, before, 0, 0);
                lemma_eligible_count_bounds(side, all, to_fill.price);
                assert(all[count] == before[0][0]);
                assert(candidates.skip(count)[0] == all[count]);
                assert(candidates.skip(count).drop_first() =~= candidates.skip(count + 1));
                lemma_totals_push(taken, all[count]);
            }
            let order = self.book[0].pop_front();
            match order {
                Some(order) => {
                    orders.push(order);
                    remaining = remaining - order.amount as i64;
                },
                None => {},
            }
            if self.book[0].len() == 0 {
                self.book.remove(0);
            }
            assert(self@ =~= without_front(before));
            assert(orders@ == taken.push(all[count]));
            assert(orders_needed(candidates.skip(count), wanted) == if all[count].amount >= wanted {
                1
            } else {
                1 + orders_needed(candidates.skip(count + 1), wanted - all[count].amount)
            });
            if remaining <= 0 {
                break;
            }
            if self.book.len() == 0 {
                // The book is drained and the order is not filled: put every
                // order back.
                proof {
                    assert(orders@ =~= all);
                    assert(candidates =~= all);
                    assert(candidates.skip(all.len() as int) =~= Seq::empty());
                    assert(all.take(all.len() as int) =~= all);
                    assert(orders_needed(candidates, to_fill.amount as int) == all.len());
                    lemma_admit_all_restores(side, book);
                }
                let mut i: usize = 0;
                while i < orders.len()
                    invariant
                        i <= orders.len(),
                        self.wf(),
                        self.side() == side,
                        self@ == admit_all(side, Levels::empty(), orders@.take(i as int)),
                        forall|k: int|
                            0 <= k < orders@.len() ==> (#[trigger] orders@[k]).side == side
                                && orders@[k].id != 0,
                    decreases orders.len() - i,
                {
                    proof {
                        assert(orders@.take(i + 1).drop_last() =~= orders@.take(i as int));
                    }
                    let _ = self.add_order(orders[i]);
                    i += 1;
                }
                assert(orders@.take(orders@.len() as int) =~= orders@);
                return Err(BookError::CantFillSize);
            }
        }

        if remaining > 0 {
            // The best price left is not acceptable: the eligible orders
            // are exactly those that were taken.
            proof {
                lemma_flatten_front(self@);
                lemma_eligible_count_bounds(side, all, to_fill.price);
                assert(eligible == orders@.len());
            }
            return Err(BookError::CantFillPrice);
        }
        if remaining == 0 {
            return Ok(orders);
        }
        // The last order was needed only in part: what is left of it goes
        // back to the book as a new order.
        let last_order = orders[orders.len() - 1];
        let admitted = self.add_order(
            OpenLimitOrder {
                id: 0,
                price: last_order.price,
                side: last_order.side,
                amount: (-remaining) as u32,
                symbol: last_order.symbol,
            },
        );
        assert(admitted.unwrap() == residual(
            last_order,
            -remaining as int,
            admitted.unwrap().id,
        ));
        Ok(orders)
    }

    /// The volume-weighted average price of `orders`, as the fraction of
    /// their worth over their amounts.
    pub fn average_price(&self, orders: Vec<OpenLimitOrder>) -> (avg: AveragePrice)
        ensures
            avg.numerator == total_cost(orders@),
            avg.denominator == total_amount(orders@),
    {
        let total_shares = shares_of(&orders);
        let mut worth: u128 = 0;
        let mut i: usize = 0;
        while i < orders.len()
            invariant
                i <= orders.len(),
                worth == total_cost(orders@.take(i as int)),
                worth <= i * 0xFFFF_FFFE_0000_0001,
            decreases orders.len() - i,
        {
            let price = orders[i].price as u128;
            let amount = orders[i].amount as u128;
            proof {
                assert(price * amount <= 0xFFFF_FFFE_0000_0001) by (nonlinear_arith)
                    requires
                        price <= 0xFFFF_FFFF,
                        amount <= 0xFFFF_FFFF,
                ;
                assert(orders@.take(i + 1) =~= orders@.take(i as int).push(orders@[i as int]));
                lemma_totals_push(orders@.take(i as int), orders@[i as int]);
            }
            worth = worth + price * amount;
            i += 1;
        }
        assert(orders@.take(orders@.len() as int) =~= orders@);
        AveragePrice { numerator: worth, denominator: total_shares }
    }

    /// Fills `to_fill` from the book as `fill_order_helper` does, and
    /// reports the average price of the execution: the worth of the orders
    /// that were used over the amount filled, with the last order counted
    /// for the part of it that was used.
    pub fn fill_order(&mut self, to_fill: OpenLimitOrder) -> (res: Result<FillResult, BookError>)
        requires
            old(self).wf(),
        ensures
            final(self).wf(),
            final(self).side() == old(self).side(),
            book_after(
                old(self).side(),
                fill_outcome(old(self).side(), old(self)@, to_fill),
                final(self)@,
            ),
            match fill_outcome(old(self).side(), old(self)@, to_fill) {
                FillOutcome::Refused { error, .. } => res == Err::<FillResult, BookError>(error),
                FillOutcome::Filled { taken, leftover, .. } => {
                    &&& res is Ok
                    &&& res.unwrap().avg_price.numerator == total_cost(taken) - leftover
                        * taken.last().price
                    &&& res.unwrap().avg_price.denominator == to_fill.amount
                },
            },
    {
        let mut orders_used = match self.fill_order_helper(to_fill) {
            Ok(orders_used) => orders_used,
            Err(error) => {
                return Err(error);
            },
        };
        let ghost taken = orders_used@;
        proof {
            lemma_filled(old(self).side(), old(self)@, to_fill);
        }
        let extra = shares_of(&orders_used) - to_fill.amount as u128;
        if extra > 0 {
            // The last order was split: count the part of it that was used.
            match orders_used.pop() {
                Some(last_order) => {
                    let mut used = last_order;
                    used.amount = last_order.amount - extra as u32;
                    orders_used.push(used);
                    proof {
                        assert(taken =~= taken.drop_last().push(last_order));
                        lemma_totals_push(taken.drop_last(), last_order);
                        lemma_totals_push(taken.drop_last(), used);
                        assert(last_order.price * (last_order.amount - extra)
                            == last_order.price * last_order.amount - extra * last_order.price)
                            by (nonlinear_arith);
                    }
                },
                None => {},
            }
            return Ok(FillResult { avg_price: self.average_price(orders_used) });
        }
        Ok(FillResult { avg_price: self.average_price(orders_used) })
    }
}

/// The units that `orders` hold together.
fn shares_of(orders: &Vec<OpenLimitOrder>) -> (total: u128)
    ensures
        total == total_amount(orders@),
{
    let mut total: u128 = 0;
    let mut i: usize = 0;
    while i < orders.len()
        invariant
            i <= orders.len(),
            total == total_amount(orders@.take(i as int)),
            total <= i * 0xFFFF_FFFF,
        decreases orders.len() - i,
    {
        proof {
            assert(orders@.take(i + 1) =~= orders@.take(i as int).push(orders@[i as int]));
            lemma_totals_push(orders@.take(i as int), orders@[i as int]);
        }
        total = total + orders[i].amount as u128;
        i += 1;
    }
    assert(orders@.take(orders@.len() as int) =~= orders@);
    total
}

} // verus!
