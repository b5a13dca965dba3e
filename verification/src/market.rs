//! The market of one instrument: its book of bids and its book of asks.

use crate::matching::{book_after, fill_outcome, total_cost, FillOutcome};
use crate::model::{insert_order, well_formed, Levels};
use crate::order::{FillResult, OpenLimitOrder, Side};
use crate::order_book::{admitted, levels_of, OrderBook};
use std::collections::VecDeque;
use vstd::pervasive::unreached;
use vstd::prelude::*;

verus! {

/// What became of an order that was submitted to a market.
#[derive(Debug, Clone, Copy, PartialEq, Eq, Structural)]
pub enum Placement {
    /// The order was executed at once, at this average price.
    Filled(FillResult),
    /// The order could not be executed and rests in the book of its side, as
    /// given here.
    Resting(OpenLimitOrder),
}

/// The bids and the asks of one instrument.
pub struct Market {
    buy: OrderBook,
    sell: OrderBook,
}

/// The side against which an order of `side` is matched.
pub open spec fn other_side(side: Side) -> Side {
    match side {
        Side::Buy => Side::Sell,
        Side::Sell => Side::Buy,
    }
}

impl Market {
    /// The levels of the book of `side`.
    pub closed spec fn book(&self, side: Side) -> Levels {
        match side {
            Side::Buy => self.buy@,
            Side::Sell => self.sell@,
        }
    }

    /// Whether each of the two books serves its own side.
    pub closed spec fn sides_in_place(&self) -> bool {
        self.buy.side() == Side::Buy && self.sell.side() == Side::Sell
    }

    /// The market's invariant: both books are well formed, each for its side.
    pub open spec fn wf(&self) -> bool {
        &&& self.sides_in_place()
        &&& well_formed(Side::Buy, self.book(Side::Buy))
        &&& well_formed(Side::Sell, self.book(Side::Sell))
    }

    /// A market in which nothing rests.
    pub fn new() -> (res: Market)
        ensures
            res.wf(),
            res.book(Side::Buy) == Levels::empty(),
            res.book(Side::Sell) == Levels::empty(),
    {
        Market { buy: OrderBook::new(Side::Buy), sell: OrderBook::new(Side::Sell) }
    }

    /// Tries to execute `order` at once against the book of the other side.
    /// If that book cannot fill it, the order joins the book of its own side
    /// and rests there. The book of the other side is then as the failed
    /// attempt left it.
    pub fn submit(&mut self, order: OpenLimitOrder) -> (res: Placement)
        requires
            old(self).wf(),
        ensures
            final(self).wf(),
            match fill_outcome(
                other_side(order.side),
                old(self).book(other_side(order.side)),
                order,
            ) {
                FillOutcome::Filled { taken, leftover, .. } => {
                    &&& res matches Placement::Filled(report)
                    &&& report.avg_price.numerator == total_cost(taken) - leftover
                        * taken.last().price
                    &&& report.avg_price.denominator == order.amount
                    &&& final(self).book(order.side) == old(self).book(order.side)
                },
                FillOutcome::Refused { .. } => {
                    &&& res matches Placement::Resting(resting)
                    &&& admitted(order, resting)
                    &&& final(self).book(order.side) == insert_order(
                        order.side,
                        old(self).book(order.side),
                        resting,
                    )
                },
            },
            book_after(
                other_side(order.side),
                fill_outcome(other_side(order.side), old(self).book(other_side(order.side)), order),
                final(self).book(other_side(order.side)),
            ),
    {
        match order.side {
            Side::Buy => match self.sell.fill_order(order) {
                Ok(report) => Placement::Filled(report),
                Err(_) => match self.buy.add_order(order) {
                    Ok(resting) => Placement::Resting(resting),
                    Err(_) => unreached(),
                },
            },
            Side::Sell => match self.buy.fill_order(order) {
                Ok(report) => Placement::Filled(report),
                Err(_) => match self.sell.add_order(order) {
                    Ok(resting) => Placement::Resting(resting),
                    Err(_) => unreached(),
                },
            },
        }
    }
}

/// Lets `t` rest in the book of its side, without an attempt to execute it,
/// and returns it as it rests: with a fresh identifier if it had none.
pub fn add_order(market: &mut Market, t: OpenLimitOrder) -> (resting: OpenLimitOrder)
    requires
        old(market).wf(),
    ensures
        final(market).wf(),
        admitted(t, resting),
        final(market).book(t.side) == insert_order(t.side, old(market).book(t.side), resting),
        final(market).book(other_side(t.side)) == old(market).book(other_side(t.side)),
{
    let added = match t.side {
        Side::Buy => market.buy.add_order(t),
        Side::Sell => market.sell.add_order(t),
    };
    match added {
        Ok(resting) => resting,
        Err(_) => unreached(),
    }
}

/// A copy of the levels of the book of `side`.
pub fn get_order_book(market: &Market, side: Side) -> (snapshot: Vec<VecDeque<OpenLimitOrder>>)
    ensures
        levels_of(snapshot@) == market.book(side),
{
    match side {
        Side::Buy => market.buy.get_book(),
        Side::Sell => market.sell.get_book(),
    }
}

} // verus!
