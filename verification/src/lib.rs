//! A limit-order matching engine: one price-ordered book of resting orders per
//! side, with insertion, cancellation and matching under price-time priority.

pub mod ids;
pub mod laws;
pub mod market;
pub mod matching;
pub mod model;
pub mod order;
pub mod order_book;

pub use crate::market::{add_order, get_order_book, Market, Placement};
pub use crate::order::{AveragePrice, BookError, FillResult, OpenLimitOrder, Side, Symbol};
pub use crate::order_book::OrderBook;

use std::collections::VecDeque;
use vstd::prelude::*;

verus! {

/// The place in `orders` of the first order that carries the identifier of
/// `t`, or nothing if no order in the queue carries it. The queue is left as
/// it was.
pub fn index_of_order_in_queue(t: OpenLimitOrder, orders: &mut VecDeque<OpenLimitOrder>) -> (res:
    Option<usize>)
    ensures
        final(orders)@ == old(orders)@,
        match res {
            Some(i) => {
                &&& i < old(orders)@.len()
                &&& old(orders)@[i as int].id == t.id
                &&& forall|k: int| 0 <= k < i ==> (#[trigger] old(orders)@[k]).id != t.id
            },
            None => forall|k: int|
                0 <= k < old(orders)@.len() ==> (#[trigger] old(orders)@[k]).id != t.id,
        },
{
    let mut i: usize = 0;
    while i < orders.len()
        invariant
            orders@ == old(orders)@,
            i <= orders.len(),
            forall|k: int| 0 <= k < i ==> (#[trigger] orders@[k]).id != t.id,
        decreases orders.len() - i,
    {
        if orders[i].id == t.id {
            return Some(i);
        }
        i += 1;
    }
    None
}

} // verus!
