//! The values that the engine works on: sides, instruments, orders and errors.

use vstd::prelude::*;

verus! {

/// The side of the market that an order, or a whole book, stands on.
#[derive(Debug, Clone, Copy, PartialEq, Eq, Structural)]
pub enum Side {
    Buy,
    Sell,
}

/// The instruments that can be traded.
#[derive(Debug, Clone, Copy, PartialEq, Eq, Hash, Structural)]
pub enum Symbol {
    AAPL,
    MSFT,
    AMZN,
}

/// A limit order. `id` is the 128-bit value of the order's UUID; zero is the
/// nil UUID and marks an order that no book has admitted yet.
#[derive(Debug, Clone, Copy, PartialEq, Eq, Structural)]
pub struct OpenLimitOrder {
    pub id: u128,
    pub amount: u32,
    pub symbol: Symbol,
    pub price: u32,
    pub side: Side,
}

/// Why a book turned an operation down.
#[derive(Debug, Clone, Copy, PartialEq, Eq, Structural)]
pub enum BookError {
    /// The order stands on a side that the operation cannot serve.
    WrongSide,
    /// No resting order carries the identifier.
    NotFound,
    /// The best resting price does not meet the order's limit.
    CantFillPrice,
    /// The resting orders at acceptable prices do not add up to the order's amount.
    CantFillSize,
}

/// What `BookError::WrongSide` says in words.
pub const ERR_WRONG_SIDE: &'static str = "wrong side";

/// What `BookError::NotFound` says in words.
pub const ERR_NO_SUCH_ORDER: &'static str = "no such order";

/// What `BookError::CantFillPrice` says in words.
pub const ERR_CANT_FILL_PRICE: &'static str = "Can't fill order, nothing available for that price";

/// What `BookError::CantFillSize` says in words.
pub const ERR_CANT_FILL_SIZE: &'static str = "Can't fill order, order too large";

impl BookError {
    /// The error in words.
    pub fn message(&self) -> (text: &'static str)
        ensures
            text == match self {
                BookError::WrongSide => ERR_WRONG_SIDE,
                BookError::NotFound => ERR_NO_SUCH_ORDER,
                BookError::CantFillPrice => ERR_CANT_FILL_PRICE,
                BookError::CantFillSize => ERR_CANT_FILL_SIZE,
            },
    {
        match self {
            BookError::WrongSide => ERR_WRONG_SIDE,
            BookError::NotFound => ERR_NO_SUCH_ORDER,
            BookError::CantFillPrice => ERR_CANT_FILL_PRICE,
            BookError::CantFillSize => ERR_CANT_FILL_SIZE,
        }
    }
}

/// An average price as an exact fraction: the money that changed hands over
/// the units that did. The fraction is not reduced, and its denominator is
/// zero when no unit changed hands.
#[derive(Debug, Clone, Copy, PartialEq, Eq, Structural)]
pub struct AveragePrice {
    pub numerator: u128,
    pub denominator: u128,
}

/// What a successful match reports: the volume-weighted average price at
/// which the incoming order was executed.
#[derive(Debug, Clone, Copy, PartialEq, Eq, Structural)]
pub struct FillResult {
    pub avg_price: AveragePrice,
}

} // verus!
