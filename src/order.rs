//! The value types of the book: sides, orders, trades and the read views.
use vstd::prelude::*;

verus! {

/// The side of the book an order rests on.
#[derive(Clone, Copy, Debug, PartialEq, Eq, Structural)]
pub enum Side {
    /// A buy order: bids compete upward.
    Bid,
    /// A sell order: asks compete downward.
    Ask,
}

impl Side {
    /// The other side of the book.
    pub open spec fn opposite(self) -> Side {
        match self {
            Side::Bid => Side::Ask,
            Side::Ask => Side::Bid,
        }
    }
}

/// An order as the book stores it.
#[derive(Clone, Debug)]
pub struct Order {
    /// The key under which the order is indexed.
    pub identifier: String,
    /// The limit price, in ticks.
    pub price: i64,
    /// The size, in lots. Matching never changes it.
    pub quantity: u64,
    pub side: Side,
    /// Free-form status; the book stamps every placed order "active".
    pub status: String,
}

/// One pairing produced by a matching pass.
#[derive(Clone, Debug)]
pub struct Trade {
    pub ask: Order,
    pub bid: Order,
    /// Twice the transaction price: the sum of the two crossing level prices.
    pub price_x2: i128,
}

/// The top-of-book statistics.
#[derive(Clone, Copy, Debug, PartialEq, Eq, Structural)]
pub struct Quote {
    /// Best ask price minus best bid price, in ticks (negative while crossed).
    pub spread: i128,
    /// Twice the mid price: best ask price plus best bid price.
    pub mid_x2: i128,
}

/// One line of a depth view: a price level and the total quantity resting there.
#[derive(Clone, Copy, Debug, PartialEq, Eq, Structural)]
pub struct LevelDepth {
    pub price: i64,
    pub total: u128,
}

impl LevelDepth {
    pub open spec fn view(&self) -> (int, int) {
        (self.price as int, self.total as int)
    }
}

/// `a` is a price at least as good as `b` on `side`: higher for bids, lower for asks.
pub open spec fn at_least_as_good(side: Side, a: int, b: int) -> bool {
    match side {
        Side::Bid => a >= b,
        Side::Ask => a <= b,
    }
}

/// The status stamped on every placed order.
pub open spec fn active_status() -> Seq<char> {
    "active"@
}

/// `r` is `o` as the book stores it after placing: the same fields, status "active".
pub open spec fn stamped_from(r: Order, o: Order) -> bool {
    &&& r.identifier == o.identifier
    &&& r.price == o.price
    &&& r.quantity == o.quantity
    &&& r.side == o.side
    &&& r.status@ == active_status()
}

/// Copies an order field by field.
pub fn copy_order(o: &Order) -> (r: Order)
    ensures
        r == *o,
{
    Order {
        identifier: o.identifier.clone(),
        price: o.price,
        quantity: o.quantity,
        side: o.side,
        status: o.status.clone(),
    }
}

/// Compares two prices on `side`.
pub fn price_at_least_as_good(side: Side, a: i64, b: i64) -> (r: bool)
    ensures
        r == at_least_as_good(side, a as int, b as int),
{
    match side {
        Side::Bid => a >= b,
        Side::Ask => a <= b,
    }
}

} // verus!
