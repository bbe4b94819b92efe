use vstd::prelude::*;

pub mod laws;
pub mod orderbook;
pub mod prelude;

verus! {

/// The side of the book an order belongs to.
#[derive(Debug, Clone, Copy, PartialEq, Eq, Structural)]
pub enum Side {
    Buy,
    Sell,
}

impl Side {
    /// The side that an order of this side trades against.
    pub open spec fn opposite(self) -> Side {
        match self {
            Side::Buy => Side::Sell,
            Side::Sell => Side::Buy,
        }
    }
}

/// A resting limit order. `quantity` is what is still open.
#[derive(Debug, Clone)]
pub struct Order {
    pub id: u64,
    pub price: u64,
    pub quantity: u64,
    pub timestamp: u128,
}

/// One match between a resting (maker) order and an incoming (taker) order.
/// `price` is always the maker's price.
#[derive(Debug, Clone)]
pub struct Trade {
    pub price: u64,
    pub quantity: u64,
    pub maker_id: u64,
    pub taker_id: u64,
}

/// On a book side of side `side`, a resting price `a` ranks strictly ahead of `b`:
/// the highest bid comes first, the lowest ask comes first.
pub open spec fn ranks_before(side: Side, a: u64, b: u64) -> bool {
    match side {
        Side::Buy => a > b,
        Side::Sell => a < b,
    }
}

/// Order of price level keys `a` and `b`, by the ranking of `a`'s side; equal prices tie.
pub open spec fn level_order(a: (u64, Side), b: (u64, Side)) -> core::cmp::Ordering {
    if ranks_before(a.1, a.0, b.0) {
        core::cmp::Ordering::Less
    } else if a.0 == b.0 {
        core::cmp::Ordering::Equal
    } else {
        core::cmp::Ordering::Greater
    }
}

/// Key of one price level: a price on one side of the book.
#[derive(Debug, Clone, Copy, PartialEq, Eq, Structural)]
pub struct PriceLevel {
    price: u64,
    side: Side,
}

impl View for PriceLevel {
    type V = (u64, Side);

    closed spec fn view(&self) -> (u64, Side) {
        (self.price, self.side)
    }
}

impl PriceLevel {
    pub fn new(price: u64, side: Side) -> (r: Self)
        ensures
            r@ == (price, side),
    {
        Self { price, side }
    }

    /// Orders two keys so that the better price of `self`'s side comes first:
    /// higher prices first on the buy side, lower prices first on the sell side.
    /// Keys of different sides are not meant to be compared.
    pub fn cmp(&self, other: &Self) -> (r: core::cmp::Ordering)
        ensures
            r == level_order(self@, other@),
    {
        let better = match self.side {
            Side::Buy => self.price > other.price,
            Side::Sell => self.price < other.price,
        };
        if better {
            core::cmp::Ordering::Less
        } else if self.price == other.price {
            core::cmp::Ordering::Equal
        } else {
            core::cmp::Ordering::Greater
        }
    }
}

impl PartialOrd for PriceLevel {
    fn partial_cmp(&self, other: &Self) -> (r: Option<core::cmp::Ordering>) {
        Some(self.cmp(other))
    }
}

impl vstd::std_specs::cmp::PartialOrdSpecImpl for PriceLevel {
    open spec fn obeys_partial_cmp_spec() -> bool {
        true
    }

    open spec fn partial_cmp_spec(&self, other: &Self) -> Option<core::cmp::Ordering> {
        Some(level_order(self@, other@))
    }
}

} // verus!
