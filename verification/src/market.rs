use vstd::prelude::*;

verus! {

/// Mathematical image of a [`Market`].
pub ghost struct MarketView {
    pub symbol: Seq<char>,
    pub max_price: u64,
    pub min_price: u64,
}

/// A listed market: its symbol and the half-open price band
/// `[min_price, max_price)` its order book covers.
#[derive(Debug)]
pub struct Market {
    symbol: String,
    max_price: u64,
    min_price: u64,
}

impl View for Market {
    type V = MarketView;

    closed spec fn view(&self) -> MarketView {
        MarketView { symbol: self.symbol@, max_price: self.max_price, min_price: self.min_price }
    }
}

impl Clone for Market {
    fn clone(&self) -> (r: Self)
        ensures
            r@ == self@,
    {
        Market {
            symbol: self.symbol.clone(),
            max_price: self.max_price,
            min_price: self.min_price,
        }
    }
}

impl Market {
    /// Creates a new market.
    pub fn new(symbol: &str, max_price: u64, min_price: u64) -> (r: Self)
        ensures
            r@ == (MarketView { symbol: symbol@, max_price, min_price }),
    {
        Self { symbol: symbol.to_owned(), max_price, min_price }
    }

    /// Get market symbol.
    pub fn get_symbol(&self) -> (r: &String)
        ensures
            r@ == self@.symbol,
    {
        &self.symbol
    }

    /// Get max permitted price (exclusive).
    pub fn get_max_price(&self) -> (r: u64)
        ensures
            r == self@.max_price,
    {
        self.max_price
    }

    /// Get min permitted price (inclusive).
    pub fn get_min_price(&self) -> (r: u64)
        ensures
            r == self@.min_price,
    {
        self.min_price
    }
}

} // verus!
