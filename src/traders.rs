use vstd::prelude::*;

use crate::history::saturate;

verus! {

/// `(a + b) / 2` rounded half up: the clearing price between a bid and an ask.
pub open spec fn midpoint(a: int, b: int) -> int {
    (a + b + 1) / 2
}

pub fn midpoint_u32(a: u32, b: u32) -> (r: u32)
    ensures
        r as int == midpoint(a as int, b as int),
        a <= b ==> a <= r <= b,
        b <= a ==> b <= r <= a,
{
    ((a as u64 + b as u64 + 1) / 2) as u32
}

/// The step by which a bounded agent without a trade moves its quote.
pub open spec fn nudge(q: int) -> int {
    if q / 3 < 5 { q / 3 } else { 5 }
}

/// A buyer. With `max_price == None` it adapts by strikes (a run of days
/// without a trade); with `Some(max)` it averages towards realised prices and
/// never bids above `max`.
#[derive(Debug, PartialEq, Eq, Structural, Clone, Copy)]
pub struct Buyer {
    pub bid_price: u32,
    pub strikes: u8,
    pub max_price: Option<u32>,
}

/// A seller, the mirror of [`Buyer`]: `min_price` is the floor of a bounded one.
#[derive(Debug, PartialEq, Eq, Structural, Clone, Copy)]
pub struct Seller {
    pub ask_price: u32,
    pub strikes: u8,
    pub min_price: Option<u32>,
}

pub open spec fn strike_after(strikes: u8, price: Option<u32>) -> u8 {
    if price is Some { 0 } else if strikes == u8::MAX { u8::MAX } else { (strikes + 1) as u8 }
}

impl Buyer {
    /// The buyer after learning whether it traded today, and at what price.
    pub open spec fn resolved(self, price: Option<u32>) -> Buyer {
        match self.max_price {
            None => Buyer { bid_price: self.bid_price, strikes: strike_after(self.strikes, price), max_price: None },
            Some(max) => {
                let moved = match price {
                    Some(p) => midpoint(self.bid_price as int, p as int),
                    None => self.bid_price + nudge(self.bid_price as int),
                };
                Buyer {
                    bid_price: if moved > max { max } else { moved as u32 },
                    strikes: self.strikes,
                    max_price: self.max_price,
                }
            },
        }
    }

    /// The buyer after the day closed at market price `price` (0: none yet).
    pub open spec fn closed(self, price: u32) -> Buyer {
        let p: int = if price == 0 { self.bid_price as int } else { price as int };
        if self.max_price is Some {
            self
        } else if self.strikes > 0 {
            let a = self.bid_price + self.bid_price / 2;
            let b = p + p / 2;
            Buyer { bid_price: saturate(if a > b { a } else { b }), ..self }
        } else if p < self.bid_price {
            Buyer { bid_price: midpoint(p, self.bid_price as int) as u32, ..self }
        } else {
            self
        }
    }

    /// A strike-based buyer bidding `bid_price`.
    pub fn new(bid_price: u32) -> (r: Buyer)
        ensures
            r == (Buyer { bid_price, strikes: 0, max_price: None }),
    {
        Buyer { bid_price, strikes: 0, max_price: None }
    }

    /// A bounded buyer that never bids above `max_price`.
    pub fn bounded(bid_price: u32, max_price: u32) -> (r: Buyer)
        ensures
            r == (Buyer {
                bid_price: if bid_price > max_price { max_price } else { bid_price },
                strikes: 0,
                max_price: Some(max_price),
            }),
    {
        let bid_price = if bid_price > max_price { max_price } else { bid_price };
        Buyer { bid_price, strikes: 0, max_price: Some(max_price) }
    }

    pub fn bid_price(&self) -> (r: u32)
        ensures
            r == self.bid_price,
    {
        self.bid_price
    }

    pub fn strikes(&self) -> (r: u8)
        ensures
            r == self.strikes,
    {
        self.strikes
    }

    /// Records whether today's offer traded (`Some(price)`) or not (`None`).
    pub fn resolve_offer(&mut self, price: Option<u32>)
        ensures
            *final(self) == old(self).resolved(price),
    {
        match self.max_price {
            None => {
                if price.is_some() {
                    self.strikes = 0;
                } else if self.strikes < u8::MAX {
                    self.strikes = self.strikes + 1;
                }
            },
            Some(max) => {
                let moved: u64 = match price {
                    Some(p) => midpoint_u32(self.bid_price, p) as u64,
                    None => {
                        let step = if self.bid_price / 3 < 5 { self.bid_price / 3 } else { 5 };
                        self.bid_price as u64 + step as u64
                    },
                };
                self.bid_price = if moved > max as u64 { max } else { moved as u32 };
            },
        }
    }

    /// Adapts a strike-based bid to the day's market price (0: no price yet,
    /// the bid itself is the reference). A bounded buyer is left as it is.
    pub fn close_day(&mut self, price: u32)
        ensures
            *final(self) == old(self).closed(price),
    {
        if self.max_price.is_some() {
            return;
        }
        let price = if price == 0 { self.bid_price } else { price };
        if self.strikes > 0 {
            // no trade today: bid more aggressively
            let a = self.bid_price as u64 + self.bid_price as u64 / 2;
            let b = price as u64 + price as u64 / 2;
            let m = if a > b { a } else { b };
            self.bid_price = if m > u32::MAX as u64 { u32::MAX } else { m as u32 };
        } else if price < self.bid_price {
            // paid more than the market: move halfway towards it
            self.bid_price = midpoint_u32(price, self.bid_price);
        }
    }
}

impl Seller {
    /// The seller after learning whether it traded today, and at what price.
    pub open spec fn resolved(self, price: Option<u32>) -> Seller {
        match self.min_price {
            None => Seller { ask_price: self.ask_price, strikes: strike_after(self.strikes, price), min_price: None },
            Some(min) => {
                let moved = match price {
                    Some(p) => midpoint(self.ask_price as int, p as int),
                    None => self.ask_price - nudge(self.ask_price as int),
                };
                Seller {
                    ask_price: if moved < min { min } else { moved as u32 },
                    strikes: self.strikes,
                    min_price: self.min_price,
                }
            },
        }
    }

    /// The seller after the day closed at market price `price` (0: none yet).
    pub open spec fn closed(self, price: u32) -> Seller {
        let p: int = if price == 0 { self.ask_price as int } else { price as int };
        if self.min_price is Some {
            self
        } else if self.strikes > 0 {
            let a = self.ask_price - self.ask_price / 2;
            let b = p - p / 2;
            Seller { ask_price: (if a < b { a } else { b }) as u32, ..self }
        } else if p > self.ask_price {
            Seller { ask_price: midpoint(p, self.ask_price as int) as u32, ..self }
        } else {
            self
        }
    }

    /// A strike-based seller asking `ask_price`.
    pub fn new(ask_price: u32) -> (r: Seller)
        ensures
            r == (Seller { ask_price, strikes: 0, min_price: None }),
    {
        Seller { ask_price, strikes: 0, min_price: None }
    }

    /// A bounded seller that never asks below `min_price`.
    pub fn bounded(ask_price: u32, min_price: u32) -> (r: Seller)
        ensures
            r == (Seller {
                ask_price: if ask_price < min_price { min_price } else { ask_price },
                strikes: 0,
                min_price: Some(min_price),
            }),
    {
        let ask_price = if ask_price < min_price { min_price } else { ask_price };
        Seller { ask_price, strikes: 0, min_price: Some(min_price) }
    }

    pub fn ask_price(&self) -> (r: u32)
        ensures
            r == self.ask_price,
    {
        self.ask_price
    }

    pub fn strikes(&self) -> (r: u8)
        ensures
            r == self.strikes,
    {
        self.strikes
    }

    /// Records whether today's offer traded (`Some(price)`) or not (`None`).
    pub fn resolve_offer(&mut self, price: Option<u32>)
        ensures
            *final(self) == old(self).resolved(price),
    {
        match self.min_price {
            None => {
                if price.is_some() {
                    self.strikes = 0;
                } else if self.strikes < u8::MAX {
                    self.strikes = self.strikes + 1;
                }
            },
            Some(min) => {
                let moved: u32 = match price {
                    Some(p) => midpoint_u32(self.ask_price, p),
                    None => {
                        let step = if self.ask_price / 3 < 5 { self.ask_price / 3 } else { 5 };
                        self.ask_price - step
                    },
                };
                self.ask_price = if moved < min { min } else { moved };
            },
        }
    }

    /// Adapts a strike-based ask to the day's market price (0: no price yet,
    /// the ask itself is the reference). A bounded seller is left as it is.
    pub fn close_day(&mut self, price: u32)
        ensures
            *final(self) == old(self).closed(price),
    {
        if self.min_price.is_some() {
            return;
        }
        let price = if price == 0 { self.ask_price } else { price };
        if self.strikes > 0 {
            // no sale today: ask less
            let a = self.ask_price - self.ask_price / 2;
            let b = price - price / 2;
            self.ask_price = if a < b { a } else { b };
        } else if price > self.ask_price {
            // sold below the market: move halfway towards it
            self.ask_price = midpoint_u32(price, self.ask_price);
        }
    }
}

} // verus!
