use vstd::prelude::*;

use crate::history::{sum_of, Statistics};
use crate::market::{opening_market, sellers_at_most, buyers_at_least, Market, Strategy, Trade};

verus! {

/// A registry of markets, one per good key; each key is registered once.
#[derive(Debug, PartialEq, Eq)]
pub struct Economy {
    pub goods: Vec<u64>,
    pub markets: Vec<Market>,
}

impl Economy {
    pub open spec fn wf(&self) -> bool {
        &&& self.goods@.len() == self.markets@.len()
        &&& forall|i: int, j: int| 0 <= i < j < self.goods@.len() ==> self.goods@[i] != self.goods@[j]
        &&& forall|i: int| 0 <= i < self.markets@.len() ==> (#[trigger] self.markets@[i]).wf()
    }

    /// The result of `add_good(good, price, volume)` on `old`, giving `new` and `r`.
    pub open spec fn registered(old: Economy, new: Economy, good: u64, price: u32, volume: u32, r: bool) -> bool {
        &&& new.wf()
        &&& r == !old.goods@.contains(good)
        &&& r ==> new.goods@ == old.goods@.push(good)
            && new.markets@.len() == old.markets@.len() + 1
            && new.markets@.drop_last() == old.markets@
            && opening_market(new.markets@.last(), price, volume, Strategy::RandomStrikeBased)
        &&& !r ==> new == old
    }

    pub fn new() -> (r: Economy)
        ensures
            r.wf(),
            r.goods@.len() == 0,
    {
        Economy { goods: Vec::new(), markets: Vec::new() }
    }

    fn find(&self, good: u64) -> (r: Option<usize>)
        ensures
            match r {
                Some(i) => i < self.goods@.len() && self.goods@[i as int] == good,
                None => !self.goods@.contains(good),
            },
    {
        let mut i: usize = 0;
        while i < self.goods.len()
            invariant
                i <= self.goods@.len(),
                forall|j: int| 0 <= j < i ==> self.goods@[j] != good,
            decreases self.goods@.len() - i,
        {
            if self.goods[i] == good {
                return Some(i);
            }
            i = i + 1;
        }
        None
    }

    /// Registers a strike-based market for `good`; `false`, and nothing
    /// changed, when the key is already registered.
    pub fn add_good(&mut self, good: u64, price: u32, volume: u32) -> (r: bool)
        requires
            old(self).wf(),
        ensures
            Economy::registered(*old(self), *final(self), good, price, volume, r),
    {
        if self.find(good).is_some() {
            return false;
        }
        let market = Market::new(price, volume);
        self.goods.push(good);
        self.markets.push(market);
        assert(self.markets@.drop_last() == old(self).markets@);
        proof {
            assert forall|i: int| 0 <= i < self.markets@.len() implies (#[trigger] self.markets@[i]).wf() by {
                if i < old(self).markets@.len() {
                    assert(self.markets@[i] == old(self).markets@[i]);
                }
            }
        }
        true
    }

    /// The last day of `good`'s market, if it is registered.
    pub fn get_latest_stats(&self, good: &u64) -> (r: Option<Statistics>)
        requires
            self.wf(),
        ensures
            r is Some <==> self.goods@.contains(*good),
            forall|i: int| 0 <= i < self.goods@.len() && self.goods@[i] == *good
                ==> r == Some(self.markets@[i].history.history@[self.markets@[i].history.current_idx as int]),
    {
        match self.find(*good) {
            Some(i) => {
                assert(self.markets@[i as int].wf());
                Some(self.markets[i].get_latest_stats())
            },
            None => None,
        }
    }

    /// The totals of `good`'s history window, if it is registered.
    pub fn get_total_stats(&self, good: &u64) -> (r: Option<Statistics>)
        requires
            self.wf(),
        ensures
            r is Some <==> self.goods@.contains(*good),
            forall|i: int| 0 <= i < self.goods@.len() && self.goods@[i] == *good
                ==> r == Some(sum_of(self.markets@[i].history.history@)),
    {
        match self.find(*good) {
            Some(i) => {
                assert(self.markets@[i as int].wf());
                Some(self.markets[i].get_total_stats())
            },
            None => None,
        }
    }

    /// Runs one day in every market.
    pub fn do_trades(&mut self)
        requires
            old(self).wf(),
        ensures
            final(self).wf(),
            final(self).goods == old(self).goods,
            final(self).markets@.len() == old(self).markets@.len(),
            forall|i: int| 0 <= i < old(self).markets@.len()
                ==> Market::ran_one_day(old(self).markets@[i], #[trigger] final(self).markets@[i]),
    {
        let n = self.markets.len();
        let mut i: usize = 0;
        while i < n
            invariant
                i <= n,
                n == old(self).markets@.len(),
                self.markets@.len() == n,
                self.goods == old(self).goods,
                self.wf(),
                forall|j: int| i <= j < n ==> self.markets@[j] == old(self).markets@[j],
                forall|j: int| 0 <= j < i ==> Market::ran_one_day(old(self).markets@[j], #[trigger] self.markets@[j]),
            decreases n - i,
        {
            assert(self.markets@[i as int].wf());
            let ghost prev = self.markets@;
            let mut m = self.markets.remove(i);
            let trades = m.trade_round();
            self.markets.insert(i, m);
            proof {
                assert(self.markets@ == prev.update(i as int, m));
                assert(Market::after_round(old(self).markets@[i as int], self.markets@[i as int], trades@));
                assert forall|j: int| 0 <= j < i + 1 implies Market::ran_one_day(old(self).markets@[j], #[trigger] self.markets@[j]) by {
                    if j < i {
                        assert(self.markets@[j] == prev[j]);
                    }
                }
                assert forall|j: int| 0 <= j < n implies (#[trigger] self.markets@[j]).wf() by {
                    if j != i {
                        assert(self.markets@[j] == old(self).markets@[j] || j < i);
                    }
                }
            }
            i = i + 1;
        }
    }

    /// A player buys up to `qty` units of `good` at `price`; `None` when the
    /// good is not registered, else the units bought.
    pub fn bulk_buy(&mut self, good: &u64, price: u32, qty: u32) -> (r: Option<u32>)
        requires
            old(self).wf(),
        ensures
            final(self).wf(),
            final(self).goods == old(self).goods,
            r is Some <==> old(self).goods@.contains(*good),
            forall|i: int| 0 <= i < old(self).goods@.len() && old(self).goods@[i] == *good ==> {
                let v = r->Some_0;
                &&& v <= qty
                &&& v <= sellers_at_most(old(self).markets@[i].sellers@, price).len()
                &&& Market::bulk_bought(old(self).markets@[i], final(self).markets@[i], price, qty, v)
            },
            final(self).markets@.len() == old(self).markets@.len(),
            forall|i: int| 0 <= i < old(self).goods@.len() && old(self).goods@[i] != *good
                ==> final(self).markets@[i] == old(self).markets@[i],
            r is None ==> *final(self) == *old(self),
    {
        match self.find(*good) {
            Some(i) => {
                assert(self.markets@[i as int].wf());
                let mut m = self.markets.remove(i);
                let v = m.buy(price, qty);
                self.markets.insert(i, m);
                proof {
                    assert(self.markets@ == old(self).markets@.update(i as int, m));
                    self.lemma_wf_after_replace(old(self), i as int);
                    assert forall|j: int| 0 <= j < old(self).goods@.len() && old(self).goods@[j] == *good implies j == i by {
                        if j != i {
                            assert(old(self).goods@[j] != old(self).goods@[i as int]);
                        }
                    }
                }
                Some(v)
            },
            None => None,
        }
    }

    /// A player sells up to `qty` units of `good` at `price`; `None` when the
    /// good is not registered, else the units sold.
    pub fn bulk_sell(&mut self, good: &u64, price: u32, qty: u32) -> (r: Option<u32>)
        requires
            old(self).wf(),
        ensures
            final(self).wf(),
            final(self).goods == old(self).goods,
            r is Some <==> old(self).goods@.contains(*good),
            forall|i: int| 0 <= i < old(self).goods@.len() && old(self).goods@[i] == *good ==> {
                let v = r->Some_0;
                &&& v <= qty
                &&& v <= buyers_at_least(old(self).markets@[i].buyers@, price).len()
                &&& Market::bulk_sold(old(self).markets@[i], final(self).markets@[i], price, qty, v)
            },
            final(self).markets@.len() == old(self).markets@.len(),
            forall|i: int| 0 <= i < old(self).goods@.len() && old(self).goods@[i] != *good
                ==> final(self).markets@[i] == old(self).markets@[i],
            r is None ==> *final(self) == *old(self),
    {
        match self.find(*good) {
            Some(i) => {
                assert(self.markets@[i as int].wf());
                let mut m = self.markets.remove(i);
                let v = m.sell(price, qty);
                self.markets.insert(i, m);
                proof {
                    assert(self.markets@ == old(self).markets@.update(i as int, m));
                    self.lemma_wf_after_replace(old(self), i as int);
                    assert forall|j: int| 0 <= j < old(self).goods@.len() && old(self).goods@[j] == *good implies j == i by {
                        if j != i {
                            assert(old(self).goods@[j] != old(self).goods@[i as int]);
                        }
                    }
                }
                Some(v)
            },
            None => None,
        }
    }

    proof fn lemma_wf_after_replace(&self, before: &Economy, i: int)
        requires
            before.wf(),
            0 <= i < before.markets@.len(),
            self.goods == before.goods,
            self.markets@.len() == before.markets@.len(),
            self.markets@[i].wf(),
            forall|j: int| 0 <= j < self.markets@.len() && j != i ==> self.markets@[j] == before.markets@[j],
        ensures
            self.wf(),
    {
        assert forall|j: int| 0 <= j < self.markets@.len() implies (#[trigger] self.markets@[j]).wf() by {
            if j != i {
                assert(self.markets@[j] == before.markets@[j]);
            }
        }
    }
}

impl Default for Economy {
    fn default() -> (r: Economy)
        ensures
            r.wf(),
            r.goods@.len() == 0,
    {
        Economy::new()
    }
}

/// Registering a new key succeeds once; a second registration of the same
/// key fails and leaves the economy exactly as the first one left it.
pub proof fn lemma_registration_is_idempotent(
    e0: Economy,
    e1: Economy,
    e2: Economy,
    good: u64,
    price: u32,
    volume: u32,
    r1: bool,
    r2: bool,
)
    requires
        e0.wf(),
        !e0.goods@.contains(good),
        Economy::registered(e0, e1, good, price, volume, r1),
        Economy::registered(e1, e2, good, price, volume, r2),
    ensures
        r1,
        !r2,
        e2 == e1,
{
    assert(e1.goods@.last() == good);
    assert(e1.goods@.contains(good));
}

} // verus!
