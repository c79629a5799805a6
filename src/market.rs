use vstd::prelude::*;

use rand_xoshiro::Xoshiro256StarStar;

use crate::history::{rounded_ratio, saturate, sum_of, History, Statistics};
use crate::random::{draw_between, entropy_source, seeded_source, shuffle_indices, sort_quotes};
use crate::traders::{midpoint, midpoint_u32, Buyer, Seller};

verus! {

/// How a market pairs its agents each day.
#[derive(Debug, PartialEq, Eq, Structural, Clone, Copy)]
pub enum Strategy {
    /// Shuffled buyers each take the first compatible seller of a fresh
    /// shuffle; agents with two strikes leave before the round.
    RandomStrikeBased,
    /// Buyers by descending bid are zipped with sellers by ascending ask.
    GreedySortedBounded,
}

/// One cleared pair of a round: indexes into the pools and the price.
#[derive(Debug, PartialEq, Eq, Structural, Clone, Copy)]
pub struct Trade {
    pub buyer: usize,
    pub seller: usize,
    pub price: u32,
}

/// Days kept in a market's history.
pub const HISTORY_DAYS: usize = 25;

/// One good: its buyers, its sellers, its history and its random source.
#[derive(Debug, PartialEq, Eq)]
pub struct Market {
    pub buyers: Vec<Buyer>,
    pub sellers: Vec<Seller>,
    pub history: History<25>,
    pub strategy: Strategy,
    pub rng: Xoshiro256StarStar,
}

pub open spec fn still_active_buyer(b: Buyer) -> bool {
    b.strikes < 2
}

pub open spec fn still_active_seller(s: Seller) -> bool {
    s.strikes < 2
}

/// A trade that clears a bid above an ask at their rounded midpoint.
pub open spec fn trade_ok(t: Trade, bs: Seq<Buyer>, ss: Seq<Seller>) -> bool {
    &&& t.buyer < bs.len()
    &&& t.seller < ss.len()
    &&& ss[t.seller as int].ask_price < bs[t.buyer as int].bid_price
    &&& t.price == midpoint(bs[t.buyer as int].bid_price as int, ss[t.seller as int].ask_price as int)
}

/// Valid trades, no agent in two of them.
pub open spec fn trades_ok(ts: Seq<Trade>, bs: Seq<Buyer>, ss: Seq<Seller>) -> bool {
    &&& forall|k: int| 0 <= k < ts.len() ==> trade_ok(#[trigger] ts[k], bs, ss)
    &&& forall|k1: int, k2: int|
        0 <= k1 < k2 < ts.len() ==> ts[k1].buyer != ts[k2].buyer && ts[k1].seller != ts[k2].seller
}

/// Buyer `i` is in one of the trades.
pub open spec fn buyer_traded(ts: Seq<Trade>, i: int) -> bool {
    exists|k: int| 0 <= k < ts.len() && ts[k].buyer == i
}

/// Seller `i` is in one of the trades.
pub open spec fn seller_traded(ts: Seq<Trade>, i: int) -> bool {
    exists|k: int| 0 <= k < ts.len() && ts[k].seller == i
}

/// No buyer and seller that could still trade are both left without a trade.
pub open spec fn maximal(ts: Seq<Trade>, bs: Seq<Buyer>, ss: Seq<Seller>) -> bool {
    forall|b: int, s: int|
        0 <= b < bs.len() && 0 <= s < ss.len() && ss[s].ask_price < bs[b].bid_price
            ==> #[trigger] buyer_traded(ts, b) || #[trigger] seller_traded(ts, s)
}

/// Some buyer bids above some seller's ask.
pub open spec fn some_pair_crosses(bs: Seq<Buyer>, ss: Seq<Seller>) -> bool {
    exists|b: int, s: int| 0 <= b < bs.len() && 0 <= s < ss.len() && ss[s].ask_price < bs[b].bid_price
}

/// The sum of the trades' prices, without any bound.
pub open spec fn price_sum(ts: Seq<Trade>) -> int
    decreases ts.len(),
{
    if ts.len() == 0 { 0 } else { price_sum(ts.drop_last()) + ts.last().price }
}

/// The history entry of a day with these trades.
pub open spec fn day_entry(ts: Seq<Trade>) -> Statistics {
    Statistics { volume: saturate(ts.len() as int), value: saturate(price_sum(ts)) }
}

/// What buyer `i` learns of the day: the price of its trade, if any.
pub open spec fn buyer_outcome(ts: Seq<Trade>, i: int) -> Option<u32>
    decreases ts.len(),
{
    if ts.len() == 0 {
        None
    } else if ts.last().buyer == i {
        Some(ts.last().price)
    } else {
        buyer_outcome(ts.drop_last(), i)
    }
}

/// What seller `i` learns of the day: the price of its trade, if any.
pub open spec fn seller_outcome(ts: Seq<Trade>, i: int) -> Option<u32>
    decreases ts.len(),
{
    if ts.len() == 0 {
        None
    } else if ts.last().seller == i {
        Some(ts.last().price)
    } else {
        seller_outcome(ts.drop_last(), i)
    }
}

/// Indexes of the sellers that would sell at `price`.
pub open spec fn sellers_at_most(ss: Seq<Seller>, price: u32) -> Set<int> {
    Set::new(|i: int| 0 <= i < ss.len() && ss[i].ask_price <= price)
}

/// Indexes of the buyers that would buy at `price`.
pub open spec fn buyers_at_least(bs: Seq<Buyer>, price: u32) -> Set<int> {
    Set::new(|i: int| 0 <= i < bs.len() && bs[i].bid_price >= price)
}

pub open spec fn min_int(a: int, b: int) -> int {
    if a <= b { a } else { b }
}

/// Exactly the `r` sellers of `t`, all asking at most `price`, sold at
/// `price`; every other seller is unchanged.
pub open spec fn sold_exactly(before: Seq<Seller>, after: Seq<Seller>, price: u32, t: Set<int>, r: u32) -> bool {
    &&& t.subset_of(sellers_at_most(before, price))
    &&& t.finite()
    &&& t.len() == r
    &&& forall|i: int| 0 <= i < before.len() ==>
        (#[trigger] t.contains(i) ==> after[i] == before[i].resolved(Some(price)).closed(price))
        && (!t.contains(i) ==> after[i] == before[i])
}

/// Exactly the `r` buyers of `t`, all bidding at least `price`, bought at
/// `price`; every other buyer is unchanged.
pub open spec fn bought_exactly(before: Seq<Buyer>, after: Seq<Buyer>, price: u32, t: Set<int>, r: u32) -> bool {
    &&& t.subset_of(buyers_at_least(before, price))
    &&& t.finite()
    &&& t.len() == r
    &&& forall|i: int| 0 <= i < before.len() ==>
        (#[trigger] t.contains(i) ==> after[i] == before[i].resolved(Some(price)).closed(price))
        && (!t.contains(i) ==> after[i] == before[i])
}

pub proof fn lemma_price_sum_nonneg(ts: Seq<Trade>)
    ensures
        price_sum(ts) >= 0,
    decreases ts.len(),
{
    if ts.len() > 0 {
        lemma_price_sum_nonneg(ts.drop_last());
    }
}

/// A clearing price never leaves the interval between ask and bid.
pub proof fn lemma_clearing_within_quotes(ts: Seq<Trade>, bs: Seq<Buyer>, ss: Seq<Seller>, k: int)
    requires
        trades_ok(ts, bs, ss),
        0 <= k < ts.len(),
    ensures
        ss[ts[k].seller as int].ask_price <= ts[k].price <= bs[ts[k].buyer as int].bid_price,
{
    assert(trade_ok(ts[k], bs, ss));
}

/// The seller at place `y` of `order` is still free and asks below `bid`.
pub open spec fn free_below(ss: Seq<Seller>, sold: Seq<bool>, order: Seq<usize>, bid: u32, y: int) -> bool {
    !sold[order[y] as int] && ss[order[y] as int].ask_price < bid
}

/// The first seller in `order` that has not sold yet and asks below `bid`.
pub fn first_free_seller(sellers: &Vec<Seller>, sold: &Vec<bool>, order: &Vec<usize>, bid: u32) -> (r: Option<usize>)
    requires
        sold@.len() == sellers@.len(),
        forall|y: int| 0 <= y < order@.len() ==> order@[y] < sellers@.len(),
    ensures
        match r {
            Some(s) => exists|y: int| 0 <= y < order@.len() && order@[y] == s
                && free_below(sellers@, sold@, order@, bid, y)
                && forall|z: int| 0 <= z < y ==> !free_below(sellers@, sold@, order@, bid, z),
            None => forall|y: int| 0 <= y < order@.len() ==> !free_below(sellers@, sold@, order@, bid, y),
        },
{
    let mut j: usize = 0;
    while j < order.len()
        invariant
            j <= order@.len(),
            sold@.len() == sellers@.len(),
            forall|y: int| 0 <= y < order@.len() ==> order@[y] < sellers@.len(),
            forall|z: int| 0 <= z < j ==> !free_below(sellers@, sold@, order@, bid, z),
        decreases order@.len() - j,
    {
        let s = order[j];
        if !sold[s] && sellers[s].ask_price < bid {
            assert(free_below(sellers@, sold@, order@, bid, j as int));
            return Some(s);
        }
        j = j + 1;
    }
    None
}

/// `rank` lists every buyer once, by descending bid.
pub open spec fn ranked_desc(bs: Seq<Buyer>, rank: Seq<usize>) -> bool {
    &&& rank.len() == bs.len()
    &&& forall|y: int| 0 <= y < rank.len() ==> rank[y] < bs.len()
    &&& forall|i: int, j: int| 0 <= i < j < rank.len() ==> rank[i] != rank[j]
    &&& forall|i: int, j: int| 0 <= i < j < rank.len()
        ==> bs[rank[i] as int].bid_price >= bs[rank[j] as int].bid_price
}

/// `rank` lists every seller once, by ascending ask.
pub open spec fn ranked_asc(ss: Seq<Seller>, rank: Seq<usize>) -> bool {
    &&& rank.len() == ss.len()
    &&& forall|y: int| 0 <= y < rank.len() ==> rank[y] < ss.len()
    &&& forall|i: int, j: int| 0 <= i < j < rank.len() ==> rank[i] != rank[j]
    &&& forall|i: int, j: int| 0 <= i < j < rank.len()
        ==> ss[rank[i] as int].ask_price <= ss[rank[j] as int].ask_price
}

/// The trades of the first `k` ranks: the buyer and seller of rank `y`
/// clear at their midpoint when the bid is above the ask.
pub open spec fn zipped(bs: Seq<Buyer>, ss: Seq<Seller>, bo: Seq<usize>, so: Seq<usize>, k: int) -> Seq<Trade>
    decreases k,
{
    if k <= 0 {
        Seq::empty()
    } else {
        let prev = zipped(bs, ss, bo, so, k - 1);
        let b = bo[k - 1];
        let s = so[k - 1];
        if ss[s as int].ask_price < bs[b as int].bid_price {
            prev.push(Trade {
                buyer: b,
                seller: s,
                price: midpoint(bs[b as int].bid_price as int, ss[s as int].ask_price as int) as u32,
            })
        } else {
            prev
        }
    }
}

/// A buyer after a day: it learns its outcome and the market price only if
/// it took part in the round.
pub open spec fn buyer_after_day(b: Buyer, takes_part: bool, outcome: Option<u32>, mp: u32) -> Buyer {
    if takes_part { b.resolved(outcome).closed(mp) } else { b }
}

/// A seller after a day: it learns its outcome and the market price only if
/// it took part in the round.
pub open spec fn seller_after_day(s: Seller, takes_part: bool, outcome: Option<u32>, mp: u32) -> Seller {
    if takes_part { s.resolved(outcome).closed(mp) } else { s }
}

/// Agent `i` holds one of the first `n` ranks.
pub open spec fn in_ranks(rank: Seq<usize>, n: int, i: int) -> bool {
    exists|k: int| 0 <= k < n && rank[k] == i
}

/// Pairs the buyer and the seller of each rank below both lengths; a pair
/// clears at the midpoint when the bid is above the ask.
pub fn zip_ranked(buyers: &Vec<Buyer>, sellers: &Vec<Seller>, buyer_rank: &Vec<usize>, seller_rank: &Vec<usize>) -> (r: Vec<Trade>)
    requires
        forall|y: int| 0 <= y < buyer_rank@.len() ==> buyer_rank@[y] < buyers@.len(),
        forall|y: int| 0 <= y < seller_rank@.len() ==> seller_rank@[y] < sellers@.len(),
        forall|i: int, j: int| 0 <= i < j < buyer_rank@.len() ==> buyer_rank@[i] != buyer_rank@[j],
        forall|i: int, j: int| 0 <= i < j < seller_rank@.len() ==> seller_rank@[i] != seller_rank@[j],
    ensures
        r@ == zipped(buyers@, sellers@, buyer_rank@, seller_rank@,
            min_int(buyer_rank@.len() as int, seller_rank@.len() as int)),
        trades_ok(r@, buyers@, sellers@),
{
    let n = if buyer_rank.len() < seller_rank.len() { buyer_rank.len() } else { seller_rank.len() };
    let mut trades: Vec<Trade> = Vec::new();
    let mut k: usize = 0;
    while k < n
        invariant
            k <= n,
            n == min_int(buyer_rank@.len() as int, seller_rank@.len() as int),
            forall|y: int| 0 <= y < buyer_rank@.len() ==> buyer_rank@[y] < buyers@.len(),
            forall|y: int| 0 <= y < seller_rank@.len() ==> seller_rank@[y] < sellers@.len(),
            forall|i: int, j: int| 0 <= i < j < buyer_rank@.len() ==> buyer_rank@[i] != buyer_rank@[j],
            forall|i: int, j: int| 0 <= i < j < seller_rank@.len() ==> seller_rank@[i] != seller_rank@[j],
            trades@ == zipped(buyers@, sellers@, buyer_rank@, seller_rank@, k as int),
            trades_ok(trades@, buyers@, sellers@),
            forall|t: int| 0 <= t < trades@.len() ==> exists|y: int| 0 <= y < k
                && buyer_rank@[y] == (#[trigger] trades@[t]).buyer && seller_rank@[y] == trades@[t].seller,
        decreases n - k,
    {
        let b = buyer_rank[k];
        let s = seller_rank[k];
        let bid = buyers[b].bid_price;
        let ask = sellers[s].ask_price;
        if ask < bid {
            let ghost prev = trades@;
            let price = midpoint_u32(bid, ask);
            trades.push(Trade { buyer: b, seller: s, price });
            proof {
                assert forall|t1: int, t2: int| 0 <= t1 < t2 < trades@.len() implies
                    trades@[t1].buyer != trades@[t2].buyer && trades@[t1].seller != trades@[t2].seller by {
                    if t2 == prev.len() {
                        assert(prev[t1] == trades@[t1]);
                        let y = choose|y: int| 0 <= y < k && buyer_rank@[y] == prev[t1].buyer
                            && seller_rank@[y] == prev[t1].seller;
                    } else {
                        assert(prev[t1] == trades@[t1] && prev[t2] == trades@[t2]);
                    }
                }
                assert forall|t: int| 0 <= t < trades@.len() implies exists|y: int| 0 <= y < k + 1
                    && buyer_rank@[y] == (#[trigger] trades@[t]).buyer && seller_rank@[y] == trades@[t].seller by {
                    if t < prev.len() {
                        assert(prev[t] == trades@[t]);
                        let y = choose|y: int| 0 <= y < k && buyer_rank@[y] == prev[t].buyer
                            && seller_rank@[y] == prev[t].seller;
                    } else {
                        assert(buyer_rank@[k as int] == trades@[t].buyer);
                    }
                }
                assert forall|t: int| 0 <= t < trades@.len() implies trade_ok(#[trigger] trades@[t], buyers@, sellers@) by {
                    if t < prev.len() {
                        assert(prev[t] == trades@[t]);
                    }
                }
            }
        }
        k = k + 1;
    }
    trades
}

proof fn lemma_sorted_keys_distinct(before: Seq<(u32, usize)>, after: Seq<(u32, usize)>)
    requires
        before.to_multiset() == after.to_multiset(),
        forall|x: int| 0 <= x < before.len() ==> before[x].1 == x,
    ensures
        forall|y: int| 0 <= y < after.len() ==> before.contains(#[trigger] after[y]),
        forall|i: int, j: int| 0 <= i < j < after.len() ==> after[i].1 != after[j].1,
{
    before.to_multiset_ensures();
    after.to_multiset_ensures();
    assert forall|y: int| 0 <= y < after.len() implies before.contains(#[trigger] after[y]) by {
        assert(after.contains(after[y]));
        assert(after.to_multiset().count(after[y]) > 0);
        assert(before.contains(after[y]));
    }
    assert forall|i: int, j: int| 0 <= i < j < after.len() implies after[i].1 != after[j].1 by {
        if after[i].1 == after[j].1 {
            assert(before.contains(after[i]) && before.contains(after[j]));
            let zi = choose|z: int| 0 <= z < before.len() && before[z] == after[i];
            let zj = choose|z: int| 0 <= z < before.len() && before[z] == after[j];
            assert(zi == zj);
            let v = after[i];
            let m = before.to_multiset();
            // two places of `after` hold `v`, one place of `before` does
            assert(after.remove(i).to_multiset() == m.remove(v));
            assert(after.remove(i)[j - 1] == v);
            assert(after.remove(i).contains(v));
            after.remove(i).to_multiset_ensures();
            before.remove(zi).to_multiset_ensures();
            assert(m.remove(v).count(v) > 0);
            assert(before.remove(zi).to_multiset() == m.remove(v));
            assert(!before.remove(zi).contains(v)) by {
                assert forall|w: int| 0 <= w < before.remove(zi).len() implies before.remove(zi)[w] != v by {
                    if w < zi {
                        assert(before.remove(zi)[w] == before[w]);
                    } else {
                        assert(before.remove(zi)[w] == before[w + 1]);
                    }
                }
            }
        }
    }
}

proof fn lemma_filter_drops_struck(s: Seq<Buyer>, i: int)
    requires
        0 <= i < s.len(),
        s[i].strikes >= 2,
    ensures
        s.filter(|b: Buyer| still_active_buyer(b)).len() < s.len(),
    decreases s.len(),
{
    reveal(Seq::filter);
    let p = |b: Buyer| still_active_buyer(b);
    s.drop_last().lemma_filter_len(p);
    if i < s.len() - 1 {
        assert(s.drop_last()[i] == s[i]);
        lemma_filter_drops_struck(s.drop_last(), i);
    }
}

/// In a strike-based market, a buyer with two strikes or more is gone after
/// the next day, so the buyers' pool is strictly smaller.
pub proof fn lemma_struck_buyer_leaves(before: Market, after: Market, i: int)
    requires
        before.strategy == Strategy::RandomStrikeBased,
        Market::ran_one_day(before, after),
        0 <= i < before.buyers@.len(),
        before.buyers@[i].strikes >= 2,
    ensures
        after.buyers@.len() < before.buyers@.len(),
{
    lemma_filter_drops_struck(before.buyers@, i);
}

/// Every buyer of `bs` bids above every seller's ask in `ss`.
pub open spec fn all_pairs_cross(bs: Seq<Buyer>, ss: Seq<Seller>) -> bool {
    forall|b: int, s: int| 0 <= b < bs.len() && 0 <= s < ss.len()
        ==> #[trigger] ss[s].ask_price < #[trigger] bs[b].bid_price
}

/// When every bid is above every ask, a maximal matching clears one trade
/// per agent of the smaller pool.
pub proof fn lemma_full_crossing_clears_min(ts: Seq<Trade>, bs: Seq<Buyer>, ss: Seq<Seller>)
    requires
        trades_ok(ts, bs, ss),
        maximal(ts, bs, ss),
        all_pairs_cross(bs, ss),
    ensures
        ts.len() == min_int(bs.len() as int, ss.len() as int),
{
    let nb = bs.len() as int;
    let ns = ss.len() as int;
    let bseq = ts.map_values(|t: Trade| t.buyer as int);
    let sseq = ts.map_values(|t: Trade| t.seller as int);
    assert forall|i: int, j: int| 0 <= i < bseq.len() && 0 <= j < bseq.len() && i != j
        implies bseq[i] != bseq[j] && sseq[i] != sseq[j] by {
        if i < j {
            assert(ts[i].buyer != ts[j].buyer && ts[i].seller != ts[j].seller);
        } else {
            assert(ts[j].buyer != ts[i].buyer && ts[j].seller != ts[i].seller);
        }
    }
    assert(bseq.no_duplicates());
    assert(sseq.no_duplicates());
    bseq.unique_seq_to_set();
    sseq.unique_seq_to_set();
    let rb = vstd::set_lib::set_int_range(0, nb);
    let rs = vstd::set_lib::set_int_range(0, ns);
    vstd::set_lib::lemma_int_range(0, nb);
    vstd::set_lib::lemma_int_range(0, ns);
    assert forall|x: int| bseq.to_set().contains(x) implies rb.contains(x) by {
        let k = choose|k: int| 0 <= k < bseq.len() && bseq[k] == x;
        assert(trade_ok(ts[k], bs, ss));
    }
    assert forall|x: int| sseq.to_set().contains(x) implies rs.contains(x) by {
        let k = choose|k: int| 0 <= k < sseq.len() && sseq[k] == x;
        assert(trade_ok(ts[k], bs, ss));
    }
    vstd::set_lib::lemma_len_subset(bseq.to_set(), rb);
    vstd::set_lib::lemma_len_subset(sseq.to_set(), rs);
    if exists|b: int| 0 <= b < nb && !buyer_traded(ts, b) {
        let b = choose|b: int| 0 <= b < nb && !buyer_traded(ts, b);
        assert forall|x: int| rs.contains(x) implies sseq.to_set().contains(x) by {
            assert(ss[x].ask_price < bs[b].bid_price);
            assert(buyer_traded(ts, b) || seller_traded(ts, x));
            let k = choose|k: int| 0 <= k < ts.len() && ts[k].seller == x;
            assert(sseq[k] == x);
        }
        vstd::set_lib::lemma_len_subset(rs, sseq.to_set());
    } else {
        assert forall|x: int| rb.contains(x) implies bseq.to_set().contains(x) by {
            assert(buyer_traded(ts, x));
            let k = choose|k: int| 0 <= k < ts.len() && ts[k].buyer == x;
            assert(bseq[k] == x);
        }
        vstd::set_lib::lemma_len_subset(rb, bseq.to_set());
    }
}

/// In a strike-based market whose remaining buyers all bid above every
/// remaining seller's ask, the day's volume is the size of the smaller pool.
pub proof fn lemma_crossing_day_volume(before: Market, after: Market)
    requires
        before.wf(),
        before.strategy == Strategy::RandomStrikeBased,
        Market::ran_one_day(before, after),
        all_pairs_cross(before.day_buyers(), before.day_sellers()),
    ensures
        after.history.history@[after.history.current_idx as int].volume
            == saturate(min_int(before.day_buyers().len() as int, before.day_sellers().len() as int)),
{
    let ts = choose|ts: Seq<Trade>| Market::after_round(before, after, ts);
    lemma_full_crossing_clears_min(ts, before.day_buyers(), before.day_sellers());
}

proof fn lemma_shuffled_below(before: Seq<usize>, after: Seq<usize>, n: usize)
    requires
        before.to_multiset() == after.to_multiset(),
        forall|i: int| 0 <= i < before.len() ==> before[i] < n,
    ensures
        forall|i: int| 0 <= i < after.len() ==> after[i] < n,
{
    before.to_multiset_ensures();
    after.to_multiset_ensures();
    assert forall|i: int| 0 <= i < after.len() implies after[i] < n by {
        assert(after.contains(after[i]));
        assert(after.to_multiset().count(after[i]) > 0);
        assert(before.to_multiset().count(after[i]) > 0);
        let j = choose|j: int| 0 <= j < before.len() && before[j] == after[i];
    }
}

/// `x` stands somewhere in `s`.
pub open spec fn appears(s: Seq<usize>, x: int) -> bool {
    exists|y: int| 0 <= y < s.len() && s[y] == x
}

proof fn lemma_covers(before: Seq<usize>, after: Seq<usize>, n: usize)
    requires
        before.to_multiset() == after.to_multiset(),
        before.len() == n,
        forall|i: int| 0 <= i < n ==> before[i] == i,
    ensures
        forall|x: int| 0 <= x < n ==> #[trigger] appears(after, x),
{
    before.to_multiset_ensures();
    after.to_multiset_ensures();
    assert forall|x: int| 0 <= x < n implies #[trigger] appears(after, x) by {
        assert(before[x] == x as usize);
        assert(before.contains(x as usize));
        assert(before.to_multiset().count(x as usize) > 0);
        assert(after.to_multiset().count(x as usize) > 0);
        assert(after.contains(x as usize));
    }
}

proof fn lemma_range_bound_finite(s: Set<int>, n: int)
    requires
        0 <= n,
        forall|i: int| s.contains(i) ==> 0 <= i < n,
    ensures
        s.finite(),
{
    let r = vstd::set_lib::set_int_range(0, n);
    vstd::set_lib::lemma_int_range(0, n);
    assert(s.subset_of(r));
    vstd::set_lib::lemma_len_subset(s, r);
}

fn rank_flags(rank: &Vec<usize>, n: usize, len: usize) -> (r: Vec<bool>)
    requires
        n <= rank@.len(),
        forall|y: int| 0 <= y < rank@.len() ==> rank@[y] < len,
    ensures
        r@.len() == len,
        forall|i: int| 0 <= i < len ==> r@[i] == in_ranks(rank@, n as int, i),
{
    let mut r = flags(len);
    let mut k: usize = 0;
    while k < n
        invariant
            k <= n,
            n <= rank@.len(),
            forall|y: int| 0 <= y < rank@.len() ==> rank@[y] < len,
            r@.len() == len,
            forall|i: int| 0 <= i < len ==> r@[i] == in_ranks(rank@, k as int, i),
        decreases n - k,
    {
        let ghost prev = r@;
        r.set(rank[k], true);
        proof {
            assert forall|i: int| 0 <= i < len implies r@[i] == in_ranks(rank@, k as int + 1, i) by {
                if in_ranks(rank@, k as int + 1, i) && i != rank@[k as int] {
                    let y = choose|y: int| 0 <= y < k + 1 && rank@[y] == i;
                    assert(in_ranks(rank@, k as int, i));
                }
                if in_ranks(rank@, k as int, i) {
                    let y = choose|y: int| 0 <= y < k && rank@[y] == i;
                    assert(in_ranks(rank@, k as int + 1, i));
                }
                if i == rank@[k as int] {
                    assert(in_ranks(rank@, k as int + 1, i));
                }
            }
        }
        k = k + 1;
    }
    r
}

fn all_set(n: usize) -> (r: Vec<bool>)
    ensures
        r@.len() == n,
        forall|i: int| 0 <= i < n ==> r@[i],
{
    let mut r: Vec<bool> = Vec::new();
    let mut i: usize = 0;
    while i < n
        invariant
            i <= n,
            r@.len() == i,
            forall|j: int| 0 <= j < i ==> r@[j],
        decreases n - i,
    {
        r.push(true);
        i = i + 1;
    }
    r
}

fn index_list(n: usize) -> (r: Vec<usize>)
    ensures
        r@.len() == n,
        forall|i: int| 0 <= i < n ==> r@[i] == i,
{
    let mut r: Vec<usize> = Vec::new();
    let mut i: usize = 0;
    while i < n
        invariant
            i <= n,
            r@.len() == i,
            forall|j: int| 0 <= j < i ==> r@[j] == j,
        decreases n - i,
    {
        r.push(i);
        i = i + 1;
    }
    r
}

fn flags(n: usize) -> (r: Vec<bool>)
    ensures
        r@.len() == n,
        forall|i: int| 0 <= i < n ==> !r@[i],
{
    let mut r: Vec<bool> = Vec::new();
    let mut i: usize = 0;
    while i < n
        invariant
            i <= n,
            r@.len() == i,
            forall|j: int| 0 <= j < i ==> !r@[j],
        decreases n - i,
    {
        r.push(false);
        i = i + 1;
    }
    r
}

fn no_outcomes(n: usize) -> (r: Vec<Option<u32>>)
    ensures
        r@.len() == n,
        forall|i: int| 0 <= i < n ==> r@[i] is None,
{
    let mut r: Vec<Option<u32>> = Vec::new();
    let mut i: usize = 0;
    while i < n
        invariant
            i <= n,
            r@.len() == i,
            forall|j: int| 0 <= j < i ==> r@[j] is None,
        decreases n - i,
    {
        r.push(None);
        i = i + 1;
    }
    r
}

/// Top of the opening band: `1.25 * price`, rounded half up.
pub open spec fn band_top(price: u32) -> int {
    if (5 * price + 2) / 4 > u32::MAX { u32::MAX as int } else { (5 * price + 2) / 4 }
}

/// Bottom of the opening band: `0.75 * price`, rounded half up.
pub open spec fn band_bottom(price: u32) -> int {
    (3 * price + 2) / 4
}

/// A freshly created buyer of a market opened at `price`.
pub open spec fn opening_buyer(b: Buyer, price: u32, strategy: Strategy) -> bool {
    &&& b.strikes == 0
    &&& match strategy {
        Strategy::RandomStrikeBased => b.max_price is None && price <= b.bid_price <= band_top(price),
        Strategy::GreedySortedBounded => match b.max_price {
            Some(m) => price <= m <= band_top(price) && band_bottom(price) <= b.bid_price <= m,
            None => false,
        },
    }
}

/// A freshly created seller of a market opened at `price`.
pub open spec fn opening_seller(s: Seller, price: u32, strategy: Strategy) -> bool {
    &&& s.strikes == 0
    &&& match strategy {
        Strategy::RandomStrikeBased => s.min_price is None && band_bottom(price) <= s.ask_price <= price,
        Strategy::GreedySortedBounded => match s.min_price {
            Some(m) => band_bottom(price) <= m <= price && m <= s.ask_price <= band_top(price),
            None => false,
        },
    }
}

/// Every agent follows the pricing policy that goes with `strategy`: no
/// reservation price for strike-based markets, one for sorted markets.
pub open spec fn agents_fit(bs: Seq<Buyer>, ss: Seq<Seller>, strategy: Strategy) -> bool {
    &&& forall|i: int| 0 <= i < bs.len() ==>
        ((#[trigger] bs[i]).max_price is None <==> strategy == Strategy::RandomStrikeBased)
    &&& forall|i: int| 0 <= i < ss.len() ==>
        ((#[trigger] ss[i]).min_price is None <==> strategy == Strategy::RandomStrikeBased)
}

/// A market that has not traded yet.
pub open spec fn opening_market(m: Market, price: u32, trade_volume: u32, strategy: Strategy) -> bool {
    &&& m.wf()
    &&& m.strategy == strategy
    &&& m.history.current_idx == 0
    &&& forall|i: int| 0 <= i < HISTORY_DAYS ==> m.history.history@[i] == (Statistics { volume: 0, value: 0 })
    &&& m.buyers@.len() == trade_volume
    &&& m.sellers@.len() == trade_volume + trade_volume / 2
    &&& forall|i: int| 0 <= i < m.buyers@.len() ==> opening_buyer(#[trigger] m.buyers@[i], price, strategy)
    &&& forall|i: int| 0 <= i < m.sellers@.len() ==> opening_seller(#[trigger] m.sellers@[i], price, strategy)
}

impl Market {
    pub open spec fn wf(&self) -> bool {
        self.history.wf()
    }

    /// A strike-based market opened at `price` with `trade_volume` buyers and
    /// half as many sellers again, drawing from an entropy-seeded source.
    pub fn new(price: u32, trade_volume: u32) -> (r: Market)
        ensures
            opening_market(r, price, trade_volume, Strategy::RandomStrikeBased),
    {
        Market::populate(price, trade_volume, Strategy::RandomStrikeBased, entropy_source())
    }

    /// As [`Market::new`], with a chosen strategy and a source fixed by `seed`.
    pub fn with_seed(price: u32, trade_volume: u32, strategy: Strategy, seed: u64) -> (r: Market)
        ensures
            opening_market(r, price, trade_volume, strategy),
    {
        Market::populate(price, trade_volume, strategy, seeded_source(seed))
    }

    /// A market over the given agents, with an empty history.
    pub fn from_agents(buyers: Vec<Buyer>, sellers: Vec<Seller>, strategy: Strategy, seed: u64) -> (r: Market)
        requires
            agents_fit(buyers@, sellers@, strategy),
        ensures
            r.wf(),
            r.buyers == buyers,
            r.sellers == sellers,
            r.strategy == strategy,
            r.history.current_idx == 0,
            forall|i: int| 0 <= i < HISTORY_DAYS ==> r.history.history@[i] == (Statistics { volume: 0, value: 0 }),
    {
        Market { buyers, sellers, history: History::new(), strategy, rng: seeded_source(seed) }
    }

    fn populate(price: u32, trade_volume: u32, strategy: Strategy, rng: Xoshiro256StarStar) -> (r: Market)
        ensures
            opening_market(r, price, trade_volume, strategy),
    {
        let mut rng = rng;
        let top64 = (5 * price as u64 + 2) / 4;
        let top: u32 = if top64 > u32::MAX as u64 { u32::MAX } else { top64 as u32 };
        let bottom: u32 = ((3 * price as u64 + 2) / 4) as u32;
        assert(bottom <= price && price <= top);
        let mut buyers: Vec<Buyer> = Vec::new();
        let mut i: u32 = 0;
        while i < trade_volume
            invariant
                i <= trade_volume,
                buyers@.len() == i,
                top == band_top(price),
                bottom == band_bottom(price),
                bottom <= price <= top,
                forall|x: int| 0 <= x < i ==> opening_buyer(#[trigger] buyers@[x], price, strategy),
            decreases trade_volume - i,
        {
            let b = match strategy {
                Strategy::RandomStrikeBased => Buyer::new(draw_between(&mut rng, price, top)),
                Strategy::GreedySortedBounded => {
                    let max = draw_between(&mut rng, price, top);
                    let bid = draw_between(&mut rng, bottom, max);
                    Buyer::bounded(bid, max)
                },
            };
            buyers.push(b);
            i = i + 1;
        }
        let seller_volume: u64 = trade_volume as u64 + trade_volume as u64 / 2;
        let mut sellers: Vec<Seller> = Vec::new();
        let mut j: u64 = 0;
        while j < seller_volume
            invariant
                j <= seller_volume,
                sellers@.len() == j,
                top == band_top(price),
                bottom == band_bottom(price),
                bottom <= price <= top,
                forall|x: int| 0 <= x < j ==> opening_seller(#[trigger] sellers@[x], price, strategy),
            decreases seller_volume - j,
        {
            let s = match strategy {
                Strategy::RandomStrikeBased => Seller::new(draw_between(&mut rng, bottom, price)),
                Strategy::GreedySortedBounded => {
                    let min = draw_between(&mut rng, bottom, price);
                    let ask = draw_between(&mut rng, min, top);
                    Seller::bounded(ask, min)
                },
            };
            sellers.push(s);
            j = j + 1;
        }
        Market { buyers, sellers, history: History::new(), strategy, rng }
    }

    /// The statistics of the last day traded.
    pub fn get_latest_stats(&self) -> (r: Statistics)
        requires
            self.wf(),
        ensures
            r == self.history.history@[self.history.current_idx as int],
    {
        self.history.get_latest()
    }

    /// The statistics summed over every day of the history window.
    pub fn get_total_stats(&self) -> (r: Statistics)
        requires
            self.wf(),
        ensures
            r == sum_of(self.history.history@),
    {
        self.history.get_totals()
    }

    /// The buyers that take part in the next round.
    pub open spec fn day_buyers(&self) -> Seq<Buyer> {
        if self.strategy == Strategy::RandomStrikeBased {
            self.buyers@.filter(|b: Buyer| still_active_buyer(b))
        } else {
            self.buyers@
        }
    }

    /// The sellers that take part in the next round.
    pub open spec fn day_sellers(&self) -> Seq<Seller> {
        if self.strategy == Strategy::RandomStrikeBased {
            self.sellers@.filter(|s: Seller| still_active_seller(s))
        } else {
            self.sellers@
        }
    }

    /// `new` is `old` after a player bought `r` of up to `qty` units at
    /// `price`: only sellers asking at most `price` sold, each at most once,
    /// and all of them did when fewer than `qty` units were bought.
    pub open spec fn bulk_bought(old: Market, new: Market, price: u32, qty: u32, r: u32) -> bool {
        &&& new.wf()
        &&& new.buyers == old.buyers
        &&& new.history == old.history
        &&& new.strategy == old.strategy
        &&& r <= qty
        &&& r <= sellers_at_most(old.sellers@, price).len()
        &&& new.sellers@.len() == old.sellers@.len()
        &&& forall|i: int| 0 <= i < old.sellers@.len() ==>
            #[trigger] new.sellers@[i] == old.sellers@[i]
            || (old.sellers@[i].ask_price <= price
                && new.sellers@[i] == old.sellers@[i].resolved(Some(price)).closed(price))
        &&& r < qty ==> forall|i: int| #[trigger] sellers_at_most(old.sellers@, price).contains(i)
            ==> new.sellers@[i] == old.sellers@[i].resolved(Some(price)).closed(price)
        &&& r as int == min_int(qty as int, sellers_at_most(old.sellers@, price).len() as int)
        &&& exists|t: Set<int>| sold_exactly(old.sellers@, new.sellers@, price, t, r)
    }

    /// `new` is `old` after a player sold `r` of up to `qty` units at
    /// `price`: only buyers bidding at least `price` bought, each at most
    /// once, and all of them did when fewer than `qty` units were sold.
    pub open spec fn bulk_sold(old: Market, new: Market, price: u32, qty: u32, r: u32) -> bool {
        &&& new.wf()
        &&& new.sellers == old.sellers
        &&& new.history == old.history
        &&& new.strategy == old.strategy
        &&& r <= qty
        &&& r <= buyers_at_least(old.buyers@, price).len()
        &&& new.buyers@.len() == old.buyers@.len()
        &&& forall|i: int| 0 <= i < old.buyers@.len() ==>
            #[trigger] new.buyers@[i] == old.buyers@[i]
            || (old.buyers@[i].bid_price >= price
                && new.buyers@[i] == old.buyers@[i].resolved(Some(price)).closed(price))
        &&& r < qty ==> forall|i: int| #[trigger] buyers_at_least(old.buyers@, price).contains(i)
            ==> new.buyers@[i] == old.buyers@[i].resolved(Some(price)).closed(price)
        &&& r as int == min_int(qty as int, buyers_at_least(old.buyers@, price).len() as int)
        &&& exists|t: Set<int>| bought_exactly(old.buyers@, new.buyers@, price, t, r)
    }

    /// `new` is `old` after one day, with some list of trades.
    pub open spec fn ran_one_day(old: Market, new: Market) -> bool {
        exists|ts: Seq<Trade>| Market::after_round(old, new, ts)
    }

    /// How the market stands after a round with trades `ts`, pools `bs`/`ss`.
    pub open spec fn after_round(old: Market, new: Market, ts: Seq<Trade>) -> bool {
        let bs = old.day_buyers();
        let ss = old.day_sellers();
        let mp = rounded_ratio(sum_of(new.history.history@).value as int, sum_of(new.history.history@).volume as int) as u32;
        &&& new.wf()
        &&& new.strategy == old.strategy
        &&& trades_ok(ts, bs, ss)
        &&& (new.history.history@, new.history.current_idx as int)
            == History::<25>::pushed(old.history.history@, old.history.current_idx as int, day_entry(ts))
        &&& new.buyers@.len() == bs.len()
        &&& new.sellers@.len() == ss.len()
        &&& old.strategy == Strategy::RandomStrikeBased ==> {
            &&& maximal(ts, bs, ss)
            &&& some_pair_crosses(bs, ss) ==> ts.len() > 0
            &&& forall|i: int| 0 <= i < bs.len()
                ==> new.buyers@[i] == #[trigger] bs[i].resolved(buyer_outcome(ts, i)).closed(mp)
            &&& forall|i: int| 0 <= i < ss.len()
                ==> new.sellers@[i] == #[trigger] ss[i].resolved(seller_outcome(ts, i)).closed(mp)
        }
        &&& old.strategy == Strategy::GreedySortedBounded ==> exists|br: Seq<usize>, sr: Seq<usize>|
            Market::sorted_round(bs, ss, ts, br, sr, new.buyers@, new.sellers@, mp)
    }

    /// A sorted round over rankings `br` (buyers) and `sr` (sellers): the
    /// trades are the rank zip; agents of the first `min` ranks learn their
    /// outcome, the others sit the day out unchanged.
    pub open spec fn sorted_round(
        bs: Seq<Buyer>,
        ss: Seq<Seller>,
        ts: Seq<Trade>,
        br: Seq<usize>,
        sr: Seq<usize>,
        new_bs: Seq<Buyer>,
        new_ss: Seq<Seller>,
        mp: u32,
    ) -> bool {
        let n = min_int(bs.len() as int, ss.len() as int);
        &&& ranked_desc(bs, br)
        &&& ranked_asc(ss, sr)
        &&& ts == zipped(bs, ss, br, sr, n)
        &&& forall|i: int| 0 <= i < bs.len()
            ==> #[trigger] new_bs[i] == buyer_after_day(bs[i], in_ranks(br, n, i), buyer_outcome(ts, i), mp)
        &&& forall|i: int| 0 <= i < ss.len()
            ==> #[trigger] new_ss[i] == seller_after_day(ss[i], in_ranks(sr, n, i), seller_outcome(ts, i), mp)
    }

    fn prune(&mut self)
        ensures
            final(self).buyers@ == old(self).buyers@.filter(|b: Buyer| still_active_buyer(b)),
            final(self).sellers@ == old(self).sellers@.filter(|s: Seller| still_active_seller(s)),
            final(self).history == old(self).history,
            final(self).strategy == old(self).strategy,
    {
        let mut kept: Vec<Buyer> = Vec::new();
        let mut i: usize = 0;
        while i < self.buyers.len()
            invariant
                i <= self.buyers@.len(),
                kept@ == self.buyers@.take(i as int).filter(|b: Buyer| still_active_buyer(b)),
            decreases self.buyers@.len() - i,
        {
            proof {
                reveal(Seq::filter);
                assert(self.buyers@.take(i as int + 1).drop_last() == self.buyers@.take(i as int));
                assert(self.buyers@.take(i as int + 1).last() == self.buyers@[i as int]);
            }
            if self.buyers[i].strikes < 2 {
                kept.push(self.buyers[i]);
            }
            i = i + 1;
        }
        assert(self.buyers@.take(i as int) == self.buyers@);
        let mut kept_s: Vec<Seller> = Vec::new();
        let mut j: usize = 0;
        while j < self.sellers.len()
            invariant
                j <= self.sellers@.len(),
                kept_s@ == self.sellers@.take(j as int).filter(|s: Seller| still_active_seller(s)),
            decreases self.sellers@.len() - j,
        {
            proof {
                reveal(Seq::filter);
                assert(self.sellers@.take(j as int + 1).drop_last() == self.sellers@.take(j as int));
                assert(self.sellers@.take(j as int + 1).last() == self.sellers@[j as int]);
            }
            if self.sellers[j].strikes < 2 {
                kept_s.push(self.sellers[j]);
            }
            j = j + 1;
        }
        assert(self.sellers@.take(j as int) == self.sellers@);
        self.buyers = kept;
        self.sellers = kept_s;
    }

    /// Runs one day: strike-based markets first drop agents with two
    /// strikes; the pools are paired by the market's strategy; the day's
    /// volume and value go into the history; every agent learns its outcome
    /// and then the realised average price of the whole history.
    pub fn trade_round(&mut self) -> (r: Vec<Trade>)
        requires
            old(self).wf(),
        ensures
            Market::after_round(*old(self), *final(self), r@),
    {
        if self.strategy == Strategy::RandomStrikeBased {
            self.prune();
        }
        let everyone = self.strategy == Strategy::RandomStrikeBased;
        let (trades, brank, srank) = if everyone {
            (self.pair_random(), Vec::new(), Vec::new())
        } else {
            self.pair_sorted()
        };
        let ghost bs = self.buyers@;
        let ghost ss = self.sellers@;
        assert(bs == old(self).day_buyers() && ss == old(self).day_sellers());
        let nb = self.buyers.len();
        let ns = self.sellers.len();
        let n = if brank.len() < srank.len() { brank.len() } else { srank.len() };
        let in_b = if everyone { all_set(nb) } else { rank_flags(&brank, n, nb) };
        let in_s = if everyone { all_set(ns) } else { rank_flags(&srank, n, ns) };
        let mut bo = no_outcomes(nb);
        let mut so = no_outcomes(ns);
        let mut volume: u32 = 0;
        let mut value: u32 = 0;
        let mut k: usize = 0;
        while k < trades.len()
            invariant
                k <= trades@.len(),
                bo@.len() == nb,
                so@.len() == ns,
                nb == bs.len(),
                ns == ss.len(),
                trades_ok(trades@, bs, ss),
                forall|i: int| 0 <= i < nb ==> bo@[i] == buyer_outcome(trades@.take(k as int), i),
                forall|i: int| 0 <= i < ns ==> so@[i] == seller_outcome(trades@.take(k as int), i),
                volume == saturate(k as int),
                value == saturate(price_sum(trades@.take(k as int))),
            decreases trades@.len() - k,
        {
            let t = trades[k];
            proof {
                assert(trade_ok(trades@[k as int], bs, ss));
                let pre = trades@.take(k as int);
                let nxt = trades@.take(k as int + 1);
                assert(nxt.drop_last() == pre);
                assert(nxt.last() == t);
                lemma_price_sum_nonneg(pre);
            }
            bo.set(t.buyer, Some(t.price));
            so.set(t.seller, Some(t.price));
            if volume < u32::MAX {
                volume = volume + 1;
            }
            value = value.saturating_add(t.price);
            k = k + 1;
        }
        assert(trades@.take(k as int) == trades@);
        self.history.insert(volume, value);
        let mp = self.history.get_totals().price();
        let ghost h = self.history;
        let mut i: usize = 0;
        while i < nb
            invariant
                i <= nb,
                nb == bs.len(),
                bo@.len() == nb,
                self.buyers@.len() == nb,
                forall|x: int| 0 <= x < nb ==> bo@[x] == buyer_outcome(trades@, x),
                self.sellers@ == ss,
                self.history == h,
                self.strategy == old(self).strategy,
                in_b@.len() == nb,
                forall|x: int| 0 <= x < i ==> self.buyers@[x] == buyer_after_day(bs[x], in_b@[x], buyer_outcome(trades@, x), mp),
                forall|x: int| i <= x < nb ==> self.buyers@[x] == bs[x],
            decreases nb - i,
        {
            let ghost prev = self.buyers@;
            if in_b[i] {
                let mut b = self.buyers[i];
                b.resolve_offer(bo[i]);
                b.close_day(mp);
                self.buyers.set(i, b);
            }
            proof {
                assert forall|x: int| 0 <= x < i + 1 implies self.buyers@[x] == buyer_after_day(bs[x], in_b@[x], buyer_outcome(trades@, x), mp) by {
                    if x < i {
                        assert(self.buyers@[x] == prev[x]);
                    }
                }
            }
            i = i + 1;
        }
        let mut j: usize = 0;
        while j < ns
            invariant
                j <= ns,
                ns == ss.len(),
                so@.len() == ns,
                self.sellers@.len() == ns,
                self.history == h,
                self.strategy == old(self).strategy,
                self.buyers@.len() == nb,
                nb == bs.len(),
                in_b@.len() == nb,
                in_s@.len() == ns,
                forall|x: int| 0 <= x < nb ==> self.buyers@[x] == buyer_after_day(bs[x], in_b@[x], buyer_outcome(trades@, x), mp),
                forall|x: int| 0 <= x < ns ==> so@[x] == seller_outcome(trades@, x),
                forall|x: int| 0 <= x < j ==> self.sellers@[x] == seller_after_day(ss[x], in_s@[x], seller_outcome(trades@, x), mp),
                forall|x: int| j <= x < ns ==> self.sellers@[x] == ss[x],
            decreases ns - j,
        {
            let ghost prev = self.sellers@;
            if in_s[j] {
                let mut s = self.sellers[j];
                s.resolve_offer(so[j]);
                s.close_day(mp);
                self.sellers.set(j, s);
            }
            proof {
                assert forall|x: int| 0 <= x < j + 1 implies self.sellers@[x] == seller_after_day(ss[x], in_s@[x], seller_outcome(trades@, x), mp) by {
                    if x < j {
                        assert(self.sellers@[x] == prev[x]);
                    }
                }
            }
            j = j + 1;
        }
        proof {
            if !everyone {
                assert(Market::sorted_round(bs, ss, trades@, brank@, srank@, self.buyers@, self.sellers@, mp));
            }
        }
        trades
    }

    /// Runs one day (see [`Market::trade_round`]) and drops the list of trades.
    pub fn do_trades(&mut self)
        requires
            old(self).wf(),
        ensures
            Market::ran_one_day(*old(self), *final(self)),
    {
        let trades = self.trade_round();
        assert(Market::after_round(*old(self), *self, trades@));
    }

    /// A player buys up to `qty` units at `price` from shuffled sellers whose
    /// ask is at most `price`; returns the units bought. No history entry.
    pub fn buy(&mut self, price: u32, qty: u32) -> (r: u32)
        requires
            old(self).wf(),
        ensures
            Market::bulk_bought(*old(self), *final(self), price, qty, r),
    {
        let ghost pre = self.sellers@;
        let ghost compat = sellers_at_most(pre, price);
        let ns = self.sellers.len();
        let mut order = index_list(ns);
        let ghost before = order@;
        shuffle_indices(&mut self.rng, &mut order);
        proof {
            lemma_shuffled_below(before, order@, ns);
            lemma_covers(before, order@, ns);
        }
        let mut done = flags(ns);
        let ghost mut traded: Set<int> = Set::empty();
        let mut volume: u32 = 0;
        let mut k: usize = 0;
        while k < order.len() && volume < qty
            invariant
                k <= order@.len(),
                ns == pre.len(),
                done@.len() == ns,
                self.sellers@.len() == ns,
                volume <= qty,
                forall|x: int| 0 <= x < order@.len() ==> order@[x] < ns,
                forall|x: int| 0 <= x < ns ==> #[trigger] appears(order@, x),
                traded.finite(),
                traded.len() == volume,
                traded.subset_of(compat),
                compat == sellers_at_most(pre, price),
                forall|x: int| 0 <= x < ns ==> (done@[x] <==> traded.contains(x)),
                forall|x: int| 0 <= x < ns && !done@[x] ==> self.sellers@[x] == pre[x],
                forall|x: int| 0 <= x < ns && done@[x] ==> self.sellers@[x] == pre[x].resolved(Some(price)).closed(price),
                forall|y: int| 0 <= y < k && pre[order@[y] as int].ask_price <= price ==> done@[order@[y] as int],
                self.buyers == old(self).buyers,
                self.history == old(self).history,
                self.strategy == old(self).strategy,
            decreases order@.len() - k,
        {
            let s = order[k];
            if !done[s] && self.sellers[s].ask_price <= price {
                proof { assert(self.sellers@[s as int] == pre[s as int]); assert(compat.contains(s as int)); }
                let mut seller = self.sellers[s];
                seller.resolve_offer(Some(price));
                seller.close_day(price);
                self.sellers.set(s, seller);
                done.set(s, true);
                proof {
                    traded = traded.insert(s as int);
                }
                volume = volume + 1;
            }
            k = k + 1;
        }
        proof {
            lemma_range_bound_finite(compat, ns as int);
            assert forall|i: int| 0 <= i < ns implies #[trigger] self.sellers@[i] == pre[i]
                || (pre[i].ask_price <= price && self.sellers@[i] == pre[i].resolved(Some(price)).closed(price)) by {
                if done@[i] {
                    assert(compat.contains(i));
                }
            }
            vstd::set_lib::lemma_len_subset(traded, compat);
            if volume < qty {
                assert forall|i: int| #[trigger] compat.contains(i) implies self.sellers@[i] == pre[i].resolved(Some(price)).closed(price)
                    && traded.contains(i) by {
                    assert(appears(order@, i));
                    let y = choose|y: int| 0 <= y < order@.len() && order@[y] == i;
                }
                assert(compat.subset_of(traded));
                vstd::set_lib::lemma_len_subset(compat, traded);
            }
            assert(sold_exactly(pre, self.sellers@, price, traded, volume));
        }
        volume
    }

    /// A player sells up to `qty` units at `price` to shuffled buyers whose
    /// bid is at least `price`; returns the units sold. No history entry.
    pub fn sell(&mut self, price: u32, qty: u32) -> (r: u32)
        requires
            old(self).wf(),
        ensures
            Market::bulk_sold(*old(self), *final(self), price, qty, r),
    {
        let ghost pre = self.buyers@;
        let ghost compat = buyers_at_least(pre, price);
        let nb = self.buyers.len();
        let mut order = index_list(nb);
        let ghost before = order@;
        shuffle_indices(&mut self.rng, &mut order);
        proof {
            lemma_shuffled_below(before, order@, nb);
            lemma_covers(before, order@, nb);
        }
        let mut done = flags(nb);
        let ghost mut traded: Set<int> = Set::empty();
        let mut volume: u32 = 0;
        let mut k: usize = 0;
        while k < order.len() && volume < qty
            invariant
                k <= order@.len(),
                nb == pre.len(),
                done@.len() == nb,
                self.buyers@.len() == nb,
                volume <= qty,
                forall|x: int| 0 <= x < order@.len() ==> order@[x] < nb,
                forall|x: int| 0 <= x < nb ==> #[trigger] appears(order@, x),
                traded.finite(),
                traded.len() == volume,
                traded.subset_of(compat),
                compat == buyers_at_least(pre, price),
                forall|x: int| 0 <= x < nb ==> (done@[x] <==> traded.contains(x)),
                forall|x: int| 0 <= x < nb && !done@[x] ==> self.buyers@[x] == pre[x],
                forall|x: int| 0 <= x < nb && done@[x] ==> self.buyers@[x] == pre[x].resolved(Some(price)).closed(price),
                forall|y: int| 0 <= y < k && pre[order@[y] as int].bid_price >= price ==> done@[order@[y] as int],
                self.sellers == old(self).sellers,
                self.history == old(self).history,
                self.strategy == old(self).strategy,
            decreases order@.len() - k,
        {
            let b = order[k];
            if !done[b] && self.buyers[b].bid_price >= price {
                proof { assert(self.buyers@[b as int] == pre[b as int]); assert(compat.contains(b as int)); }
                let mut buyer = self.buyers[b];
                buyer.resolve_offer(Some(price));
                buyer.close_day(price);
                self.buyers.set(b, buyer);
                done.set(b, true);
                proof {
                    traded = traded.insert(b as int);
                }
                volume = volume + 1;
            }
            k = k + 1;
        }
        proof {
            lemma_range_bound_finite(compat, nb as int);
            assert forall|i: int| 0 <= i < nb implies #[trigger] self.buyers@[i] == pre[i]
                || (pre[i].bid_price >= price && self.buyers@[i] == pre[i].resolved(Some(price)).closed(price)) by {
                if done@[i] {
                    assert(compat.contains(i));
                }
            }
            vstd::set_lib::lemma_len_subset(traded, compat);
            if volume < qty {
                assert forall|i: int| #[trigger] compat.contains(i) implies self.buyers@[i] == pre[i].resolved(Some(price)).closed(price)
                    && traded.contains(i) by {
                    assert(appears(order@, i));
                    let y = choose|y: int| 0 <= y < order@.len() && order@[y] == i;
                }
                assert(compat.subset_of(traded));
                vstd::set_lib::lemma_len_subset(compat, traded);
            }
            assert(bought_exactly(pre, self.buyers@, price, traded, volume));
        }
        volume
    }

    /// Shuffled buyers each take the first seller of a fresh shuffle that is
    /// still free and asks below their bid.
    #[verifier::rlimit(80)]
    fn pair_random(&mut self) -> (r: Vec<Trade>)
        ensures
            final(self).buyers == old(self).buyers,
            final(self).sellers == old(self).sellers,
            final(self).history == old(self).history,
            final(self).strategy == old(self).strategy,
            trades_ok(r@, old(self).buyers@, old(self).sellers@),
            maximal(r@, old(self).buyers@, old(self).sellers@),
            some_pair_crosses(old(self).buyers@, old(self).sellers@) ==> r@.len() > 0,
    {
        let nb = self.buyers.len();
        let ns = self.sellers.len();
        let mut order = index_list(nb);
        let ghost before = order@;
        shuffle_indices(&mut self.rng, &mut order);
        proof {
            lemma_shuffled_below(before, order@, nb);
            lemma_covers(before, order@, nb);
        }
        let mut bought = flags(nb);
        let mut sold = flags(ns);
        let mut trades: Vec<Trade> = Vec::new();
        let mut k: usize = 0;
        while k < order.len()
            invariant
                self.buyers@.len() == nb,
                self.sellers@.len() == ns,
                bought@.len() == nb,
                sold@.len() == ns,
                forall|i: int| 0 <= i < order@.len() ==> order@[i] < nb,
                trades_ok(trades@, self.buyers@, self.sellers@),
                forall|t: int| 0 <= t < trades@.len() ==> bought@[trades@[t].buyer as int] && sold@[trades@[t].seller as int],
                forall|x: int| 0 <= x < nb && #[trigger] bought@[x] ==> buyer_traded(trades@, x),
                forall|x: int| 0 <= x < ns && #[trigger] sold@[x] ==> seller_traded(trades@, x),
                forall|y: int, x: int| 0 <= y < k && 0 <= x < ns
                    && self.sellers@[x].ask_price < self.buyers@[order@[y] as int].bid_price
                    ==> bought@[#[trigger] order@[y] as int] || #[trigger] sold@[x],
                forall|x: int| 0 <= x < nb ==> #[trigger] appears(order@, x),
                k <= order@.len(),
                self.buyers == old(self).buyers,
                self.sellers == old(self).sellers,
                self.history == old(self).history,
                self.strategy == old(self).strategy,
            decreases order@.len() - k,
        {
            let b = order[k];
            if !bought[b] {
                let bid = self.buyers[b].bid_price;
                let mut candidates = index_list(ns);
                let ghost cbefore = candidates@;
                shuffle_indices(&mut self.rng, &mut candidates);
                proof {
                    lemma_shuffled_below(cbefore, candidates@, ns);
                    lemma_covers(cbefore, candidates@, ns);
                }
                let found = first_free_seller(&self.sellers, &sold, &candidates, bid);
                proof {
                    if found is Some {
                        let y = choose|y: int| 0 <= y < candidates@.len() && candidates@[y] == found->Some_0
                            && free_below(self.sellers@, sold@, candidates@, bid, y);
                    }
                }
                if let Some(s) = found {
                    let price = midpoint_u32(bid, self.sellers[s].ask_price);
                    let ghost prev_trades = trades@;
                    let ghost prev_bought = bought@;
                    let ghost prev_sold = sold@;
                    bought.set(b, true);
                    sold.set(s, true);
                    trades.push(Trade { buyer: b, seller: s, price });
                    proof {
                        let last = trades@.len() - 1;
                        assert(trades@[last].buyer == b && trades@[last].seller == s);
                        assert forall|x: int| 0 <= x < nb && #[trigger] bought@[x] implies buyer_traded(trades@, x) by {
                            if x != b {
                                assert(prev_bought[x]);
                                assert(buyer_traded(prev_trades, x));
                                let t = choose|t: int| 0 <= t < prev_trades.len() && prev_trades[t].buyer == x;
                                assert(trades@[t] == prev_trades[t]);
                            }
                        }
                        assert forall|x: int| 0 <= x < ns && #[trigger] sold@[x] implies seller_traded(trades@, x) by {
                            if x != s {
                                assert(prev_sold[x]);
                                assert(seller_traded(prev_trades, x));
                                let t = choose|t: int| 0 <= t < prev_trades.len() && prev_trades[t].seller == x;
                                assert(trades@[t] == prev_trades[t]);
                            }
                        }
                    }
                } else {
                    proof {
                        assert forall|x: int| 0 <= x < ns && self.sellers@[x].ask_price < bid implies #[trigger] sold@[x] by {
                            assert(appears(candidates@, x));
                            let y = choose|y: int| 0 <= y < candidates@.len() && candidates@[y] == x;
                            assert(!free_below(self.sellers@, sold@, candidates@, bid, y));
                        }
                    }
                }
            }
            k = k + 1;
        }
        proof {
            assert forall|b: int, s: int|
                0 <= b < nb && 0 <= s < ns && self.sellers@[s].ask_price < self.buyers@[b].bid_price
                implies #[trigger] buyer_traded(trades@, b) || #[trigger] seller_traded(trades@, s) by {
                assert(appears(order@, b));
                let y = choose|y: int| 0 <= y < order@.len() && order@[y] == b;
                assert(bought@[order@[y] as int] || sold@[s]);
            }
            if some_pair_crosses(self.buyers@, self.sellers@) {
                let (b, s) = choose|b: int, s: int| 0 <= b < nb && 0 <= s < ns
                    && self.sellers@[s].ask_price < self.buyers@[b].bid_price;
                assert(buyer_traded(trades@, b) || seller_traded(trades@, s));
            }
        }
        trades
    }

    /// Ranks buyers by descending bid and sellers by ascending ask, and
    /// zips the two rankings (see [`zip_ranked`]).
    fn pair_sorted(&self) -> (r: (Vec<Trade>, Vec<usize>, Vec<usize>))
        ensures
            ranked_desc(self.buyers@, r.1@),
            ranked_asc(self.sellers@, r.2@),
            r.0@ == zipped(self.buyers@, self.sellers@, r.1@, r.2@,
                min_int(self.buyers@.len() as int, self.sellers@.len() as int)),
            trades_ok(r.0@, self.buyers@, self.sellers@),
    {
        let nb = self.buyers.len();
        let ns = self.sellers.len();
        let mut bk: Vec<(u32, usize)> = Vec::new();
        let mut i: usize = 0;
        while i < nb
            invariant
                i <= nb,
                nb == self.buyers@.len(),
                bk@.len() == i,
                forall|x: int| 0 <= x < i ==> bk@[x] == (self.buyers@[x].bid_price, x as usize),
            decreases nb - i,
        {
            bk.push((self.buyers[i].bid_price, i));
            i = i + 1;
        }
        let ghost bk0 = bk@;
        sort_quotes(&mut bk);
        proof { lemma_sorted_keys_distinct(bk0, bk@); }
        let mut bo: Vec<usize> = Vec::new();
        let mut k: usize = 0;
        while k < nb
            invariant
                k <= nb,
                bk@.len() == nb,
                bo@.len() == k,
                forall|y: int| 0 <= y < k ==> bo@[y] == bk@[nb - 1 - y].1,
            decreases nb - k,
        {
            bo.push(bk[nb - 1 - k].1);
            k = k + 1;
        }
        proof {
            assert forall|y: int| 0 <= y < nb implies bo@[y] < nb
                && self.buyers@[bo@[y] as int].bid_price == bk@[nb - 1 - y].0 by {
                let x = nb - 1 - y;
                assert(bk0.contains(bk@[x]));
                let z = choose|z: int| 0 <= z < bk0.len() && bk0[z] == bk@[x];
            }
            assert forall|i: int, j: int| 0 <= i < j < nb implies bo@[i] != bo@[j] by {
                assert(bo@[i] == bk@[nb - 1 - i].1 && bo@[j] == bk@[nb - 1 - j].1);
            }
            assert forall|i: int, j: int| 0 <= i < j < nb implies
                self.buyers@[bo@[i] as int].bid_price >= self.buyers@[bo@[j] as int].bid_price by {
                assert(bk@[nb - 1 - j].0 <= bk@[nb - 1 - i].0);
            }
        }
        let mut sk: Vec<(u32, usize)> = Vec::new();
        let mut i: usize = 0;
        while i < ns
            invariant
                i <= ns,
                ns == self.sellers@.len(),
                sk@.len() == i,
                forall|x: int| 0 <= x < i ==> sk@[x] == (self.sellers@[x].ask_price, x as usize),
            decreases ns - i,
        {
            sk.push((self.sellers[i].ask_price, i));
            i = i + 1;
        }
        let ghost sk0 = sk@;
        sort_quotes(&mut sk);
        proof { lemma_sorted_keys_distinct(sk0, sk@); }
        let mut so: Vec<usize> = Vec::new();
        let mut k: usize = 0;
        while k < ns
            invariant
                k <= ns,
                sk@.len() == ns,
                so@.len() == k,
                forall|y: int| 0 <= y < k ==> so@[y] == sk@[y].1,
            decreases ns - k,
        {
            so.push(sk[k].1);
            k = k + 1;
        }
        proof {
            assert forall|y: int| 0 <= y < ns implies so@[y] < ns
                && self.sellers@[so@[y] as int].ask_price == sk@[y].0 by {
                assert(sk0.contains(sk@[y]));
                let z = choose|z: int| 0 <= z < sk0.len() && sk0[z] == sk@[y];
            }
            assert forall|i: int, j: int| 0 <= i < j < ns implies so@[i] != so@[j] by {
                assert(so@[i] == sk@[i].1 && so@[j] == sk@[j].1);
            }
            assert forall|i: int, j: int| 0 <= i < j < ns implies
                self.sellers@[so@[i] as int].ask_price <= self.sellers@[so@[j] as int].ask_price by {
                assert(sk@[i].0 <= sk@[j].0);
            }
        }
        let trades = zip_ranked(&self.buyers, &self.sellers, &bo, &so);
        (trades, bo, so)
    }
}

impl Default for Market {
    /// A strike-based market opened at 30 with 20 buyers and 30 sellers.
    fn default() -> (r: Market)
        ensures
            opening_market(r, 30, 20, Strategy::RandomStrikeBased),
    {
        Market::new(30, 20)
    }
}

} // verus!
