use market::{Buyer, Economy, Market, Seller, Strategy};

fn pools(bids: &[u32], asks: &[u32]) -> (Vec<Buyer>, Vec<Seller>) {
    (
        bids.iter().map(|b| Buyer::new(*b)).collect(),
        asks.iter().map(|a| Seller::new(*a)).collect(),
    )
}

#[test]
fn random_round_matches_every_compatible_pair() {
    let (b, s) = pools(&[22, 24, 26], &[18, 20, 21]);
    let mut m = Market::from_agents(b, s, Strategy::RandomStrikeBased, 7);
    let trades = m.trade_round();
    assert_eq!(trades.len(), 3);
    let latest = m.get_latest_stats();
    assert_eq!(latest.volume(), 3);
    let sum: u32 = trades.iter().map(|t| t.price).sum();
    assert_eq!(latest.value(), sum);
    assert!(m.buyers.iter().all(|b| b.strikes() == 0));
    assert!(m.sellers.iter().all(|s| s.strikes() == 0));
    for t in trades.iter() {
        let bid = [22, 24, 26][t.buyer];
        let ask = [18, 20, 21][t.seller];
        assert!(ask <= t.price && t.price <= bid);
        assert_eq!(t.price, (bid + ask + 1) / 2);
    }
}

#[test]
fn seeded_random_round_is_reproducible() {
    let (b, s) = pools(&[22, 24, 26, 19], &[18, 20, 21, 25]);
    let mut m1 = Market::from_agents(b.clone(), s.clone(), Strategy::RandomStrikeBased, 42);
    let mut m2 = Market::from_agents(b, s, Strategy::RandomStrikeBased, 42);
    assert_eq!(m1.trade_round(), m2.trade_round());
}

#[test]
fn greedy_round_zips_by_rank() {
    let b = vec![Buyer::bounded(10, 50), Buyer::bounded(30, 50), Buyer::bounded(20, 50)];
    let s = vec![Seller::bounded(25, 1), Seller::bounded(5, 1), Seller::bounded(15, 1)];
    let mut m = Market::from_agents(b, s, Strategy::GreedySortedBounded, 1);
    let mut trades = m.trade_round();
    trades.sort_by_key(|t| t.buyer);
    assert_eq!(trades.len(), 2);
    assert_eq!((trades[0].buyer, trades[0].seller, trades[0].price), (1, 1, 18));
    assert_eq!((trades[1].buyer, trades[1].seller, trades[1].price), (2, 2, 18));
    assert_eq!(m.get_latest_stats().volume(), 2);
    assert_eq!(m.get_latest_stats().value(), 36);
    assert_eq!(m.buyers[1].bid_price(), 24);
    assert_eq!(m.buyers[0].bid_price(), 13);
    assert_eq!(m.sellers[0].ask_price(), 20);
}

#[test]
fn no_trade_when_bids_below_asks() {
    let (b, s) = pools(&[10], &[10]);
    let mut m = Market::from_agents(b, s, Strategy::RandomStrikeBased, 3);
    assert!(m.trade_round().is_empty());
    assert_eq!(m.get_latest_stats().volume(), 0);
    assert_eq!(m.buyers[0].strikes(), 1);
    assert_eq!(m.buyers[0].bid_price(), 15);
    assert_eq!(m.sellers[0].ask_price(), 5);
}

#[test]
fn buyer_with_two_strikes_leaves() {
    let mut struck = Buyer::new(5);
    struck.resolve_offer(None);
    struck.resolve_offer(None);
    let b = vec![Buyer::new(30), struck];
    let s = vec![Seller::new(20)];
    let mut m = Market::from_agents(b, s, Strategy::RandomStrikeBased, 9);
    m.do_trades();
    assert_eq!(m.buyers.len(), 1);
}

#[test]
fn bulk_buy_is_bounded_by_compatible_sellers() {
    let (b, s) = pools(&[10], &[10, 20, 30, 40]);
    let mut m = Market::from_agents(b.clone(), s.clone(), Strategy::RandomStrikeBased, 5);
    assert_eq!(m.buy(25, 10), 2);
    let mut m2 = Market::from_agents(b.clone(), s.clone(), Strategy::RandomStrikeBased, 5);
    assert_eq!(m2.buy(25, 1), 1);
    let mut m3 = Market::from_agents(b, s, Strategy::RandomStrikeBased, 5);
    assert_eq!(m3.buy(25, 0), 0);
    assert_eq!(m3.get_latest_stats().volume(), 0);
}

#[test]
fn bulk_sell_is_bounded_by_compatible_buyers() {
    let (b, s) = pools(&[10, 20, 30], &[5]);
    let mut m = Market::from_agents(b, s, Strategy::RandomStrikeBased, 5);
    assert_eq!(m.sell(15, 10), 2);
    assert_eq!(m.buyers[0].bid_price(), 10);
}

#[test]
fn bulk_buy_adapts_the_sellers_that_sold() {
    let (b, s) = pools(&[10], &[10, 40]);
    let mut m = Market::from_agents(b, s, Strategy::RandomStrikeBased, 5);
    assert_eq!(m.buy(20, 5), 1);
    assert_eq!(m.sellers[0].ask_price(), 15);
    assert_eq!(m.sellers[1].ask_price(), 40);
}

#[test]
fn opening_market_quotes_lie_in_band() {
    let m = Market::with_seed(20, 250, Strategy::RandomStrikeBased, 11);
    assert_eq!(m.buyers.len(), 250);
    assert_eq!(m.sellers.len(), 375);
    assert!(m.buyers.iter().all(|b| (20..=25).contains(&b.bid_price())));
    assert!(m.sellers.iter().all(|s| (15..=20).contains(&s.ask_price())));
    let g = Market::with_seed(20, 4, Strategy::GreedySortedBounded, 11);
    assert_eq!(g.sellers.len(), 6);
    assert!(g.buyers.iter().all(|b| b.max_price.map_or(false, |m| (20..=25).contains(&m) && b.bid_price() <= m)));
    assert!(g.sellers.iter().all(|s| s.min_price.map_or(false, |m| (15..=20).contains(&m) && s.ask_price() >= m)));
}

#[test]
fn large_market_trades_for_many_days() {
    let mut m = Market::new(20, 250);
    for _ in 0..30 {
        m.do_trades();
    }
    assert!(m.get_total_stats().volume() <= 25 * 250);
}

#[test]
fn registering_a_key_twice_fails_the_second_time() {
    let mut e = Economy::new();
    assert!(e.add_good(1, 20, 10));
    let before = e.get_total_stats(&1);
    assert!(!e.add_good(1, 50, 99));
    assert_eq!(e.markets.len(), 1);
    assert_eq!(e.markets[0].buyers.len(), 10);
    assert_eq!(e.get_total_stats(&1), before);
}

#[test]
fn unknown_key_gives_nothing() {
    let mut e = Economy::new();
    e.add_good(3, 20, 10);
    assert_eq!(e.get_latest_stats(&4), None);
    assert_eq!(e.get_total_stats(&4), None);
    assert_eq!(e.bulk_buy(&4, 30, 5), None);
    assert_eq!(e.bulk_sell(&4, 30, 5), None);
}

#[test]
fn economy_routes_to_its_markets() {
    let mut e = Economy::new();
    e.add_good(1, 20, 10);
    e.add_good(2, 50, 4);
    e.do_trades();
    assert!(e.get_latest_stats(&1).is_some());
    let bought = e.bulk_buy(&1, 1000, 200).unwrap();
    assert_eq!(bought, 15);
    let sold = e.bulk_sell(&2, 0, 2).unwrap();
    assert_eq!(sold, 2);
}

#[test]
fn default_market_and_economy() {
    let m = Market::default();
    assert_eq!(m.buyers.len(), 20);
    assert_eq!(m.sellers.len(), 30);
    assert_eq!(m.strategy, Strategy::RandomStrikeBased);
    let e = Economy::default();
    assert!(e.goods.is_empty());
}

#[test]
fn greedy_market_runs_without_pruning() {
    let mut m = Market::with_seed(20, 30, Strategy::GreedySortedBounded, 4);
    for _ in 0..10 {
        m.do_trades();
    }
    assert_eq!(m.buyers.len(), 30);
    assert_eq!(m.sellers.len(), 45);
    assert!(m.buyers.iter().all(|b| b.bid_price() <= b.max_price.unwrap()));
    assert!(m.sellers.iter().all(|s| s.ask_price() >= s.min_price.unwrap()));
}

#[test]
fn bulk_buy_changes_exactly_the_sellers_it_counts() {
    let (b, s) = pools(&[10], &[10, 20, 30, 40]);
    let mut m = Market::from_agents(b, s, Strategy::RandomStrikeBased, 8);
    assert_eq!(m.buy(25, 1), 1);
    let changed = m
        .sellers
        .iter()
        .zip([10u32, 20, 30, 40].iter())
        .filter(|(s, a)| s.ask_price() != **a)
        .count();
    assert_eq!(changed, 1);
    assert_eq!(m.sellers[2].ask_price(), 30);
    assert_eq!(m.sellers[3].ask_price(), 40);
}

#[test]
fn zip_ranked_pairs_rank_by_rank() {
    let b = vec![Buyer::bounded(30, 50), Buyer::bounded(10, 50)];
    let s = vec![Seller::bounded(5, 1), Seller::bounded(20, 1)];
    let trades = market::market::zip_ranked(&b, &s, &vec![0, 1], &vec![0, 1]);
    assert_eq!(trades.len(), 1);
    assert_eq!((trades[0].buyer, trades[0].seller, trades[0].price), (0, 0, 18));
    let crossed = market::market::zip_ranked(&b, &s, &vec![0, 1], &vec![1, 0]);
    assert_eq!(crossed.len(), 2);
    assert_eq!(crossed[0].price, 25);
    assert_eq!(crossed[1].price, 8);
}

#[test]
fn first_free_seller_skips_sold_and_expensive() {
    let s = vec![Seller::new(5), Seller::new(15), Seller::new(8)];
    let sold = vec![true, false, false];
    let order = vec![0, 1, 2];
    assert_eq!(market::market::first_free_seller(&s, &sold, &order, 10), Some(2));
    assert_eq!(market::market::first_free_seller(&s, &sold, &order, 20), Some(1));
    assert_eq!(market::market::first_free_seller(&s, &sold, &order, 5), None);
    assert_eq!(market::market::first_free_seller(&s, &sold, &vec![2, 1], 20), Some(2));
}

#[test]
fn greedy_agents_beyond_the_ranks_sit_out() {
    let b = vec![Buyer::bounded(30, 50), Buyer::bounded(20, 50), Buyer::bounded(10, 50)];
    let s = vec![Seller::bounded(5, 1)];
    let mut m = Market::from_agents(b, s, Strategy::GreedySortedBounded, 2);
    let trades = m.trade_round();
    assert_eq!(trades.len(), 1);
    assert_eq!(trades[0].price, 18);
    assert_eq!(m.buyers[0].bid_price(), 24);
    assert_eq!(m.buyers[1].bid_price(), 20);
    assert_eq!(m.buyers[2].bid_price(), 10);
    assert_eq!(m.sellers[0].ask_price(), 12);
}
