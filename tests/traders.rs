use market::{Buyer, Seller};

#[test]
fn bounded_seller_floor_holds() {
    let mut s = Seller::bounded(15, 10);
    assert_eq!(s.ask_price(), 15);
    s.resolve_offer(None);
    assert_eq!(s.ask_price(), 10);
    s.resolve_offer(None);
    assert_eq!(s.ask_price(), 10);
}

#[test]
fn bounded_buyer_ceiling_holds() {
    let mut b = Buyer::bounded(40, 43);
    b.resolve_offer(None);
    assert_eq!(b.bid_price(), 43);
    b.resolve_offer(None);
    assert_eq!(b.bid_price(), 43);
    let mut c = Buyer::bounded(6, 100);
    c.resolve_offer(None);
    assert_eq!(c.bid_price(), 8);
}

#[test]
fn bounded_agents_average_towards_trade_price() {
    let mut b = Buyer::bounded(20, 30);
    b.resolve_offer(Some(15));
    assert_eq!(b.bid_price(), 18);
    let mut s = Seller::bounded(20, 10);
    s.resolve_offer(Some(25));
    assert_eq!(s.ask_price(), 23);
    let mut low = Seller::bounded(20, 19);
    low.resolve_offer(Some(10));
    assert_eq!(low.ask_price(), 19);
}

#[test]
fn strikes_count_failures_and_reset_on_trade() {
    let mut b = Buyer::new(10);
    b.resolve_offer(None);
    b.resolve_offer(None);
    assert_eq!(b.strikes(), 2);
    b.resolve_offer(Some(9));
    assert_eq!(b.strikes(), 0);
    let mut s = Seller::new(10);
    s.resolve_offer(None);
    assert_eq!(s.strikes(), 1);
}

#[test]
fn failed_buyer_raises_bid() {
    let mut b = Buyer::new(10);
    b.resolve_offer(None);
    b.close_day(30);
    assert_eq!(b.bid_price(), 45);
    let mut c = Buyer::new(40);
    c.resolve_offer(None);
    c.close_day(0);
    assert_eq!(c.bid_price(), 60);
}

#[test]
fn overpaying_buyer_moves_halfway() {
    let mut b = Buyer::new(30);
    b.resolve_offer(Some(25));
    b.close_day(21);
    assert_eq!(b.bid_price(), 26);
    let mut c = Buyer::new(20);
    c.resolve_offer(Some(20));
    c.close_day(25);
    assert_eq!(c.bid_price(), 20);
}

#[test]
fn failed_seller_lowers_ask() {
    let mut s = Seller::new(30);
    s.resolve_offer(None);
    s.close_day(20);
    assert_eq!(s.ask_price(), 10);
    let mut t = Seller::new(9);
    t.resolve_offer(None);
    t.close_day(0);
    assert_eq!(t.ask_price(), 5);
}

#[test]
fn underselling_seller_moves_halfway() {
    let mut s = Seller::new(10);
    s.resolve_offer(Some(12));
    s.close_day(17);
    assert_eq!(s.ask_price(), 14);
}

#[test]
fn bounded_agents_ignore_close_day() {
    let mut b = Buyer::bounded(10, 12);
    b.close_day(50);
    assert_eq!(b.bid_price(), 10);
    let mut s = Seller::bounded(10, 8);
    s.close_day(1);
    assert_eq!(s.ask_price(), 10);
}

#[test]
fn raised_bid_saturates() {
    let mut b = Buyer::new(u32::MAX);
    b.resolve_offer(None);
    b.close_day(0);
    assert_eq!(b.bid_price(), u32::MAX);
}
