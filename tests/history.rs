use market::{History, Statistics};

#[test]
fn price_rounds_half_up() {
    assert_eq!(Statistics::new(2, 5).price(), 3);
    assert_eq!(Statistics::new(3, 10).price(), 3);
    assert_eq!(Statistics::new(4, 10).price(), 3);
    assert_eq!(Statistics::new(3, 11).price(), 4);
}

#[test]
fn price_without_volume_is_zero() {
    assert_eq!(Statistics::new(0, 0).price(), 0);
    assert_eq!(Statistics::new(0, 7).price(), 0);
}

#[test]
fn add_sums_and_saturates() {
    let s = Statistics::new(1, 2).add(Statistics::new(3, 4));
    assert_eq!((s.volume(), s.value()), (4, 6));
    let t = Statistics::new(u32::MAX, 1).add(Statistics::new(1, 1));
    assert_eq!((t.volume(), t.value()), (u32::MAX, 2));
}

#[test]
fn latest_is_zero_before_any_day() {
    let h: History<25> = History::new();
    let l = h.get_latest();
    assert_eq!((l.volume(), l.value()), (0, 0));
}

#[test]
fn insert_moves_cursor_and_overwrites() {
    let mut h: History<3> = History::new();
    h.insert(1, 10);
    assert_eq!(h.get_latest(), Statistics::new(1, 10));
    h.insert(2, 20);
    h.insert(3, 30);
    h.insert(4, 40);
    assert_eq!(h.get_latest(), Statistics::new(4, 40));
    assert_eq!(h.get_totals(), Statistics::new(9, 90));
}

#[test]
fn totals_after_two_full_cycles_count_only_the_second() {
    let mut h: History<25> = History::new();
    for i in 0..25u32 {
        h.insert(100 + i, 1000 + i);
    }
    for i in 0..25u32 {
        h.insert(i, 2 * i);
    }
    assert_eq!(h.get_totals(), Statistics::new(300, 600));
}

#[test]
fn totals_ignore_order_within_a_cycle() {
    let days = [(3u32, 30u32), (1, 12), (7, 70), (0, 0), (5, 41)];
    let mut a: History<5> = History::new();
    let mut b: History<5> = History::new();
    for d in days.iter() {
        a.insert(d.0, d.1);
    }
    for d in days.iter().rev() {
        b.insert(d.0, d.1);
    }
    assert_eq!(a.get_totals(), b.get_totals());
    assert_eq!(a.get_totals(), Statistics::new(16, 153));
}

#[test]
fn totals_before_a_full_cycle_include_empty_slots() {
    let mut h: History<25> = History::new();
    h.insert(2, 40);
    assert_eq!(h.get_totals(), Statistics::new(2, 40));
    assert_eq!(h.get_totals().price(), 20);
}
