use order_matcher::decimal::Dec;
use order_matcher::id_index::IdIndex;
use order_matcher::order::{BookOrder, Side};
use order_matcher::price_level_index::{ranks_before, PriceLevelIndex};

fn order(id: &str, side: Side, price: (i128, u32), remaining: (i128, u32), ts: u64) -> BookOrder {
    BookOrder {
        id: id.to_string(),
        account: format!("acc-{}", id),
        side,
        pair: "BTCUSD".to_string(),
        price: Dec { mantissa: price.0, scale: price.1 },
        remaining: Dec { mantissa: remaining.0, scale: remaining.1 },
        ts,
    }
}

#[test]
fn bids_rank_by_falling_price_then_time() {
    let a = order("a", Side::BUY, (100, 0), (1, 0), 0);
    let b = order("b", Side::BUY, (101, 0), (1, 0), 1);
    let c = order("c", Side::BUY, (1000, 1), (1, 0), 2);
    assert!(ranks_before(Side::BUY, &b, &a));
    assert!(!ranks_before(Side::BUY, &a, &b));
    assert!(ranks_before(Side::BUY, &a, &c));
    assert!(!ranks_before(Side::BUY, &c, &a));
    assert!(!ranks_before(Side::BUY, &a, &a));
}

#[test]
fn asks_rank_by_rising_price_then_time() {
    let a = order("a", Side::SELL, (100, 0), (1, 0), 0);
    let b = order("b", Side::SELL, (101, 0), (1, 0), 1);
    let c = order("c", Side::SELL, (1000, 1), (1, 0), 2);
    assert!(ranks_before(Side::SELL, &a, &b));
    assert!(!ranks_before(Side::SELL, &b, &a));
    assert!(ranks_before(Side::SELL, &a, &c));
    assert!(!ranks_before(Side::SELL, &c, &a));
    assert!(!ranks_before(Side::SELL, &b, &b));
}

#[test]
fn id_index_finds_what_was_put_in() {
    let mut index = IdIndex::new();
    assert!(index.get(&"a".to_string()).is_none());
    index.insert(order("a", Side::BUY, (100, 0), (5, 0), 0));
    index.insert(order("b", Side::SELL, (101, 0), (7, 0), 1));
    let found = index.get(&"b".to_string()).unwrap();
    assert_eq!(found, &order("b", Side::SELL, (101, 0), (7, 0), 1));
    assert!(index.get(&"c".to_string()).is_none());
    assert!(index.holds(&order("a", Side::BUY, (100, 0), (5, 0), 0)));
    assert!(!index.holds(&order("a", Side::BUY, (100, 0), (4, 0), 0)));
    assert!(!index.holds(&order("a", Side::BUY, (100, 0), (50, 1), 0)));
    assert!(!index.holds(&order("a", Side::BUY, (100, 0), (5, 0), 3)));
    assert!(!index.holds(&order("a", Side::BUY, (99, 0), (5, 0), 0)));
    assert!(!index.holds(&order("c", Side::BUY, (100, 0), (5, 0), 0)));
}

#[test]
fn id_index_updates_the_remaining_amount_of_one_id() {
    let mut index = IdIndex::new();
    index.insert(order("a", Side::BUY, (100, 0), (5, 0), 0));
    index.insert(order("b", Side::BUY, (100, 0), (5, 0), 1));
    assert!(index.update_remaining(&"a".to_string(), Dec { mantissa: 25, scale: 1 }));
    assert!(!index.update_remaining(&"z".to_string(), Dec { mantissa: 1, scale: 0 }));
    assert_eq!(
        index.get(&"a".to_string()).unwrap(),
        &order("a", Side::BUY, (100, 0), (25, 1), 0)
    );
    assert_eq!(
        index.get(&"b".to_string()).unwrap(),
        &order("b", Side::BUY, (100, 0), (5, 0), 1)
    );
}

#[test]
fn id_index_gives_back_what_it_takes_out() {
    let mut index = IdIndex::new();
    index.insert(order("a", Side::BUY, (100, 0), (5, 0), 0));
    index.insert(order("b", Side::BUY, (100, 0), (5, 0), 1));
    index.insert(order("c", Side::BUY, (100, 0), (5, 0), 2));
    assert_eq!(
        index.remove(&"b".to_string()),
        Some(order("b", Side::BUY, (100, 0), (5, 0), 1))
    );
    assert_eq!(index.remove(&"b".to_string()), None);
    assert!(index.get(&"b".to_string()).is_none());
    assert!(index.get(&"a".to_string()).is_some());
    assert!(index.get(&"c".to_string()).is_some());
}

#[test]
fn price_levels_hand_out_the_best_live_entry() {
    let mut index = IdIndex::new();
    let mut asks = PriceLevelIndex::new(Side::SELL);
    let entries = vec![
        order("a", Side::SELL, (102, 0), (1, 0), 0),
        order("b", Side::SELL, (100, 0), (1, 0), 1),
        order("c", Side::SELL, (101, 0), (1, 0), 2),
        order("d", Side::SELL, (1000, 1), (1, 0), 3),
    ];
    for e in entries {
        index.insert(e.clone());
        asks.push(e);
    }
    assert_eq!(asks.len(), 4);
    assert_eq!(asks.entry(0).id, "b");
    assert_eq!(asks.entry(1).id, "d");
    assert_eq!(asks.entry(2).id, "c");
    assert_eq!(asks.entry(3).id, "a");

    assert_eq!(asks.peek_live(&index).unwrap().id, "b");
    assert_eq!(asks.len(), 4);

    index.remove(&"b".to_string());
    index.remove(&"d".to_string());
    assert_eq!(asks.len(), 4);
    assert_eq!(asks.peek_live(&index).unwrap().id, "c");
    assert_eq!(asks.len(), 2);
    assert_eq!(asks.pop_live(&index).unwrap().id, "c");
    assert_eq!(asks.len(), 1);
    assert_eq!(asks.pop_live(&index).unwrap().id, "a");
    assert_eq!(asks.len(), 0);
    assert!(asks.pop_live(&index).is_none());
    assert!(asks.peek_live(&index).is_none());
}

#[test]
fn an_entry_with_an_outdated_amount_is_stale() {
    let mut index = IdIndex::new();
    let mut bids = PriceLevelIndex::new(Side::BUY);
    let first = order("a", Side::BUY, (100, 0), (5, 0), 0);
    let second = order("b", Side::BUY, (99, 0), (5, 0), 1);
    index.insert(first.clone());
    index.insert(second.clone());
    bids.push(first);
    bids.push(second);
    assert!(index.update_remaining(&"a".to_string(), Dec { mantissa: 3, scale: 0 }));
    let top = bids.pop_live(&index).unwrap();
    assert_eq!(top.id, "b");
    assert_eq!(bids.len(), 0);
}

#[test]
fn bid_levels_keep_the_highest_price_first() {
    let index = IdIndex::new();
    let mut bids = PriceLevelIndex::new(Side::BUY);
    bids.push(order("a", Side::BUY, (100, 0), (1, 0), 0));
    bids.push(order("b", Side::BUY, (101, 0), (1, 0), 1));
    bids.push(order("c", Side::BUY, (100, 0), (1, 0), 2));
    bids.push(order("d", Side::BUY, (995, 1), (1, 0), 3));
    let ids: Vec<String> = (0..bids.len()).map(|i| bids.entry(i).id.clone()).collect();
    assert_eq!(ids, vec!["b", "a", "c", "d"]);
    assert!(bids.peek_live(&index).is_none());
    assert_eq!(bids.len(), 0);
}

#[test]
fn a_copy_of_an_order_is_the_same_record() {
    let o = order("a", Side::BUY, (100, 0), (5, 0), 7);
    let copy = o.clone();
    assert!(o.same_record(&copy));
    assert_eq!(o, copy);
    let mut other = o.clone();
    other.account = "someone".to_string();
    assert!(!o.same_record(&other));
    let mut other = o.clone();
    other.pair = "ETHUSD".to_string();
    assert!(!o.same_record(&other));
    let mut other = o.clone();
    other.side = Side::SELL;
    assert!(!o.same_record(&other));
}
