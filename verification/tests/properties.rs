use order_matcher::book::OrderBook;
use order_matcher::decimal::Dec;
use order_matcher::engine::MatcherEngine;
use order_matcher::order::{Operation, Order, RawOrder, Side, Trade};

fn create(id: &str, pair: &str, side: Side, price: &str, amount: &str) -> RawOrder {
    RawOrder {
        type_op: Operation::CREATE,
        account_id: "acc".to_string(),
        amount: amount.to_string(),
        order_id: id.to_string(),
        pair: pair.to_string(),
        limit_price: price.to_string(),
        side,
    }
}

fn delete(id: &str, pair: &str) -> RawOrder {
    RawOrder {
        type_op: Operation::DELETE,
        account_id: String::new(),
        amount: String::new(),
        order_id: id.to_string(),
        pair: pair.to_string(),
        limit_price: String::new(),
        side: Side::BUY,
    }
}

// The value of a decimal text in units of 10^-6, for texts with at most six
// digits behind the point.
fn micro(text: &str) -> i128 {
    let d = Dec::parse(text).unwrap();
    assert!(d.scale <= 6);
    d.mantissa * 10i128.pow(6 - d.scale)
}

fn book_of<'a>(books: &'a [Order], pair: &str) -> &'a Order {
    books.iter().find(|b| b.pair == pair).unwrap()
}

fn trades_of(trades: &[Trade], pair: &str) -> Vec<Trade> {
    trades.iter().filter(|t| t.pair == pair).cloned().collect()
}

fn busy_batch() -> Vec<RawOrder> {
    vec![
        create("b1", "BTCUSD", Side::BUY, "100", "1.5"),
        create("b2", "BTCUSD", Side::BUY, "101.5", "2"),
        create("b3", "BTCUSD", Side::BUY, "100", "0.25"),
        create("b4", "BTCUSD", Side::BUY, "99", "4"),
        create("b5", "BTCUSD", Side::BUY, "101.50", "1"),
        create("s1", "BTCUSD", Side::SELL, "105", "1"),
        create("s2", "BTCUSD", Side::SELL, "103", "2"),
        create("s3", "BTCUSD", Side::SELL, "105.0", "3"),
        create("s4", "BTCUSD", Side::SELL, "102", "0.5"),
        delete("b3", "BTCUSD"),
        create("s5", "BTCUSD", Side::SELL, "100", "2.75"),
        create("b6", "BTCUSD", Side::BUY, "103", "1"),
        delete("s1", "BTCUSD"),
        create("b7", "BTCUSD", Side::BUY, "98.5", "7"),
    ]
}

#[test]
fn snapshot_sides_are_sorted_by_price_then_time() {
    let (books, _) = MatcherEngine::run(&busy_batch()).unwrap();
    let book = &books[0];
    let bids: Vec<(&str, &str, &str)> = book
        .bids
        .iter()
        .map(|b| (b.id.as_str(), b.price.as_str(), b.remaining.as_str()))
        .collect();
    let asks: Vec<(&str, &str, &str)> = book
        .asks
        .iter()
        .map(|a| (a.id.as_str(), a.price.as_str(), a.remaining.as_str()))
        .collect();
    assert_eq!(
        bids,
        vec![
            ("b5", "101.50", "0.25"),
            ("b1", "100", "1.5"),
            ("b4", "99", "4"),
            ("b7", "98.5", "7"),
        ]
    );
    assert_eq!(asks, vec![("s2", "103", "1.5"), ("s3", "105.0", "3")]);
    for side in [&bids, &asks] {
        for entry in side.iter() {
            assert!(micro(entry.2) > 0);
        }
    }
    for pair in bids.windows(2) {
        assert!(micro(pair[0].1) >= micro(pair[1].1));
    }
    for pair in asks.windows(2) {
        assert!(micro(pair[0].1) <= micro(pair[1].1));
    }
}

#[test]
fn every_trade_is_at_the_price_of_the_resting_order() {
    let (_, trades) = MatcherEngine::run(&busy_batch()).unwrap();
    let seen: Vec<(&str, &str, &str, &str)> = trades
        .iter()
        .map(|t| {
            (
                t.buy_order_id.as_str(),
                t.sell_order_id.as_str(),
                t.amount.as_str(),
                t.price.as_str(),
            )
        })
        .collect();
    assert_eq!(
        seen,
        vec![
            ("b2", "s5", "2", "101.5"),
            ("b5", "s5", "0.75", "101.50"),
            ("b6", "s4", "0.5", "102"),
            ("b6", "s2", "0.5", "103"),
        ]
    );
}

#[test]
fn fills_and_the_rest_add_up_to_the_amount() {
    let mut book = OrderBook::new("BTCUSD".to_string());
    for (id, amount) in [("s1", "0.1"), ("s2", "0.2"), ("s3", "0.35"), ("s4", "1.055")] {
        assert_eq!(
            book.process(&create(id, "BTCUSD", Side::SELL, "10", amount)),
            Ok(())
        );
    }
    assert_eq!(
        book.process(&create("b1", "BTCUSD", Side::BUY, "10", "1.7")),
        Ok(())
    );
    let traded: i128 = book.trades().iter().map(|t| micro(&t.amount)).sum();
    assert_eq!(traded, micro("1.7"));
    let snapshot = book.normalize();
    assert_eq!(snapshot.bids.len(), 0);
    assert_eq!(snapshot.asks.len(), 1);
    assert_eq!(snapshot.asks[0].remaining, "0.005");

    assert_eq!(
        book.process(&create("b2", "BTCUSD", Side::BUY, "10", "3")),
        Ok(())
    );
    let traded: i128 = book
        .trades()
        .iter()
        .filter(|t| t.buy_order_id == "b2")
        .map(|t| micro(&t.amount))
        .sum();
    let snapshot = book.normalize();
    assert_eq!(snapshot.bids.len(), 1);
    assert_eq!(snapshot.bids[0].remaining, "2.995");
    assert_eq!(traded + micro(&snapshot.bids[0].remaining), micro("3"));
}

#[test]
fn no_trade_is_beyond_the_limit_of_the_incoming_order() {
    let mut book = OrderBook::new("BTCUSD".to_string());
    for (id, price) in [("s1", "100"), ("s2", "101"), ("s3", "102"), ("s4", "103")] {
        assert_eq!(
            book.process(&create(id, "BTCUSD", Side::SELL, price, "1")),
            Ok(())
        );
    }
    assert_eq!(
        book.process(&create("b1", "BTCUSD", Side::BUY, "101.5", "10")),
        Ok(())
    );
    assert_eq!(book.trades().len(), 2);
    for t in book.trades().iter() {
        assert!(micro(&t.price) <= micro("101.5"));
    }
    assert_eq!(
        book.process(&create("x1", "BTCUSD", Side::SELL, "101.5", "20")),
        Ok(())
    );
    assert_eq!(book.trades().len(), 3);
    assert_eq!(book.trades()[2].price, "101.5");
    assert_eq!(book.trades()[2].amount, "8");
    assert_eq!(book.trades()[2].buy_order_id, "b1");
    assert_eq!(book.trades()[2].sell_order_id, "x1");
}

#[test]
fn a_second_delete_changes_nothing() {
    let start = vec![
        create("b1", "BTCUSD", Side::BUY, "100", "1"),
        create("b2", "BTCUSD", Side::BUY, "100", "1"),
        create("s1", "BTCUSD", Side::SELL, "101", "1"),
    ];
    let mut once = OrderBook::new("BTCUSD".to_string());
    let mut twice = OrderBook::new("BTCUSD".to_string());
    for command in start.iter() {
        assert_eq!(once.process(command), Ok(()));
        assert_eq!(twice.process(command), Ok(()));
    }
    assert_eq!(once.process(&delete("b1", "BTCUSD")), Ok(()));
    assert_eq!(twice.process(&delete("b1", "BTCUSD")), Ok(()));
    assert_eq!(twice.process(&delete("b1", "BTCUSD")), Ok(()));
    assert_eq!(once.normalize(), twice.normalize());
    assert_eq!(once.trades(), twice.trades());
    assert_eq!(once.seq(), twice.seq());
    let taker = create("s2", "BTCUSD", Side::SELL, "100", "2");
    assert_eq!(once.process(&taker), Ok(()));
    assert_eq!(twice.process(&taker), Ok(()));
    assert_eq!(once.normalize(), twice.normalize());
    assert_eq!(once.trades(), twice.trades());
    assert_eq!(once.trades().len(), 1);
    assert_eq!(once.trades()[0].buy_order_id, "b2");
}

#[test]
fn interleaved_pairs_give_the_books_of_each_pair_alone() {
    let btc = vec![
        create("o1", "BTCUSD", Side::BUY, "100", "5"),
        create("o2", "BTCUSD", Side::SELL, "99", "2"),
        delete("o1", "BTCUSD"),
        create("o3", "BTCUSD", Side::SELL, "98", "1"),
    ];
    let eth = vec![
        create("o1", "ETHUSD", Side::SELL, "10", "5"),
        create("o2", "ETHUSD", Side::BUY, "11", "7"),
        create("o3", "ETHUSD", Side::SELL, "10.5", "1"),
    ];
    let copy = |c: &RawOrder| RawOrder {
        type_op: c.type_op,
        account_id: c.account_id.clone(),
        amount: c.amount.clone(),
        order_id: c.order_id.clone(),
        pair: c.pair.clone(),
        limit_price: c.limit_price.clone(),
        side: c.side,
    };
    let sequential: Vec<RawOrder> = btc.iter().chain(eth.iter()).map(copy).collect();
    let interleaved: Vec<RawOrder> = vec![
        copy(&eth[0]),
        copy(&btc[0]),
        copy(&btc[1]),
        copy(&eth[1]),
        copy(&btc[2]),
        copy(&eth[2]),
        copy(&btc[3]),
    ];
    let (books_a, trades_a) = MatcherEngine::run(&sequential).unwrap();
    let (books_b, trades_b) = MatcherEngine::run(&interleaved).unwrap();
    assert_eq!(books_a.len(), 2);
    assert_eq!(books_b.len(), 2);
    assert_eq!(books_a[0].pair, "BTCUSD");
    assert_eq!(books_b[0].pair, "ETHUSD");
    for pair in ["BTCUSD", "ETHUSD"] {
        assert_eq!(book_of(&books_a, pair), book_of(&books_b, pair));
        assert_eq!(trades_of(&trades_a, pair), trades_of(&trades_b, pair));
    }
    assert_eq!(trades_of(&trades_a, "BTCUSD").len(), 1);
    assert_eq!(trades_of(&trades_a, "ETHUSD").len(), 2);
    assert_eq!(book_of(&books_a, "BTCUSD").asks.len(), 1);
    assert_eq!(book_of(&books_a, "ETHUSD").bids.len(), 1);
    assert_eq!(book_of(&books_a, "ETHUSD").bids[0].remaining, "1");
}

#[test]
fn the_sequence_counter_counts_accepted_creates() {
    let mut book = OrderBook::new("BTCUSD".to_string());
    assert_eq!(book.seq(), 0);
    assert!(book.pair_is(&"BTCUSD".to_string()));
    assert!(!book.pair_is(&"ETHUSD".to_string()));
    assert_eq!(book.process(&create("b1", "BTCUSD", Side::BUY, "1", "1")), Ok(()));
    assert_eq!(book.seq(), 1);
    assert_eq!(book.process(&delete("b1", "BTCUSD")), Ok(()));
    assert_eq!(book.seq(), 1);
    assert!(book.process(&create("b2", "BTCUSD", Side::BUY, "x", "1")).is_err());
    assert_eq!(book.seq(), 1);
    assert_eq!(book.process(&create("b2", "BTCUSD", Side::BUY, "1", "1")), Ok(()));
    assert_eq!(book.seq(), 2);
}

#[test]
fn stale_entries_are_never_shown_nor_matched() {
    let mut book = OrderBook::new("BTCUSD".to_string());
    for i in 0..20 {
        let id = format!("b{}", i);
        let price = format!("{}", 100 + i);
        assert_eq!(
            book.process(&create(&id, "BTCUSD", Side::BUY, &price, "1")),
            Ok(())
        );
    }
    for i in 5..20 {
        assert_eq!(book.process(&delete(&format!("b{}", i), "BTCUSD")), Ok(()));
    }
    let snapshot = book.normalize();
    let ids: Vec<&str> = snapshot.bids.iter().map(|b| b.id.as_str()).collect();
    assert_eq!(ids, vec!["b4", "b3", "b2", "b1", "b0"]);
    assert_eq!(
        book.process(&create("s1", "BTCUSD", Side::SELL, "102", "10")),
        Ok(())
    );
    assert_eq!(book.trades().len(), 3);
    assert_eq!(book.trades()[0].buy_order_id, "b4");
    assert_eq!(book.trades()[0].price, "104");
    assert_eq!(book.trades()[1].buy_order_id, "b3");
    assert_eq!(book.trades()[2].buy_order_id, "b2");
    assert_eq!(book.trades()[2].price, "102");
    let snapshot = book.normalize();
    assert_eq!(snapshot.asks.len(), 1);
    assert_eq!(snapshot.asks[0].remaining, "7");
    let ids: Vec<&str> = snapshot.bids.iter().map(|b| b.id.as_str()).collect();
    assert_eq!(ids, vec!["b1", "b0"]);
}

struct Lcg(u64);

impl Lcg {
    fn next(&mut self, bound: u64) -> u64 {
        self.0 = self
            .0
            .wrapping_mul(6364136223846793005)
            .wrapping_add(1442695040888963407);
        (self.0 >> 33) % bound
    }
}

fn decimal_text(mantissa: u64, scale: u32) -> String {
    let digits = format!("{:0>width$}", mantissa, width = scale as usize + 1);
    if scale == 0 {
        digits
    } else {
        let split = digits.len() - scale as usize;
        format!("{}.{}", &digits[..split], &digits[split..])
    }
}

#[test]
fn a_long_batch_keeps_every_book_in_order() {
    let mut rng = Lcg(20240229);
    let mut commands = Vec::new();
    let mut amounts: Vec<(String, i128)> = Vec::new();
    let mut deleted: Vec<String> = Vec::new();
    for n in 0..3000u64 {
        if n > 10 && rng.next(10) == 0 {
            let victim = format!("o{}", rng.next(n));
            deleted.push(victim.clone());
            commands.push(delete(&victim, "BTCUSD"));
            continue;
        }
        let side = if rng.next(2) == 0 { Side::BUY } else { Side::SELL };
        let price_scale = rng.next(3) as u32;
        let price = (90 + rng.next(21)) * 10u64.pow(price_scale) + rng.next(10u64.pow(price_scale));
        let amount_scale = rng.next(4) as u32;
        let amount = 1 + rng.next(5000);
        let id = format!("o{}", n);
        let amount_text = decimal_text(amount, amount_scale);
        amounts.push((id.clone(), micro(&amount_text)));
        commands.push(create(
            &id,
            "BTCUSD",
            side,
            &decimal_text(price, price_scale),
            &amount_text,
        ));
    }
    let (books, trades) = MatcherEngine::run(&commands).unwrap();
    assert_eq!(books.len(), 1);
    let book = &books[0];
    assert!(trades.len() > 500);
    assert!(book.bids.len() + book.asks.len() > 10);
    for pair in book.bids.windows(2) {
        assert!(micro(&pair[0].price) >= micro(&pair[1].price));
    }
    for pair in book.asks.windows(2) {
        assert!(micro(&pair[0].price) <= micro(&pair[1].price));
    }
    if !book.bids.is_empty() && !book.asks.is_empty() {
        assert!(micro(&book.bids[0].price) < micro(&book.asks[0].price));
    }
    for t in trades.iter() {
        assert!(micro(&t.amount) > 0);
    }
    for (id, amount) in amounts.iter() {
        if deleted.contains(id) {
            assert!(book.bids.iter().all(|b| &b.id != id));
            assert!(book.asks.iter().all(|a| &a.id != id));
            continue;
        }
        let traded: i128 = trades
            .iter()
            .filter(|t| &t.buy_order_id == id || &t.sell_order_id == id)
            .map(|t| micro(&t.amount))
            .sum();
        let resting: i128 = book
            .bids
            .iter()
            .filter(|b| &b.id == id)
            .map(|b| micro(&b.remaining))
            .chain(
                book.asks
                    .iter()
                    .filter(|a| &a.id == id)
                    .map(|a| micro(&a.remaining)),
            )
            .sum();
        assert!(book.bids.iter().filter(|b| &b.id == id).count() <= 1);
        for b in book.bids.iter().filter(|b| &b.id == id) {
            assert!(micro(&b.remaining) > 0);
        }
        for a in book.asks.iter().filter(|a| &a.id == id) {
            assert!(micro(&a.remaining) > 0);
        }
        assert_eq!(traded + resting, *amount);
    }
}
