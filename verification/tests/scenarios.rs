use order_matcher::engine::MatcherEngine;
use order_matcher::order::{Operation, Order, RawOrder, Side, Trade};

fn create(id: &str, pair: &str, side: Side, price: &str, amount: &str) -> RawOrder {
    RawOrder {
        type_op: Operation::CREATE,
        account_id: format!("acc-{}", id),
        amount: amount.to_string(),
        order_id: id.to_string(),
        pair: pair.to_string(),
        limit_price: price.to_string(),
        side,
    }
}

fn delete(id: &str, pair: &str) -> RawOrder {
    RawOrder {
        type_op: Operation::DELETE,
        account_id: String::new(),
        amount: String::new(),
        order_id: id.to_string(),
        pair: pair.to_string(),
        limit_price: String::new(),
        side: Side::BUY,
    }
}

fn run(commands: Vec<RawOrder>) -> (Vec<Order>, Vec<Trade>) {
    MatcherEngine::run(&commands).unwrap()
}

fn fill(t: &Trade) -> (String, String, String, String) {
    (
        t.buy_order_id.clone(),
        t.sell_order_id.clone(),
        t.amount.clone(),
        t.price.clone(),
    )
}

fn quad(a: &str, b: &str, c: &str, d: &str) -> (String, String, String, String) {
    (a.to_string(), b.to_string(), c.to_string(), d.to_string())
}

#[test]
fn no_cross_leaves_both_orders_resting() {
    let (books, trades) = run(vec![
        create("b1", "BTCUSD", Side::BUY, "100", "10"),
        create("s1", "BTCUSD", Side::SELL, "101", "10"),
    ]);
    assert_eq!(trades.len(), 0);
    assert_eq!(books.len(), 1);
    assert_eq!(books[0].pair, "BTCUSD");
    assert_eq!(books[0].bids.len(), 1);
    assert_eq!(books[0].bids[0].id, "b1");
    assert_eq!(books[0].bids[0].price, "100");
    assert_eq!(books[0].bids[0].remaining, "10");
    assert_eq!(books[0].bids[0].account, "acc-b1");
    assert_eq!(books[0].asks.len(), 1);
    assert_eq!(books[0].asks[0].id, "s1");
    assert_eq!(books[0].asks[0].price, "101");
    assert_eq!(books[0].asks[0].remaining, "10");
}

#[test]
fn full_take_leaves_maker_partially_filled() {
    let (books, trades) = run(vec![
        create("s1", "BTCUSD", Side::SELL, "100", "10"),
        create("b1", "BTCUSD", Side::BUY, "101", "5"),
    ]);
    assert_eq!(trades.len(), 1);
    assert_eq!(fill(&trades[0]), quad("b1", "s1", "5", "100"));
    assert_eq!(trades[0].pair, "BTCUSD");
    assert_eq!(books[0].bids.len(), 0);
    assert_eq!(books[0].asks.len(), 1);
    assert_eq!(books[0].asks[0].id, "s1");
    assert_eq!(books[0].asks[0].remaining, "5");
    assert_eq!(books[0].asks[0].price, "100");
}

#[test]
fn time_priority_at_equal_price() {
    let (books, trades) = run(vec![
        create("b1", "BTCUSD", Side::BUY, "100", "5"),
        create("b2", "BTCUSD", Side::BUY, "100", "5"),
        create("s1", "BTCUSD", Side::SELL, "100", "10"),
    ]);
    assert_eq!(trades.len(), 2);
    assert_eq!(fill(&trades[0]), quad("b1", "s1", "5", "100"));
    assert_eq!(fill(&trades[1]), quad("b2", "s1", "5", "100"));
    assert_eq!(books[0].bids.len(), 0);
    assert_eq!(books[0].asks.len(), 0);
}

#[test]
fn partial_fill_at_maker_price() {
    let (books, trades) = run(vec![
        create("b1", "BTCUSD", Side::BUY, "100", "10"),
        create("s1", "BTCUSD", Side::SELL, "100", "5"),
    ]);
    assert_eq!(trades.len(), 1);
    assert_eq!(fill(&trades[0]), quad("b1", "s1", "5", "100"));
    assert_eq!(books[0].bids.len(), 1);
    assert_eq!(books[0].bids[0].id, "b1");
    assert_eq!(books[0].bids[0].remaining, "5");
    assert_eq!(books[0].bids[0].price, "100");
    assert_eq!(books[0].asks.len(), 0);
}

#[test]
fn cancel_before_cross() {
    let (books, trades) = run(vec![
        create("b1", "BTCUSD", Side::BUY, "100", "10"),
        delete("b1", "BTCUSD"),
        create("s1", "BTCUSD", Side::SELL, "100", "10"),
    ]);
    assert_eq!(trades.len(), 0);
    assert_eq!(books[0].bids.len(), 0);
    assert_eq!(books[0].asks.len(), 1);
    assert_eq!(books[0].asks[0].id, "s1");
    assert_eq!(books[0].asks[0].remaining, "10");
}

#[test]
fn multi_pair_isolation() {
    let (books, trades) = run(vec![
        create("o1", "BTCUSD", Side::BUY, "100", "10"),
        create("o2", "ETHUSD", Side::SELL, "200", "20"),
    ]);
    assert_eq!(books.len(), 2);
    assert_eq!(trades.len(), 0);
    assert_eq!(books[0].pair, "BTCUSD");
    assert_eq!(books[0].bids.len(), 1);
    assert_eq!(books[0].bids[0].id, "o1");
    assert_eq!(books[0].asks.len(), 0);
    assert_eq!(books[1].pair, "ETHUSD");
    assert_eq!(books[1].bids.len(), 0);
    assert_eq!(books[1].asks.len(), 1);
    assert_eq!(books[1].asks[0].id, "o2");
    assert_eq!(books[1].asks[0].price, "200");
    assert_eq!(books[1].asks[0].remaining, "20");
}

#[test]
fn crossing_prices_across_pairs_do_not_trade() {
    let (books, trades) = run(vec![
        create("o1", "BTCUSD", Side::BUY, "300", "10"),
        create("o2", "ETHUSD", Side::SELL, "200", "20"),
    ]);
    assert_eq!(trades.len(), 0);
    assert_eq!(books[0].bids[0].remaining, "10");
    assert_eq!(books[1].asks[0].remaining, "20");
}

#[test]
fn taker_sweeps_several_levels_best_price_first() {
    let (books, trades) = run(vec![
        create("s1", "BTCUSD", Side::SELL, "102", "3"),
        create("s2", "BTCUSD", Side::SELL, "100", "4"),
        create("s3", "BTCUSD", Side::SELL, "101", "5"),
        create("s4", "BTCUSD", Side::SELL, "110", "5"),
        create("b1", "BTCUSD", Side::BUY, "105", "20"),
    ]);
    assert_eq!(trades.len(), 3);
    assert_eq!(fill(&trades[0]), quad("b1", "s2", "4", "100"));
    assert_eq!(fill(&trades[1]), quad("b1", "s3", "5", "101"));
    assert_eq!(fill(&trades[2]), quad("b1", "s1", "3", "102"));
    assert_eq!(books[0].bids.len(), 1);
    assert_eq!(books[0].bids[0].id, "b1");
    assert_eq!(books[0].bids[0].remaining, "8");
    assert_eq!(books[0].bids[0].price, "105");
    assert_eq!(books[0].asks.len(), 1);
    assert_eq!(books[0].asks[0].id, "s4");
}

#[test]
fn sell_taker_takes_highest_bid_first() {
    let (books, trades) = run(vec![
        create("b1", "BTCUSD", Side::BUY, "99", "1"),
        create("b2", "BTCUSD", Side::BUY, "101", "1"),
        create("b3", "BTCUSD", Side::BUY, "100", "1"),
        create("s1", "BTCUSD", Side::SELL, "100", "5"),
    ]);
    assert_eq!(trades.len(), 2);
    assert_eq!(fill(&trades[0]), quad("b2", "s1", "1", "101"));
    assert_eq!(fill(&trades[1]), quad("b3", "s1", "1", "100"));
    assert_eq!(books[0].bids.len(), 1);
    assert_eq!(books[0].bids[0].id, "b1");
    assert_eq!(books[0].asks.len(), 1);
    assert_eq!(books[0].asks[0].id, "s1");
    assert_eq!(books[0].asks[0].remaining, "3");
}

#[test]
fn trades_carry_the_sequence_number_of_the_incoming_order() {
    let (_, trades) = run(vec![
        create("s1", "BTCUSD", Side::SELL, "100", "1"),
        create("s2", "BTCUSD", Side::SELL, "100", "1"),
        delete("nobody", "BTCUSD"),
        create("b1", "BTCUSD", Side::BUY, "100", "2"),
        create("s3", "BTCUSD", Side::SELL, "100", "1"),
        create("b2", "BTCUSD", Side::BUY, "100", "1"),
    ]);
    assert_eq!(trades.len(), 3);
    assert_eq!(trades[0].ts, 2);
    assert_eq!(trades[1].ts, 2);
    assert_eq!(trades[2].ts, 4);
}

#[test]
fn trades_of_all_books_come_book_after_book() {
    let (books, trades) = run(vec![
        create("a1", "BTCUSD", Side::SELL, "100", "1"),
        create("e1", "ETHUSD", Side::SELL, "10", "1"),
        create("e2", "ETHUSD", Side::BUY, "10", "1"),
        create("a2", "BTCUSD", Side::BUY, "100", "1"),
    ]);
    assert_eq!(books.len(), 2);
    assert_eq!(books[0].pair, "BTCUSD");
    assert_eq!(books[1].pair, "ETHUSD");
    assert_eq!(trades.len(), 2);
    assert_eq!(trades[0].pair, "BTCUSD");
    assert_eq!(fill(&trades[0]), quad("a2", "a1", "1", "100"));
    assert_eq!(trades[1].pair, "ETHUSD");
    assert_eq!(fill(&trades[1]), quad("e2", "e1", "1", "10"));
}

#[test]
fn a_delete_for_a_new_pair_makes_its_book() {
    let (books, trades) = run(vec![delete("x", "BTCUSD")]);
    assert_eq!(trades.len(), 0);
    assert_eq!(books.len(), 1);
    assert_eq!(books[0].pair, "BTCUSD");
    assert_eq!(books[0].bids.len(), 0);
    assert_eq!(books[0].asks.len(), 0);
}

#[test]
fn an_empty_batch_gives_nothing() {
    let (books, trades) = run(vec![]);
    assert_eq!(books.len(), 0);
    assert_eq!(trades.len(), 0);
}
