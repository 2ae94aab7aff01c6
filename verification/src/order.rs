//! Commands, resting orders, trades and snapshots, each with its view.

use crate::decimal::Dec;
use vstd::prelude::*;

verus! {

/// What a command asks for.
#[allow(non_camel_case_types)]
#[derive(Clone, Copy, Debug, PartialEq, Eq, Structural)]
pub enum Operation {
    CREATE,
    DELETE,
}

/// The side of the book an order rests on.
#[allow(non_camel_case_types)]
#[derive(Clone, Copy, Debug, PartialEq, Eq, Structural)]
pub enum Side {
    BUY,
    SELL,
}

impl Side {
    /// The side an order of this side trades against.
    pub open spec fn opposite(self) -> Side {
        match self {
            Side::BUY => Side::SELL,
            Side::SELL => Side::BUY,
        }
    }
}

/// A command as it arrives: decimal fields are still text.  On a delete
/// only `type_op` and `order_id` are read.
#[derive(Debug, PartialEq, Eq)]
pub struct RawOrder {
    pub type_op: Operation,
    pub account_id: String,
    pub amount: String,
    pub order_id: String,
    pub pair: String,
    pub limit_price: String,
    pub side: Side,
}

/// The view of a [`RawOrder`].
pub struct RawOrderView {
    pub type_op: Operation,
    pub account_id: Seq<char>,
    pub amount: Seq<char>,
    pub order_id: Seq<char>,
    pub pair: Seq<char>,
    pub limit_price: Seq<char>,
    pub side: Side,
}

impl View for RawOrder {
    type V = RawOrderView;

    open spec fn view(&self) -> RawOrderView {
        RawOrderView {
            type_op: self.type_op,
            account_id: self.account_id@,
            amount: self.amount@,
            order_id: self.order_id@,
            pair: self.pair@,
            limit_price: self.limit_price@,
            side: self.side,
        }
    }
}

/// An order in the book, or on its way into it.  `ts` is the sequence
/// number that the book gave it on admission.
#[derive(Debug, PartialEq, Eq)]
pub struct BookOrder {
    pub id: String,
    pub account: String,
    pub side: Side,
    pub pair: String,
    pub price: Dec,
    pub remaining: Dec,
    pub ts: u64,
}

/// The view of a [`BookOrder`].
pub struct OrderView {
    pub id: Seq<char>,
    pub account: Seq<char>,
    pub side: Side,
    pub pair: Seq<char>,
    pub price: Dec,
    pub remaining: Dec,
    pub ts: u64,
}

impl OrderView {
    /// The same order with another remaining amount.
    pub open spec fn with_remaining(self, remaining: Dec) -> OrderView {
        OrderView { remaining, ..self }
    }

    /// Price and remaining amount are decimals above zero.
    pub open spec fn valid(self) -> bool {
        &&& self.price.wf()
        &&& self.remaining.wf()
        &&& self.price.positive()
        &&& self.remaining.positive()
    }
}

impl View for BookOrder {
    type V = OrderView;

    open spec fn view(&self) -> OrderView {
        OrderView {
            id: self.id@,
            account: self.account@,
            side: self.side,
            pair: self.pair@,
            price: self.price,
            remaining: self.remaining,
            ts: self.ts,
        }
    }
}

impl Clone for BookOrder {
    fn clone(&self) -> (r: Self)
        ensures
            r == *self,
    {
        BookOrder {
            id: self.id.clone(),
            account: self.account.clone(),
            side: self.side,
            pair: self.pair.clone(),
            price: self.price,
            remaining: self.remaining,
            ts: self.ts,
        }
    }
}

impl BookOrder {
    /// Whether two orders agree in every field.
    pub fn same_record(&self, other: &BookOrder) -> (r: bool)
        ensures
            r == (self@ == other@),
    {
        self.id == other.id && self.account == other.account && self.side == other.side
            && self.pair == other.pair && self.price == other.price && self.remaining
            == other.remaining && self.ts == other.ts
    }
}

/// One execution: `amount` changed hands at `price`, the price of the order
/// that was resting.
#[derive(Debug, PartialEq, Eq)]
pub struct Trade {
    pub pair: String,
    pub buy_order_id: String,
    pub sell_order_id: String,
    pub price: String,
    pub amount: String,
    pub ts: u64,
}

/// The view of a [`Trade`].
pub struct TradeView {
    pub pair: Seq<char>,
    pub buy_order_id: Seq<char>,
    pub sell_order_id: Seq<char>,
    pub price: Seq<char>,
    pub amount: Seq<char>,
    pub ts: u64,
}

impl View for Trade {
    type V = TradeView;

    open spec fn view(&self) -> TradeView {
        TradeView {
            pair: self.pair@,
            buy_order_id: self.buy_order_id@,
            sell_order_id: self.sell_order_id@,
            price: self.price@,
            amount: self.amount@,
            ts: self.ts,
        }
    }
}

impl Clone for Trade {
    fn clone(&self) -> (r: Self)
        ensures
            r == *self,
    {
        Trade {
            pair: self.pair.clone(),
            buy_order_id: self.buy_order_id.clone(),
            sell_order_id: self.sell_order_id.clone(),
            price: self.price.clone(),
            amount: self.amount.clone(),
            ts: self.ts,
        }
    }
}

/// The views of a sequence of trades.
pub open spec fn trade_views(trades: Seq<Trade>) -> Seq<TradeView> {
    Seq::new(trades.len(), |i: int| trades[i]@)
}

/// The views of a sequence of commands.
pub open spec fn command_views(commands: Seq<RawOrder>) -> Seq<RawOrderView> {
    Seq::new(commands.len(), |i: int| commands[i]@)
}

/// What a snapshot shows of one resting order.
pub struct EntryView {
    pub id: Seq<char>,
    pub price: Seq<char>,
    pub remaining: Seq<char>,
    pub account: Seq<char>,
}

/// A resting buy order in a snapshot.
#[derive(Debug, PartialEq, Eq)]
pub struct Bid {
    pub id: String,
    pub price: String,
    pub remaining: String,
    pub account: String,
}

impl View for Bid {
    type V = EntryView;

    open spec fn view(&self) -> EntryView {
        EntryView {
            id: self.id@,
            price: self.price@,
            remaining: self.remaining@,
            account: self.account@,
        }
    }
}

/// A resting sell order in a snapshot.
#[derive(Debug, PartialEq, Eq)]
pub struct Ask {
    pub id: String,
    pub price: String,
    pub remaining: String,
    pub account: String,
}

impl View for Ask {
    type V = EntryView;

    open spec fn view(&self) -> EntryView {
        EntryView {
            id: self.id@,
            price: self.price@,
            remaining: self.remaining@,
            account: self.account@,
        }
    }
}

/// The views of a sequence of bids.
pub open spec fn bid_views(bids: Seq<Bid>) -> Seq<EntryView> {
    Seq::new(bids.len(), |i: int| bids[i]@)
}

/// The views of a sequence of asks.
pub open spec fn ask_views(asks: Seq<Ask>) -> Seq<EntryView> {
    Seq::new(asks.len(), |i: int| asks[i]@)
}

/// The snapshot of one book: its resting orders, best first on each side.
#[derive(Debug, PartialEq, Eq)]
pub struct Order {
    pub pair: String,
    pub bids: Vec<Bid>,
    pub asks: Vec<Ask>,
}

/// The view of an [`Order`].
pub struct SnapshotView {
    pub pair: Seq<char>,
    pub bids: Seq<EntryView>,
    pub asks: Seq<EntryView>,
}

impl View for Order {
    type V = SnapshotView;

    open spec fn view(&self) -> SnapshotView {
        SnapshotView {
            pair: self.pair@,
            bids: bid_views(self.bids@),
            asks: ask_views(self.asks@),
        }
    }
}

/// The views of a sequence of snapshots.
pub open spec fn snapshot_views(orders: Seq<Order>) -> Seq<SnapshotView> {
    Seq::new(orders.len(), |i: int| orders[i]@)
}

} // verus!
