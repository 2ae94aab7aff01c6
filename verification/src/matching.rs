//! What a book is and what a command does to it, as mathematics.
//!
//! A book is seen as its resting orders, best first on each side, its
//! sequence counter and its trade log.  The functions here say what
//! matching, admission and cancellation make of such a book; the executable
//! book is proved to do exactly that.

use crate::decimal::Dec;
use crate::error::OrderError;
use crate::id_index::{distinct_ids, has_id, without_id};
use crate::order::{EntryView, Operation, OrderView, RawOrderView, Side, SnapshotView, TradeView};
use crate::price_level_index::{insert_sorted, sorted};
use vstd::prelude::*;

verus! {

/// One execution against a resting order (the maker): `amount` at the
/// maker's price.
pub struct Fill {
    pub maker_id: Seq<char>,
    pub price: Dec,
    pub amount: Dec,
}

/// What matching an incoming order leaves: the fills in the order they were
/// made, the opposite side afterwards, and what remains of the incoming
/// order.
pub struct MatchOutcome {
    pub fills: Seq<Fill>,
    pub resting: Seq<OrderView>,
    pub remaining: Dec,
}

/// The price of the resting order is within the limit of the incoming one.
pub open spec fn crosses(taker: OrderView, maker: OrderView) -> bool {
    match taker.side {
        Side::BUY => maker.price.units() <= taker.price.units(),
        Side::SELL => maker.price.units() >= taker.price.units(),
    }
}

/// Matches `taker` against the opposite side `opp`, best first.
///
/// While the taker has something left and the best resting order is within
/// its limit, the smaller of the two remaining amounts changes hands at the
/// resting order's price.  A resting order that is used up leaves the book
/// and the next one is tried; one that is only partly filled stays at the
/// top, and matching ends there, as the taker is then used up.
pub open spec fn match_against(opp: Seq<OrderView>, taker: OrderView) -> MatchOutcome
    decreases opp.len(),
{
    if !taker.remaining.positive() || opp.len() == 0 || !crosses(taker, opp[0]) {
        MatchOutcome { fills: Seq::empty(), resting: opp, remaining: taker.remaining }
    } else {
        let maker = opp[0];
        let amount = taker.remaining.spec_min(maker.remaining);
        let fill = Fill { maker_id: maker.id, price: maker.price, amount };
        let taker_left = taker.remaining.spec_sub(amount);
        let maker_left = maker.remaining.spec_sub(amount);
        if maker_left.positive() {
            MatchOutcome {
                fills: seq![fill],
                resting: opp.update(0, maker.with_remaining(maker_left)),
                remaining: taker_left,
            }
        } else {
            let rest = match_against(opp.drop_first(), taker.with_remaining(taker_left));
            MatchOutcome {
                fills: seq![fill] + rest.fills,
                resting: rest.resting,
                remaining: rest.remaining,
            }
        }
    }
}

/// The amount that the fills moved, in units of 10^-28.
pub open spec fn filled(fills: Seq<Fill>) -> int
    decreases fills.len(),
{
    if fills.len() == 0 {
        0
    } else {
        fills[0].amount.units() + filled(fills.drop_first())
    }
}

/// Every subtraction that matching `taker` against `opp` makes can be held
/// without rounding.
pub open spec fn match_is_exact(opp: Seq<OrderView>, taker: OrderView) -> bool
    decreases opp.len(),
{
    if !taker.remaining.positive() || opp.len() == 0 || !crosses(taker, opp[0]) {
        true
    } else {
        let maker = opp[0];
        let amount = taker.remaining.spec_min(maker.remaining);
        &&& taker.remaining.sub_is_exact(amount)
        &&& maker.remaining.sub_is_exact(amount)
        &&& (maker.remaining.spec_sub(amount).positive() || match_is_exact(
            opp.drop_first(),
            taker.with_remaining(taker.remaining.spec_sub(amount)),
        ))
    }
}

/// The trade that records a fill of `taker`.
pub open spec fn trade_of(pair: Seq<char>, taker: OrderView, fill: Fill) -> TradeView {
    TradeView {
        pair,
        buy_order_id: if taker.side == Side::BUY {
            taker.id
        } else {
            fill.maker_id
        },
        sell_order_id: if taker.side == Side::BUY {
            fill.maker_id
        } else {
            taker.id
        },
        price: fill.price.spec_text(),
        amount: fill.amount.spec_text(),
        ts: taker.ts,
    }
}

/// The trades that record the fills of `taker`, in their order.
pub open spec fn trades_of(pair: Seq<char>, taker: OrderView, fills: Seq<Fill>) -> Seq<TradeView> {
    Seq::new(fills.len(), |i: int| trade_of(pair, taker, fills[i]))
}

/// The order that a create command asks for, once its decimals are read.
pub open spec fn order_of(cmd: RawOrderView, price: Dec, amount: Dec, ts: nat) -> OrderView {
    OrderView {
        id: cmd.order_id,
        account: cmd.account_id,
        side: cmd.side,
        pair: cmd.pair,
        price,
        remaining: amount,
        ts: ts as u64,
    }
}

/// What a snapshot shows of a resting order: its decimals as text.
pub open spec fn entry_of(o: OrderView) -> EntryView {
    EntryView {
        id: o.id,
        price: o.price.spec_text(),
        remaining: o.remaining.spec_text(),
        account: o.account,
    }
}

/// What a snapshot shows of the resting orders of one side, in their order.
pub open spec fn entries_of(orders: Seq<OrderView>) -> Seq<EntryView> {
    Seq::new(orders.len(), |i: int| entry_of(orders[i]))
}

/// A book: the resting orders of each side, best first, the next sequence
/// number, and the trades made so far.
pub struct BookView {
    pub pair: Seq<char>,
    pub bids: Seq<OrderView>,
    pub asks: Seq<OrderView>,
    pub seq: nat,
    pub trades: Seq<TradeView>,
}

impl BookView {
    /// A book in which nothing has happened.
    pub open spec fn fresh(pair: Seq<char>) -> BookView {
        BookView { pair, bids: Seq::empty(), asks: Seq::empty(), seq: 0, trades: Seq::empty() }
    }

    /// The resting orders of one side.
    pub open spec fn side(self, side: Side) -> Seq<OrderView> {
        match side {
            Side::BUY => self.bids,
            Side::SELL => self.asks,
        }
    }

    /// The book with the resting orders of one side replaced.
    pub open spec fn with_side(self, side: Side, orders: Seq<OrderView>) -> BookView {
        match side {
            Side::BUY => BookView { bids: orders, ..self },
            Side::SELL => BookView { asks: orders, ..self },
        }
    }

    /// The book with `o` put to rest at its place on its side.
    pub open spec fn rest(self, o: OrderView) -> BookView {
        self.with_side(o.side, insert_sorted(o.side, self.side(o.side), o))
    }

    /// The snapshot of the book.
    pub open spec fn snapshot(self) -> SnapshotView {
        SnapshotView {
            pair: self.pair,
            bids: entries_of(self.bids),
            asks: entries_of(self.asks),
        }
    }

    /// An order of this id rests in the book.
    pub open spec fn has_order(self, id: Seq<char>) -> bool {
        has_id(self.bids, id) || has_id(self.asks, id)
    }

    /// The orders of one side are of that side, hold decimals above zero and
    /// were admitted before now.
    pub open spec fn side_valid(self, side: Side) -> bool {
        forall|i: int|
            0 <= i < self.side(side).len() ==> {
                &&& (#[trigger] self.side(side)[i]).valid()
                &&& self.side(side)[i].side == side
                &&& self.side(side)[i].ts < self.seq
            }
    }

    /// No resting bid is at the price of a resting ask or above it: every
    /// order that could have traded has traded.
    pub open spec fn uncrossed(self) -> bool {
        forall|i: int, j: int|
            0 <= i < self.bids.len() && 0 <= j < self.asks.len() ==> (
            #[trigger] self.bids[i]).price.units() < (#[trigger] self.asks[j]).price.units()
    }

    /// What holds of every book: each side is sorted by price and time,
    /// every resting order has something remaining, no id rests twice, and
    /// the two sides do not cross.
    pub open spec fn wf(self) -> bool {
        &&& sorted(Side::BUY, self.bids)
        &&& sorted(Side::SELL, self.asks)
        &&& self.side_valid(Side::BUY)
        &&& self.side_valid(Side::SELL)
        &&& distinct_ids(self.bids + self.asks)
        &&& self.uncrossed()
    }

    /// The book after a delete: the order of this id, if one rests, is gone.
    pub open spec fn cancel(self, id: Seq<char>) -> BookView {
        BookView { bids: without_id(self.bids, id), asks: without_id(self.asks, id), ..self }
    }

    /// Why an order of this id, price and amount is refused, if it is.
    pub open spec fn refusal(self, id: Seq<char>, price: Dec, amount: Dec) -> Option<OrderError> {
        if !price.positive() || !amount.positive() {
            Some(OrderError::InvalidDecimal)
        } else if self.has_order(id) {
            Some(OrderError::InvalidOrder)
        } else {
            None
        }
    }

    /// The book after `o` was admitted: matched against the opposite side,
    /// its fills logged, and what remains of it, if anything, put to rest on
    /// its own side.  The sequence counter moves on by one.
    pub open spec fn accept(self, o: OrderView) -> BookView {
        let out = match_against(self.side(o.side.opposite()), o);
        let matched = self.with_side(o.side.opposite(), out.resting);
        let rested = if out.remaining.positive() {
            matched.rest(o.with_remaining(out.remaining))
        } else {
            matched
        };
        BookView {
            seq: self.seq + 1,
            trades: self.trades + trades_of(self.pair, o, out.fills),
            ..rested
        }
    }

    /// The book after a create command whose decimals were read as `price`
    /// and `amount`: unchanged where the order is refused.
    pub open spec fn place(self, cmd: RawOrderView, price: Dec, amount: Dec) -> BookView {
        if self.refusal(cmd.order_id, price, amount) is Some {
            self
        } else {
            self.accept(order_of(cmd, price, amount, self.seq))
        }
    }

    /// Why a command is refused, if it is.  A delete never is.
    pub open spec fn verdict(self, cmd: RawOrderView) -> Option<OrderError> {
        match cmd.type_op {
            Operation::DELETE => None,
            Operation::CREATE => match (
                Dec::spec_parse(cmd.limit_price),
                Dec::spec_parse(cmd.amount),
            ) {
                (Some(price), Some(amount)) => self.refusal(cmd.order_id, price, amount),
                _ => Some(OrderError::InvalidDecimal),
            },
        }
    }

    /// The book after a command.
    pub open spec fn step(self, cmd: RawOrderView) -> BookView {
        match cmd.type_op {
            Operation::DELETE => self.cancel(cmd.order_id),
            Operation::CREATE => match (
                Dec::spec_parse(cmd.limit_price),
                Dec::spec_parse(cmd.amount),
            ) {
                (Some(price), Some(amount)) => self.place(cmd, price, amount),
                _ => self,
            },
        }
    }

    /// The book after a sequence of commands, each taken in its turn.
    pub open spec fn run(self, cmds: Seq<RawOrderView>) -> BookView
        decreases cmds.len(),
    {
        if cmds.len() == 0 {
            self
        } else {
            self.step(cmds[0]).run(cmds.drop_first())
        }
    }
}

/// A command leaves a book its pair, and moves its sequence counter on by
/// one at most.
pub proof fn lemma_step_frame(b: BookView, cmd: RawOrderView)
    ensures
        b.step(cmd).pair == b.pair,
        b.seq <= b.step(cmd).seq <= b.seq + 1,
{
}

} // verus!
