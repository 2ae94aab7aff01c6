//! The order book of one trading pair.

use crate::decimal::{decimal_less, decimal_min, decimal_minus, decimal_string, Dec};
use crate::error::OrderError;
use crate::filtering::{lemma_filter_agree, lemma_filter_first};
use crate::id_index::{
    has_id, lemma_without_id_members, uncrossed, with_remaining_of, without_id, IdIndex,
};
use crate::matching::{
    crosses, entries_of, entry_of, match_against, order_of, trade_of, trades_of, BookView, Fill,
};
use crate::order::{
    ask_views, bid_views, trade_views, Ask, Bid, BookOrder, Operation, Order, OrderView, RawOrder,
    Side, Trade, TradeView,
};
use crate::price_level_index::{
    insert_sorted, lemma_filter_sorted, lemma_insert_front, lemma_live_apart, lemma_live_insert,
    lemma_live_members, lemma_live_spared, lemma_live_without, live_entries, member_of, outranks,
    PriceLevelIndex,
};
use vstd::prelude::*;

verus! {

/// The order book of one pair: a price-level index for each side, the id
/// index that holds the authoritative record of every resting order, the
/// sequence counter and the trade log.
pub struct OrderBook {
    pair: String,
    bids: PriceLevelIndex,
    asks: PriceLevelIndex,
    id_index: IdIndex,
    seq: u64,
    trades: Vec<Trade>,
}

impl View for OrderBook {
    type V = BookView;

    closed spec fn view(&self) -> BookView {
        BookView {
            pair: self.pair@,
            bids: self.bids.live(self.id_index@),
            asks: self.asks.live(self.id_index@),
            seq: self.seq as nat,
            trades: trade_views(self.trades@),
        }
    }
}

impl OrderBook {
    /// The price-level index of one side.
    spec fn queue(&self, side: Side) -> PriceLevelIndex {
        match side {
            Side::BUY => self.bids,
            Side::SELL => self.asks,
        }
    }

    /// The records that the id index holds.
    spec fn index(&self) -> Seq<OrderView> {
        self.id_index@
    }

    /// No record of the other side is priced within the limit of `o`.
    spec fn clear_of(&self, o: OrderView) -> bool {
        forall|i: int|
            0 <= i < self.index().len() && (#[trigger] self.index()[i]).side == o.side.opposite()
                ==> !crosses(o, self.index()[i])
    }

    /// Every entry of the side was admitted before sequence number `ts`.
    spec fn entries_before(&self, side: Side, ts: nat) -> bool {
        forall|i: int|
            0 <= i < self.queue(side).entries().len() ==> (#[trigger] self.queue(
                side,
            ).entries()[i]).ts < ts
    }

    /// The two price-level indexes are sorted, the id index holds no id
    /// twice, every record of the id index is valid, was admitted before now
    /// and has its entry on its side, and no buy order among the records is
    /// priced at a sell order or above it.
    pub closed spec fn wf(&self) -> bool {
        &&& self.bids.wf()
        &&& self.bids.side() == Side::BUY
        &&& self.asks.wf()
        &&& self.asks.side() == Side::SELL
        &&& self.id_index.wf()
        &&& forall|i: int|
            0 <= i < self.id_index@.len() ==> {
                &&& (#[trigger] self.id_index@[i]).valid()
                &&& self.id_index@[i].ts < self.seq
                &&& self.queue(self.id_index@[i].side).entries().contains(self.id_index@[i])
            }
        &&& uncrossed(self.id_index@)
        &&& self.entries_before(Side::BUY, self.seq as nat)
        &&& self.entries_before(Side::SELL, self.seq as nat)
    }

    /// What holds of every book holds of what a well-formed book shows: its
    /// sides are sorted, its resting orders have something remaining, and
    /// no id rests twice.
    pub proof fn lemma_view_wf(&self)
        requires
            self.wf(),
        ensures
            self@.wf(),
            self@.seq <= u64::MAX,
    {
        self.lemma_resting();
    }

    /// The resting orders of a well-formed book are the records of its id
    /// index: they are valid, and an id rests exactly when the id index
    /// holds it.
    proof fn lemma_resting(&self)
        requires
            self.wf(),
        ensures
            self@.wf(),
            forall|id: Seq<char>| #[trigger] self@.has_order(id) <==> has_id(self.index(), id),
            forall|i: int|
                0 <= i < self.index().len() ==> self@.side((#[trigger] self.index()[i]).side).contains(
                    self.index()[i],
                ),
            forall|side: Side, i: int|
                0 <= i < self@.side(side).len() ==> self.index().contains(
                    #[trigger] self@.side(side)[i],
                ),
    {
        let index = self.id_index@;
        let bids = self@.bids;
        let asks = self@.asks;
        lemma_filter_sorted(Side::BUY, self.bids.entries(), member_of(index));
        lemma_filter_sorted(Side::SELL, self.asks.entries(), member_of(index));
        lemma_live_members(self.bids.entries(), index);
        lemma_live_members(self.asks.entries(), index);
        assert forall|i: int| 0 <= i < bids.len() implies {
            &&& (#[trigger] bids[i]).valid()
            &&& bids[i].side == Side::BUY
            &&& bids[i].ts < self@.seq
        } by {
            assert(bids.contains(bids[i]));
            let k = choose|k: int| 0 <= k < index.len() && index[k] == bids[i];
            let e = choose|e: int|
                0 <= e < self.bids.entries().len() && self.bids.entries()[e] == bids[i];
        }
        assert forall|i: int| 0 <= i < asks.len() implies {
            &&& (#[trigger] asks[i]).valid()
            &&& asks[i].side == Side::SELL
            &&& asks[i].ts < self@.seq
        } by {
            assert(asks.contains(asks[i]));
            let k = choose|k: int| 0 <= k < index.len() && index[k] == asks[i];
            let e = choose|e: int|
                0 <= e < self.asks.entries().len() && self.asks.entries()[e] == asks[i];
        }
        assert(self@.side(Side::BUY) == bids);
        assert(self@.side(Side::SELL) == asks);
        assert forall|i: int, j: int| 0 <= i < bids.len() && 0 <= j < asks.len() implies (
        #[trigger] bids[i]).price.units() < (#[trigger] asks[j]).price.units() by {
            assert(bids.contains(bids[i]));
            assert(asks.contains(asks[j]));
            let a = choose|a: int| 0 <= a < index.len() && index[a] == bids[i];
            let b = choose|b: int| 0 <= b < index.len() && index[b] == asks[j];
            assert(self@.side(Side::BUY)[i].side == Side::BUY);
            assert(self@.side(Side::SELL)[j].side == Side::SELL);
        }
        assert forall|i: int| 0 <= i < index.len() implies self@.side(
            (#[trigger] index[i]).side,
        ).contains(index[i]) by {
            assert(index.contains(index[i]));
            assert(self.queue(index[i].side).entries().contains(index[i]));
        }
        assert forall|side: Side, i: int| 0 <= i < self@.side(side).len() implies index.contains(
            #[trigger] self@.side(side)[i],
        ) by {
            assert(self@.side(side).contains(self@.side(side)[i]));
        }
        let all = bids + asks;
        assert forall|i: int, j: int| 0 <= i < j < all.len() implies (#[trigger] all[i]).id != (
        #[trigger] all[j]).id by {
            if all[i].id == all[j].id {
                assert(index.contains(all[i])) by {
                    if i < bids.len() {
                        assert(bids.contains(bids[i]));
                    } else {
                        assert(asks.contains(asks[i - bids.len()]));
                    }
                }
                assert(index.contains(all[j])) by {
                    if j < bids.len() {
                        assert(bids.contains(bids[j]));
                    } else {
                        assert(asks.contains(asks[j - bids.len()]));
                    }
                }
                let a = choose|a: int| 0 <= a < index.len() && index[a] == all[i];
                let b = choose|b: int| 0 <= b < index.len() && index[b] == all[j];
                assert(a == b);
                if j < bids.len() {
                    assert(outranks(Side::BUY, bids[i], bids[j]));
                } else if i >= bids.len() {
                    assert(outranks(Side::SELL, asks[i - bids.len()], asks[j - bids.len()]));
                } else {
                    assert(bids[i].side == Side::BUY);
                    assert(asks[j - bids.len()].side == Side::SELL);
                }
            }
        }
        assert forall|id: Seq<char>| #[trigger] self@.has_order(id) <==> has_id(index, id) by {
            if has_id(bids, id) {
                let i = choose|i: int| 0 <= i < bids.len() && (#[trigger] bids[i]).id == id;
                assert(bids.contains(bids[i]));
                let k = choose|k: int| 0 <= k < index.len() && index[k] == bids[i];
            }
            if has_id(asks, id) {
                let i = choose|i: int| 0 <= i < asks.len() && (#[trigger] asks[i]).id == id;
                assert(asks.contains(asks[i]));
                let k = choose|k: int| 0 <= k < index.len() && index[k] == asks[i];
            }
            if has_id(index, id) {
                let k = choose|k: int| 0 <= k < index.len() && (#[trigger] index[k]).id == id;
                let o = index[k];
                assert(index.contains(o));
                assert(self.queue(o.side).entries().contains(o));
                if o.side == Side::BUY {
                    assert(bids.contains(o));
                    let i = choose|i: int| 0 <= i < bids.len() && bids[i] == o;
                    assert(bids[i].id == id);
                } else {
                    assert(asks.contains(o));
                    let i = choose|i: int| 0 <= i < asks.len() && asks[i] == o;
                    assert(asks[i].id == id);
                }
            }
        }
    }

    /// An empty book for a pair.
    pub fn new(pair: String) -> (r: OrderBook)
        ensures
            r.wf(),
            r@ == BookView::fresh(pair@),
            r@.wf(),
    {
        let r = OrderBook {
            pair,
            bids: PriceLevelIndex::new(Side::BUY),
            asks: PriceLevelIndex::new(Side::SELL),
            id_index: IdIndex::new(),
            seq: 0,
            trades: Vec::new(),
        };
        proof {
            reveal(Seq::filter);
            assert(r@.trades =~= Seq::<TradeView>::empty());
            assert(r@.bids =~= Seq::<OrderView>::empty());
            assert(r@.asks =~= Seq::<OrderView>::empty());
            r.lemma_view_wf();
        }
        r
    }

    /// Shows what a book is after a record went into the id index and its
    /// entry into the price-level index of its side.
    proof fn lemma_added(self, after: OrderBook, o: OrderView, k: int)
        requires
            self.wf(),
            o.valid(),
            o.ts < self.seq,
            after.pair == self.pair,
            after.seq == self.seq,
            after.trades == self.trades,
            after.id_index.wf(),
            after.index() == self.index().push(o),
            after.queue(o.side.opposite()) == self.queue(o.side.opposite()),
            after.queue(o.side).wf(),
            after.queue(o.side).side() == o.side,
            0 <= k <= self.queue(o.side).entries().len(),
            after.queue(o.side).entries() == self.queue(o.side).entries().insert(k, o),
            self.clear_of(o),
        ensures
            after.wf(),
            after@ == self@.rest(o),
            forall|t: nat|
                self.entries_before(o.side, t) && o.ts < t ==> #[trigger] after.entries_before(
                    o.side,
                    t,
                ),
    {
        let side = o.side;
        let index = self.index();
        let entries = self.queue(side).entries();
        let others = self.queue(side.opposite()).entries();
        let grown = after.queue(side).entries();
        assert forall|i: int, j: int|
            0 <= i < after.index().len() && 0 <= j < after.index().len() && (
            #[trigger] after.index()[i]).side == Side::BUY && (#[trigger] after.index()[j]).side
                == Side::SELL implies after.index()[i].price.units()
            < after.index()[j].price.units() by {
            if i < index.len() && j < index.len() {
                assert(index[i].price.units() < index[j].price.units());
            } else if i < index.len() {
                assert(!crosses(o, index[i]));
            } else if j < index.len() {
                assert(!crosses(o, index[j]));
            }
        }
        lemma_live_insert(side, entries, k, o, index);
        assert forall|i: int| 0 <= i < others.len() implies #[trigger] others[i] != o by {
            assert(others[i].side == side.opposite());
        }
        lemma_live_apart(others, index, o);
        assert(grown[k] == o);
        assert forall|i: int| 0 <= i < entries.len() implies grown.contains(
            #[trigger] entries[i],
        ) by {
            if i < k {
                assert(grown[i] == entries[i]);
            } else {
                assert(grown[i + 1] == entries[i]);
            }
        }
        assert forall|i: int| 0 <= i < after.index().len() implies {
            &&& (#[trigger] after.index()[i]).valid()
            &&& after.index()[i].ts < after.seq
            &&& after.queue(after.index()[i].side).entries().contains(after.index()[i])
        } by {
            if i < index.len() {
                let u = index[i];
                assert(after.index()[i] == u);
                if u.side == side {
                    assert(entries.contains(u));
                    let j = choose|j: int| 0 <= j < entries.len() && entries[j] == u;
                    assert(grown.contains(entries[j]));
                }
            }
        }
        assert forall|t: nat| self.entries_before(side, t) && o.ts < t implies #[trigger] after.entries_before(
            side,
            t,
        ) by {
            assert forall|i: int| 0 <= i < grown.len() implies (#[trigger] grown[i]).ts < t by {
                if i < k {
                    assert(grown[i] == entries[i]);
                } else if i > k {
                    assert(grown[i] == entries[i - 1]);
                }
            }
        }
        assert(self.entries_before(side, self.seq as nat));
        assert(after.entries_before(side, after.seq as nat));
        assert(after.entries_before(side.opposite(), after.seq as nat));
        assert(after@.side(side) == insert_sorted(side, self@.side(side), o));
        assert(after@.side(side.opposite()) == self@.side(side.opposite()));
    }

    /// Puts an order to rest: its record into the id index and its entry
    /// into the price-level index of its side.
    fn add(&mut self, order: BookOrder)
        requires
            old(self).wf(),
            order@.valid(),
            order.ts < old(self)@.seq,
            !has_id(old(self).index(), order.id@),
            forall|i: int|
                0 <= i < old(self).queue(order.side).entries().len() ==> outranks(
                    order.side,
                    order@,
                    #[trigger] old(self).queue(order.side).entries()[i],
                ) || outranks(order.side, old(self).queue(order.side).entries()[i], order@),
            old(self).clear_of(order@),
        ensures
            final(self).wf(),
            final(self)@ == old(self)@.rest(order@),
            final(self).index() == old(self).index().push(order@),
            final(self).queue(order.side.opposite()) == old(self).queue(
                order.side.opposite(),
            ),
            final(self).queue(order.side).entries().len() == old(self).queue(
                order.side,
            ).entries().len() + 1,
            forall|t: nat|
                old(self).entries_before(order.side, t) && order.ts < t
                    ==> #[trigger] final(self).entries_before(order.side, t),
    {
        let ghost o = order@;
        let record = order.clone();
        self.id_index.insert(record);
        match order.side {
            Side::BUY => self.bids.push(order),
            Side::SELL => self.asks.push(order),
        }
        proof {
            let entries = old(self).queue(o.side).entries();
            let k = choose|k: int|
                0 <= k <= entries.len() && self.queue(o.side).entries() == entries.insert(k, o);
            old(self).lemma_added(*self, o, k);
        }
    }

    /// The book is well-formed but for one thing: the record `o` of the id
    /// index has no entry in the price-level index of its side, where it
    /// would stand before all others.
    spec fn wf_lacking(&self, o: OrderView) -> bool {
        &&& self.bids.wf()
        &&& self.bids.side() == Side::BUY
        &&& self.asks.wf()
        &&& self.asks.side() == Side::SELL
        &&& self.id_index.wf()
        &&& self.id_index@.contains(o)
        &&& forall|i: int|
            0 <= i < self.id_index@.len() ==> {
                &&& (#[trigger] self.id_index@[i]).valid()
                &&& self.id_index@[i].ts < self.seq
                &&& self.id_index@[i] != o ==> self.queue(
                    self.id_index@[i].side,
                ).entries().contains(self.id_index@[i])
            }
        &&& forall|i: int|
            0 <= i < self.queue(o.side).entries().len() ==> outranks(
                o.side,
                o,
                #[trigger] self.queue(o.side).entries()[i],
            )
        &&& uncrossed(self.id_index@)
        &&& self.entries_before(Side::BUY, self.seq as nat)
        &&& self.entries_before(Side::SELL, self.seq as nat)
    }

    /// What taking the entry of the best resting order of a side out of its
    /// price-level index leaves: the order that was first among the resting
    /// orders of the side is returned, its record still in the id index;
    /// all else is as it was.
    spec fn popped(self, after: OrderBook, side: Side, r: Option<BookOrder>) -> bool {
        &&& after.pair == self.pair
        &&& after.seq == self.seq
        &&& after.trades == self.trades
        &&& after.id_index == self.id_index
        &&& after.queue(side.opposite()) == self.queue(side.opposite())
        &&& after@.side(side.opposite()) == self@.side(side.opposite())
        &&& forall|t: nat|
            self.entries_before(side, t) ==> #[trigger] after.entries_before(side, t)
        &&& after.queue(side).entries().len() <= self.queue(side).entries().len()
        &&& match r {
            Some(o) => {
                &&& after.wf_lacking(o@)
                &&& self@.side(side) == seq![o@] + after@.side(side)
                &&& after.queue(side).entries().len() < self.queue(side).entries().len()
                &&& forall|t: nat| #[trigger] self.entries_before(side, t) ==> o.ts < t
                &&& o@.valid()
                &&& o.side == side
                &&& o.ts < self.seq
            },
            None => {
                &&& after.wf()
                &&& self@.side(side).len() == 0
                &&& after@ == self@
                &&& forall|i: int|
                    0 <= i < after.index().len() ==> (#[trigger] after.index()[i]).side != side
            },
        }
    }

    /// Shows that a book is as [`OrderBook::popped`] says, from what the
    /// price-level index states of its part in it.
    proof fn lemma_popped(self, after: OrderBook, side: Side, r: Option<BookOrder>)
        requires
            self.wf(),
            after.pair == self.pair,
            after.seq == self.seq,
            after.trades == self.trades,
            after.id_index == self.id_index,
            after.queue(side.opposite()) == self.queue(side.opposite()),
            after.queue(side).wf(),
            after.queue(side).side() == side,
            after.queue(side).entries().len() <= self.queue(side).entries().len(),
            after.queue(side).entries() == self.queue(side).entries().subrange(
                self.queue(side).entries().len() - after.queue(side).entries().len(),
                self.queue(side).entries().len() as int,
            ),
            match r {
                Some(o) => {
                    &&& self.index().contains(o@)
                    &&& self.queue(side).entries().contains(o@)
                    &&& self.queue(side).live(self.index()) == seq![o@] + after.queue(side).live(
                        self.index(),
                    )
                    &&& after.queue(side).entries().len() < self.queue(side).entries().len()
                    &&& forall|i: int|
                        0 <= i < after.queue(side).entries().len() ==> outranks(
                            side,
                            o@,
                            #[trigger] after.queue(side).entries()[i],
                        )
                },
                None => {
                    &&& after.queue(side).entries().len() == 0
                    &&& self.queue(side).live(self.index()).len() == 0
                },
            },
        ensures
            self.popped(after, side, r),
    {
        let index = self.index();
        let entries = self.queue(side).entries();
        let left = after.queue(side).entries();
        let skip = entries.len() - left.len();
        assert forall|t: nat| self.entries_before(side, t) implies #[trigger] after.entries_before(
            side,
            t,
        ) by {
            assert forall|i: int| 0 <= i < left.len() implies (#[trigger] left[i]).ts < t by {
                assert(entries[skip + i] == left[i]);
            }
        }
        assert(self.entries_before(side, self.seq as nat));
        assert(self.entries_before(side.opposite(), self.seq as nat));
        assert(after.entries_before(side, self.seq as nat));
        lemma_live_members(entries, index);
        lemma_live_members(left, index);
        match r {
            Some(ord) => {
                let o = ord@;
                let e = choose|e: int| 0 <= e < entries.len() && entries[e] == o;
                assert(entries[e].side == side);
                let b = choose|b: int| 0 <= b < index.len() && index[b] == o;
                assert(index[b].valid() && index[b].ts < self.seq);
                assert forall|i: int| 0 <= i < index.len() && index[i] != o implies after.queue(
                    (#[trigger] index[i]).side,
                ).entries().contains(index[i]) by {
                    let u = index[i];
                    assert(index.contains(u));
                    if u.side == side {
                        assert(entries.contains(u));
                        assert(live_entries(entries, index).contains(u));
                        let live = seq![o] + live_entries(left, index);
                        let m = choose|m: int| 0 <= m < live.len() && live[m] == u;
                        assert(m > 0);
                        assert(live_entries(left, index)[m - 1] == u);
                        assert(live_entries(left, index).contains(u));
                    }
                }
                assert forall|t: nat| #[trigger] self.entries_before(side, t) implies o.ts < t by {
                    assert(entries[e].ts < t);
                }
                assert(self@.side(side) == seq![o] + after@.side(side));
                assert(after@.side(side.opposite()) == self@.side(side.opposite()));
            },
            None => {
                assert forall|i: int| 0 <= i < index.len() implies (#[trigger] index[i]).side
                    != side by {
                    if index[i].side == side {
                        assert(index.contains(index[i]));
                        assert(live_entries(entries, index).contains(index[i]));
                    }
                }
                reveal(Seq::filter);
                assert(live_entries(left, index) =~= Seq::<OrderView>::empty());
                assert(live_entries(entries, index) =~= Seq::<OrderView>::empty());
                assert(after@.side(side) == self@.side(side));
                assert(after@.side(side.opposite()) == self@.side(side.opposite()));
                assert(after@.bids == self@.bids);
                assert(after@.asks == self@.asks);
            },
        }
    }

    /// Takes the entry of the best resting ask out of the price-level index
    /// and returns the order.  Stale entries that lie before it are dropped
    /// on the way.  The record of the order stays in the id index.
    fn pop_active_top_asks(&mut self) -> (r: Option<BookOrder>)
        requires
            old(self).wf(),
        ensures
            old(self).popped(*final(self), Side::SELL, r),
    {
        let top = self.asks.pop_live(&self.id_index);
        proof {
            old(self).lemma_popped(*self, Side::SELL, top);
        }
        top
    }

    /// Takes the entry of the best resting bid out of the price-level index
    /// and returns the order.  Stale entries that lie before it are dropped
    /// on the way.  The record of the order stays in the id index.
    fn pop_active_top_bids(&mut self) -> (r: Option<BookOrder>)
        requires
            old(self).wf(),
        ensures
            old(self).popped(*final(self), Side::BUY, r),
    {
        let top = self.bids.pop_live(&self.id_index);
        proof {
            old(self).lemma_popped(*self, Side::BUY, top);
        }
        top
    }

    /// Puts the entry of a resting order back before all others of its
    /// side, where it was taken from.
    fn put_back(&mut self, order: BookOrder)
        requires
            old(self).wf_lacking(order@),
        ensures
            final(self).wf(),
            final(self)@ == old(self)@.with_side(
                order.side,
                seq![order@] + old(self)@.side(order.side),
            ),
            final(self).id_index == old(self).id_index,
            final(self).queue(order.side.opposite()) == old(self).queue(
                order.side.opposite(),
            ),
            final(self).queue(order.side).entries().len() == old(self).queue(
                order.side,
            ).entries().len() + 1,
            forall|t: nat|
                old(self).entries_before(order.side, t) && order.ts < t
                    ==> #[trigger] final(self).entries_before(order.side, t),
    {
        let ghost o = order@;
        let ghost index = self.index();
        let ghost entries = self.queue(o.side).entries();
        proof {
            assert(index.contains(o));
            let b = choose|b: int| 0 <= b < index.len() && index[b] == o;
            assert(index[b].valid() && index[b].ts < self.seq);
            lemma_insert_front(o.side, entries, o);
        }
        match order.side {
            Side::BUY => self.bids.push(order),
            Side::SELL => self.asks.push(order),
        }
        proof {
            let grown = self.queue(o.side).entries();
            assert(grown == seq![o] + entries);
            lemma_filter_first(grown, member_of(index));
            assert(grown.drop_first() =~= entries);
            assert(grown[0] == o);
            assert forall|i: int| 0 <= i < entries.len() implies grown.contains(
                #[trigger] entries[i],
            ) by {
                assert(grown[i + 1] == entries[i]);
            }
            assert forall|i: int| 0 <= i < index.len() implies self.queue(
                (#[trigger] index[i]).side,
            ).entries().contains(index[i]) by {
                let u = index[i];
                if u != o && u.side == o.side {
                    assert(entries.contains(u));
                    let j = choose|j: int| 0 <= j < entries.len() && entries[j] == u;
                    assert(grown.contains(entries[j]));
                }
            }
            assert forall|t: nat| old(self).entries_before(o.side, t) && o.ts < t implies #[trigger] self.entries_before(
                o.side,
                t,
            ) by {
                assert forall|i: int| 0 <= i < grown.len() implies (#[trigger] grown[i]).ts < t by {
                    if i > 0 {
                        assert(grown[i] == entries[i - 1]);
                    }
                }
            }
            assert(old(self).entries_before(o.side, self.seq as nat));
            assert(self.entries_before(o.side, self.seq as nat));
            assert(self.entries_before(o.side.opposite(), self.seq as nat));
            assert(self@.side(o.side) == seq![o] + old(self)@.side(o.side));
            assert(self@.side(o.side.opposite()) == old(self)@.side(o.side.opposite()));
        }
    }

    /// Shows what a book is after the record of the order whose entry was
    /// taken out got another remaining amount: what rests is as before, and
    /// the entry that is lacking is that of the new record.
    proof fn lemma_updated(self, after: OrderBook, o: OrderView, left: Dec)
        requires
            self.wf_lacking(o),
            left.wf(),
            left.positive(),
            after.pair == self.pair,
            after.seq == self.seq,
            after.trades == self.trades,
            after.bids == self.bids,
            after.asks == self.asks,
            after.id_index.wf(),
            after.index() == with_remaining_of(self.index(), o.id, left),
        ensures
            after.wf_lacking(o.with_remaining(left)),
            after@ == self@,
            forall|id: Seq<char>| has_id(after.index(), id) ==> has_id(self.index(), id),
    {
        let index = self.index();
        let changed = after.index();
        let kept = o.with_remaining(left);
        let b = choose|b: int| 0 <= b < index.len() && index[b] == o;
        assert(index[b].valid() && index[b].ts < self.seq);
        assert(changed[b] == kept);
        assert forall|i: int| 0 <= i < index.len() implies #[trigger] changed[i] == if i == b {
            kept
        } else {
            index[i]
        } by {
            if i != b {
                assert(index[i].id != index[b].id);
            }
        }
        assert forall|e: OrderView| e != o && e != kept implies #[trigger] changed.contains(e)
            == index.contains(e) by {
            if changed.contains(e) {
                let i = choose|i: int| 0 <= i < changed.len() && changed[i] == e;
                assert(index[i] == e);
            }
            if index.contains(e) {
                let i = choose|i: int| 0 <= i < index.len() && index[i] == e;
                assert(changed[i] == e);
            }
        }
        let own = self.queue(o.side).entries();
        let others = self.queue(o.side.opposite()).entries();
        assert forall|i: int| 0 <= i < own.len() implies member_of(changed)(#[trigger] own[i])
            == member_of(index)(own[i]) by {
            assert(outranks(o.side, o, own[i]));
        }
        assert forall|i: int| 0 <= i < others.len() implies member_of(changed)(
            #[trigger] others[i],
        ) == member_of(index)(others[i]) by {
            assert(others[i].side == o.side.opposite());
        }
        lemma_filter_agree(own, member_of(changed), member_of(index));
        lemma_filter_agree(others, member_of(changed), member_of(index));
        assert(after@.side(o.side) == self@.side(o.side));
        assert(after@.side(o.side.opposite()) == self@.side(o.side.opposite()));
        assert(after@.bids == self@.bids);
        assert(after@.asks == self@.asks);
        assert forall|i: int| 0 <= i < changed.len() implies {
            &&& (#[trigger] changed[i]).valid()
            &&& changed[i].ts < after.seq
            &&& changed[i] != kept ==> after.queue(changed[i].side).entries().contains(changed[i])
        } by {
            assert(index[i].valid());
        }
        assert(changed.contains(kept));
        assert forall|i: int| 0 <= i < after.queue(kept.side).entries().len() implies outranks(
            kept.side,
            kept,
            #[trigger] after.queue(kept.side).entries()[i],
        ) by {
            assert(outranks(o.side, o, own[i]));
        }
        assert(self.entries_before(Side::BUY, self.seq as nat));
        assert(self.entries_before(Side::SELL, self.seq as nat));
        assert(after.entries_before(Side::BUY, after.seq as nat));
        assert(after.entries_before(Side::SELL, after.seq as nat));
        assert forall|id: Seq<char>| has_id(changed, id) implies has_id(index, id) by {
            let i = choose|i: int| 0 <= i < changed.len() && (#[trigger] changed[i]).id == id;
            assert(index[i].id == id);
        }
    }

    /// Shows what a book is after the record of the order whose entry was
    /// taken out left the id index: a well-formed book in which the same
    /// orders rest as before.
    proof fn lemma_removed(self, after: OrderBook, o: OrderView)
        requires
            self.wf_lacking(o),
            after.pair == self.pair,
            after.seq == self.seq,
            after.trades == self.trades,
            after.bids == self.bids,
            after.asks == self.asks,
            after.id_index.wf(),
            after.index() == without_id(self.index(), o.id),
        ensures
            after.wf(),
            after@ == self@,
            forall|id: Seq<char>| has_id(after.index(), id) ==> has_id(self.index(), id),
    {
        let index = self.index();
        let own = self.queue(o.side).entries();
        let others = self.queue(o.side.opposite()).entries();
        lemma_without_id_members(index, o.id);
        assert forall|i: int| 0 <= i < own.len() implies #[trigger] own[i] != o by {
            assert(outranks(o.side, o, own[i]));
        }
        assert forall|i: int| 0 <= i < others.len() implies #[trigger] others[i] != o by {
            assert(others[i].side == o.side.opposite());
        }
        lemma_live_spared(own, index, o);
        lemma_live_spared(others, index, o);
        assert(after@.side(o.side) == self@.side(o.side));
        assert(after@.side(o.side.opposite()) == self@.side(o.side.opposite()));
        assert(after@.bids == self@.bids);
        assert(after@.asks == self@.asks);
        assert forall|i: int| 0 <= i < after.index().len() implies {
            &&& (#[trigger] after.index()[i]).valid()
            &&& after.index()[i].ts < after.seq
            &&& after.queue(after.index()[i].side).entries().contains(after.index()[i])
        } by {
            let u = after.index()[i];
            assert(after.index().contains(u));
            assert(index.contains(u) && u.id != o.id);
            let a = choose|a: int| 0 <= a < index.len() && index[a] == u;
        }
        assert(self.entries_before(Side::BUY, self.seq as nat));
        assert(self.entries_before(Side::SELL, self.seq as nat));
        assert(after.entries_before(Side::BUY, after.seq as nat));
        assert(after.entries_before(Side::SELL, after.seq as nat));
        assert forall|id: Seq<char>| has_id(after.index(), id) implies has_id(index, id) by {
            let i = choose|i: int|
                0 <= i < after.index().len() && (#[trigger] after.index()[i]).id == id;
            assert(after.index().contains(after.index()[i]));
            let a = choose|a: int| 0 <= a < index.len() && index[a] == after.index()[i];
        }
    }

    /// Crosses an incoming order against the opposite side of the book.
    ///
    /// While the order has something left, the best resting order of the
    /// opposite side is taken from its price-level index.  If its price is
    /// outside the limit it goes back untouched and matching ends.  Else the
    /// smaller of the two remaining amounts is traded at its price; a
    /// resting order that is used up leaves the id index, one that has
    /// something left gets its record updated and its entry put back.
    fn match_order(&mut self, incoming: &mut BookOrder)
        requires
            old(self).wf(),
            old(incoming)@.valid(),
            old(incoming).ts < old(self)@.seq,
            !has_id(old(self).index(), old(incoming).id@),
            old(self).entries_before(Side::BUY, old(incoming).ts as nat),
            old(self).entries_before(Side::SELL, old(incoming).ts as nat),
        ensures
            final(self).wf(),
            final(incoming).remaining.wf(),
            ({
                let before = old(self)@;
                let taker = old(incoming)@;
                let opp = taker.side.opposite();
                let out = match_against(before.side(opp), taker);
                &&& final(incoming)@ == taker.with_remaining(out.remaining)
                &&& final(self)@ == (BookView {
                    trades: before.trades + trades_of(before.pair, taker, out.fills),
                    ..before.with_side(opp, out.resting)
                })
            }),
            !has_id(final(self).index(), old(incoming).id@),
            final(self).entries_before(Side::BUY, old(incoming).ts as nat),
            final(self).entries_before(Side::SELL, old(incoming).ts as nat),
            final(incoming).remaining.positive() ==> final(self).clear_of(old(incoming)@),
    {
        let side = incoming.side;
        let ghost taker = incoming@;
        let ghost opp = side.opposite();
        let ghost before = self@;
        let ghost total = match_against(before.side(opp), taker);
        let ghost mut fills: Seq<Fill> = Seq::empty();
        proof {
            assert(before.trades + trades_of(before.pair, taker, fills) =~= before.trades);
            assert(fills + total.fills =~= total.fills);
        }
        loop
            invariant
                self.wf(),
                side == taker.side,
                opp == side.opposite(),
                taker.valid(),
                incoming@ == taker.with_remaining(incoming.remaining),
                incoming.remaining.wf(),
                incoming.ts < self@.seq,
                !has_id(self.index(), incoming.id@),
                self.entries_before(side, incoming.ts as nat),
                self.entries_before(opp, incoming.ts as nat),
                self@.pair == before.pair,
                self@.seq == before.seq,
                self@.side(side) == before.side(side),
                self@.trades == before.trades + trades_of(before.pair, taker, fills),
                total.fills == fills + match_against(self@.side(opp), incoming@).fills,
                total.resting == match_against(self@.side(opp), incoming@).resting,
                total.remaining == match_against(self@.side(opp), incoming@).remaining,
            ensures
                total.fills == fills,
                total.resting == self@.side(opp),
                total.remaining == incoming.remaining,
                self.entries_before(side, incoming.ts as nat),
                self.entries_before(opp, incoming.ts as nat),
                incoming.remaining.positive() ==> self.clear_of(taker),
            decreases
                    self.queue(opp).entries().len(),
                    (if incoming.remaining.positive() {
                        1nat
                    } else {
                        0nat
                    }),
        {
            let ghost head = *self;
            let ghost now = incoming@;
            let ghost resting = self@.side(opp);
            if !incoming.remaining.is_positive() {
                proof {
                    assert(fills + Seq::<Fill>::empty() =~= fills);
                }
                break ;
            }
            let popped = match side {
                Side::BUY => self.pop_active_top_asks(),
                Side::SELL => self.pop_active_top_bids(),
            };
            assert(head.popped(*self, opp, popped));
            let mut best = match popped {
                Some(b) => b,
                None => {
                    proof {
                        assert(fills + Seq::<Fill>::empty() =~= fills);
                    }
                    break ;
                },
            };
            let ghost maker = best@;
            let ghost left = self@.side(opp);
            proof {
                assert(resting == seq![maker] + left);
                assert(resting[0] == maker);
                assert(resting.drop_first() =~= left);
                assert(head.entries_before(opp, incoming.ts as nat));
                assert(self.entries_before(opp, incoming.ts as nat));
                assert(maker.ts < incoming.ts);
            }
            let no_cross: bool = match side {
                Side::BUY => decimal_less(&incoming.price, &best.price),
                Side::SELL => decimal_less(&best.price, &incoming.price),
            };
            if no_cross {
                proof {
                    assert(!crosses(now, maker));
                    assert(fills + Seq::<Fill>::empty() =~= fills);
                    head.lemma_resting();
                    lemma_live_members(self.queue(opp).entries(), self.index());
                    assert forall|i: int|
                        0 <= i < head.index().len() && (#[trigger] head.index()[i]).side
                            == opp implies !crosses(taker, head.index()[i]) by {
                        let v = head.index()[i];
                        assert(resting.contains(v));
                        let m = choose|m: int| 0 <= m < resting.len() && resting[m] == v;
                        if m > 0 {
                            assert(left[m - 1] == v);
                            assert(left.contains(v));
                            let e = choose|e: int|
                                0 <= e < self.queue(opp).entries().len() && self.queue(
                                    opp,
                                ).entries()[e] == v;
                            assert(outranks(opp, maker, v));
                        }
                    }
                }
                self.put_back(best);
                proof {
                    assert(self@.side(opp) == resting);
                    assert(self@.side(side) == before.side(side));
                }
                break ;
            }
            assert(crosses(now, maker));
            let trade_qty: Dec = decimal_min(&incoming.remaining, &best.remaining);
            let ghost fill = Fill { maker_id: maker.id, price: maker.price, amount: trade_qty };
            proof {
                now.remaining.lemma_positive();
                maker.remaining.lemma_positive();
                maker.price.lemma_positive();
                trade_qty.lemma_positive();
            }
            let trade = Trade {
                pair: self.pair.clone(),
                buy_order_id: match side {
                    Side::BUY => incoming.id.clone(),
                    Side::SELL => best.id.clone(),
                },
                sell_order_id: match side {
                    Side::BUY => best.id.clone(),
                    Side::SELL => incoming.id.clone(),
                },
                price: decimal_string(&best.price),
                amount: decimal_string(&trade_qty),
                ts: incoming.ts,
            };
            assert(trade@ == trade_of(before.pair, taker, fill));
            let ghost logged = trade_views(self.trades@);
            self.trades.push(trade);
            proof {
                assert(trade_views(self.trades@) =~= logged.push(trade@));
                assert(trades_of(before.pair, taker, fills.push(fill)) =~= trades_of(
                    before.pair,
                    taker,
                    fills,
                ).push(trade@));
                assert(before.trades + trades_of(before.pair, taker, fills.push(fill)) =~= (
                before.trades + trades_of(before.pair, taker, fills)).push(trade@));
            }
            let taker_left: Dec = decimal_minus(&incoming.remaining, &trade_qty);
            let maker_left: Dec = decimal_minus(&best.remaining, &trade_qty);
            proof {
                assert(taker_left == now.remaining.spec_sub(trade_qty));
                assert(maker_left == maker.remaining.spec_sub(trade_qty));
                taker_left.lemma_positive();
                maker_left.lemma_positive();
                if trade_qty == now.remaining {
                    now.remaining.lemma_sub_self();
                } else {
                    maker.remaining.lemma_sub_self();
                }
            }
            incoming.remaining = taker_left;
            let ghost done = fills;
            let ghost taken = *self;
            proof {
                fills = fills.push(fill);
            }
            if maker_left.is_positive() {
                self.id_index.update_remaining(&best.id, maker_left);
                best.remaining = maker_left;
                proof {
                    assert(!taker_left.positive());
                    taken.lemma_updated(*self, maker, maker_left);
                    let stays = maker.with_remaining(maker_left);
                    assert(best@ == stays);
                    assert(seq![stays] + left =~= resting.update(0, stays));
                    assert(match_against(resting, now).fills =~= seq![fill]);
                    assert(fills =~= done + seq![fill]);
                    assert(fills + Seq::<Fill>::empty() =~= fills);
                }
                self.put_back(best);
                proof {
                    assert(self@.side(opp) == resting.update(0, maker.with_remaining(maker_left)));
                    assert(self@.side(side) == before.side(side));
                }
            } else {
                self.id_index.remove(&best.id);
                proof {
                    taken.lemma_removed(*self, maker);
                    let rest = match_against(left, now.with_remaining(taker_left));
                    assert(match_against(resting, now).fills == seq![fill] + rest.fills);
                    assert(fills + rest.fills =~= done + (seq![fill] + rest.fills));
                    assert(self.entries_before(opp, incoming.ts as nat));
                }
            }
        }
    }

    /// Whether the book is for this pair.
    pub fn pair_is(&self, pair: &String) -> (r: bool)
        ensures
            r == (self@.pair == pair@),
    {
        self.pair == *pair
    }

    /// The trades made so far, in the order in which they were made.
    pub fn trades(&self) -> (r: &Vec<Trade>)
        ensures
            trade_views(r@) == self@.trades,
    {
        &self.trades
    }

    /// The next sequence number.
    pub fn seq(&self) -> (r: u64)
        ensures
            r == self@.seq,
    {
        self.seq
    }

    /// Handles a create command whose limit price and amount were read as
    /// `price` and `amount`.
    ///
    /// The order is refused with `InvalidDecimal` where either number is not
    /// above zero, else with `InvalidOrder` where its id rests in the book;
    /// the book is then unchanged.  Otherwise it gets the next sequence
    /// number, is matched against the opposite side, and rests with what it
    /// has left, if anything.
    pub fn place(&mut self, raw: &RawOrder, price: Dec, amount: Dec) -> (r: Result<(), OrderError>)
        requires
            old(self).wf(),
            old(self)@.seq < u64::MAX,
            price.wf(),
            amount.wf(),
        ensures
            final(self).wf(),
            final(self)@.wf(),
            final(self)@ == old(self)@.place(raw@, price, amount),
            r == (match old(self)@.refusal(raw.order_id@, price, amount) {
                Some(e) => Err::<(), OrderError>(e),
                None => Ok(()),
            }),
    {
        proof {
            self.lemma_resting();
        }
        if !price.is_positive() || !amount.is_positive() {
            return Err(OrderError::InvalidDecimal);
        }
        if self.id_index.get(&raw.order_id).is_some() {
            return Err(OrderError::InvalidOrder);
        }
        let mut order = BookOrder {
            id: raw.order_id.clone(),
            account: raw.account_id.clone(),
            side: raw.side,
            pair: raw.pair.clone(),
            price,
            remaining: amount,
            ts: self.seq,
        };
        let ghost o = order@;
        assert(o == order_of(raw@, price, amount, old(self)@.seq));
        self.seq += 1;
        proof {
            assert(old(self).entries_before(Side::BUY, old(self).seq as nat));
            assert(old(self).entries_before(Side::SELL, old(self).seq as nat));
            assert(self.entries_before(Side::BUY, o.ts as nat));
            assert(self.entries_before(Side::SELL, o.ts as nat));
            assert(self.entries_before(Side::BUY, self.seq as nat));
            assert(self.entries_before(Side::SELL, self.seq as nat));
            assert(self@.bids == old(self)@.bids);
            assert(self@.asks == old(self)@.asks);
        }
        self.match_order(&mut order);
        if order.remaining.is_positive() {
            proof {
                let entries = self.queue(o.side).entries();
                assert(self.entries_before(o.side, o.ts as nat));
                assert forall|i: int| 0 <= i < entries.len() implies outranks(
                    o.side,
                    order@,
                    #[trigger] entries[i],
                ) || outranks(o.side, entries[i], order@) by {
                    assert(entries[i].ts < o.ts);
                }
            }
            self.add(order);
        }
        proof {
            self.lemma_view_wf();
        }
        Ok(())
    }

    /// Handles one command.
    ///
    /// A delete takes the order of that id out of the book, if one rests
    /// there, and is never refused.  A create whose limit price or amount
    /// cannot be read as a decimal is refused with `InvalidDecimal`; one
    /// that can is handled as [`OrderBook::place`] says.
    pub fn process(&mut self, raw: &RawOrder) -> (r: Result<(), OrderError>)
        requires
            old(self).wf(),
            raw.type_op == Operation::CREATE ==> old(self)@.seq < u64::MAX,
        ensures
            final(self).wf(),
            final(self)@.wf(),
            final(self)@ == old(self)@.step(raw@),
            r == (match old(self)@.verdict(raw@) {
                Some(e) => Err::<(), OrderError>(e),
                None => Ok(()),
            }),
    {
        proof {
            self.lemma_view_wf();
        }
        match raw.type_op {
            Operation::DELETE => {
                self.remove(&raw.order_id);
                proof {
                    self.lemma_view_wf();
                }
                Ok(())
            },
            Operation::CREATE => {
                let price = match Dec::parse(raw.limit_price.as_str()) {
                    Ok(d) => d,
                    Err(e) => {
                        return Err(e);
                    },
                };
                let amount = match Dec::parse(raw.amount.as_str()) {
                    Ok(d) => d,
                    Err(e) => {
                        return Err(e);
                    },
                };
                self.place(raw, price, amount)
            },
        }
    }

    /// The snapshot of the book: the resting orders of each side, best
    /// first, with their decimals as text.  Stale entries are passed over.
    pub fn normalize(&self) -> (r: Order)
        requires
            self.wf(),
        ensures
            r@ == self@.snapshot(),
            self@.wf(),
    {
        proof {
            self.lemma_view_wf();
        }
        let mut bids: Vec<Bid> = Vec::new();
        let mut i: usize = 0;
        proof {
            reveal(Seq::filter);
            assert(self.bids.entries().subrange(0, 0) =~= Seq::<OrderView>::empty());
            assert(bid_views(bids@) =~= entries_of(Seq::<OrderView>::empty()));
        }
        while i < self.bids.len()
            invariant
                self.wf(),
                i <= self.bids.entries().len(),
                bid_views(bids@) == entries_of(
                    live_entries(self.bids.entries().subrange(0, i as int), self.index()),
                ),
            decreases self.bids.entries().len() - i,
        {
            let e = self.bids.entry(i);
            let ghost seen = live_entries(self.bids.entries().subrange(0, i as int), self.index());
            let ghost shown = bid_views(bids@);
            proof {
                reveal(Seq::filter);
                let upto = self.bids.entries().subrange(0, i + 1);
                assert(upto.drop_last() =~= self.bids.entries().subrange(0, i as int));
                assert(upto.last() == e@);
            }
            if self.id_index.holds(e) {
                proof {
                    let k = choose|k: int| 0 <= k < self.index().len() && self.index()[k] == e@;
                    assert(self.index()[k].valid());
                    e.price.lemma_positive();
                    e.remaining.lemma_positive();
                }
                let bid = Bid {
                    id: e.id.clone(),
                    price: decimal_string(&e.price),
                    remaining: decimal_string(&e.remaining),
                    account: e.account.clone(),
                };
                assert(bid@ == entry_of(e@));
                bids.push(bid);
                proof {
                    assert(bid_views(bids@) =~= shown.push(entry_of(e@)));
                    assert(entries_of(seen.push(e@)) =~= entries_of(seen).push(entry_of(e@)));
                }
            }
            i += 1;
        }
        let mut asks: Vec<Ask> = Vec::new();
        let mut j: usize = 0;
        proof {
            reveal(Seq::filter);
            assert(self.bids.entries().subrange(0, i as int) =~= self.bids.entries());
            assert(self.asks.entries().subrange(0, 0) =~= Seq::<OrderView>::empty());
            assert(ask_views(asks@) =~= entries_of(Seq::<OrderView>::empty()));
        }
        while j < self.asks.len()
            invariant
                self.wf(),
                j <= self.asks.entries().len(),
                ask_views(asks@) == entries_of(
                    live_entries(self.asks.entries().subrange(0, j as int), self.index()),
                ),
            decreases self.asks.entries().len() - j,
        {
            let e = self.asks.entry(j);
            let ghost seen = live_entries(self.asks.entries().subrange(0, j as int), self.index());
            let ghost shown = ask_views(asks@);
            proof {
                reveal(Seq::filter);
                let upto = self.asks.entries().subrange(0, j + 1);
                assert(upto.drop_last() =~= self.asks.entries().subrange(0, j as int));
                assert(upto.last() == e@);
            }
            if self.id_index.holds(e) {
                proof {
                    let k = choose|k: int| 0 <= k < self.index().len() && self.index()[k] == e@;
                    assert(self.index()[k].valid());
                    e.price.lemma_positive();
                    e.remaining.lemma_positive();
                }
                let ask = Ask {
                    id: e.id.clone(),
                    price: decimal_string(&e.price),
                    remaining: decimal_string(&e.remaining),
                    account: e.account.clone(),
                };
                assert(ask@ == entry_of(e@));
                asks.push(ask);
                proof {
                    assert(ask_views(asks@) =~= shown.push(entry_of(e@)));
                    assert(entries_of(seen.push(e@)) =~= entries_of(seen).push(entry_of(e@)));
                }
            }
            j += 1;
        }
        proof {
            assert(self.asks.entries().subrange(0, j as int) =~= self.asks.entries());
        }
        Order { pair: self.pair.clone(), bids, asks }
    }

    /// Takes the order of this id out of the id index.  Its entry in the
    /// price-level index is left behind as stale.
    fn remove(&mut self, id: &String)
        requires
            old(self).wf(),
        ensures
            final(self).wf(),
            final(self)@ == old(self)@.cancel(id@),
    {
        let ghost index = self.id_index@;
        self.id_index.remove(id);
        proof {
            lemma_without_id_members(index, id@);
            lemma_live_without(self.bids.entries(), index, id@);
            lemma_live_without(self.asks.entries(), index, id@);
            assert forall|i: int| 0 <= i < self.id_index@.len() implies {
                &&& (#[trigger] self.id_index@[i]).valid()
                &&& self.id_index@[i].ts < self.seq
                &&& self.queue(self.id_index@[i].side).entries().contains(self.id_index@[i])
            } by {
                assert(self.id_index@.contains(self.id_index@[i]));
                let k = choose|k: int| 0 <= k < index.len() && index[k] == self.id_index@[i];
            }
        }
    }
}

} // verus!
