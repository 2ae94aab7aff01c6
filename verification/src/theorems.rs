//! What holds of matching, of books and of the engine, for all inputs.

use crate::engine::{lemma_position, lemma_position_is, lemma_with_book, EngineView};
use crate::filtering::{lemma_filter_first, lemma_filter_none, lemma_filter_twice};
use crate::id_index::{lemma_without_id_absent, other_id};
use crate::matching::{
    crosses, entry_of, filled, lemma_step_frame, match_against, match_is_exact, trades_of,
    BookView,
};
use crate::price_level_index::{outranks, sorted};
use crate::order::{Operation, OrderView, RawOrderView, Side};
use vstd::prelude::*;

verus! {

/// Every order of the sequence holds decimals above zero.
pub open spec fn all_valid(orders: Seq<OrderView>) -> bool {
    forall|i: int| 0 <= i < orders.len() ==> (#[trigger] orders[i]).valid()
}

/// Snapshots.  The snapshot of a well-formed book lists its resting orders
/// one for one; every listed order has something remaining, bids are listed
/// by falling price, asks by rising price, and orders of one price by the
/// sequence number of their admission.
pub proof fn theorem_snapshot_is_sorted(b: BookView)
    requires
        b.wf(),
    ensures
        b.snapshot().bids.len() == b.bids.len(),
        b.snapshot().asks.len() == b.asks.len(),
        forall|i: int|
            0 <= i < b.bids.len() ==> {
                &&& #[trigger] b.snapshot().bids[i] == entry_of(b.bids[i])
                &&& b.bids[i].remaining.units() > 0
            },
        forall|i: int|
            0 <= i < b.asks.len() ==> {
                &&& #[trigger] b.snapshot().asks[i] == entry_of(b.asks[i])
                &&& b.asks[i].remaining.units() > 0
            },
        forall|i: int, j: int|
            0 <= i < j < b.bids.len() ==> {
                let first = #[trigger] b.bids[i];
                let second = #[trigger] b.bids[j];
                first.price.units() > second.price.units() || (first.price.units()
                    == second.price.units() && first.ts < second.ts)
            },
        forall|i: int, j: int|
            0 <= i < j < b.asks.len() ==> {
                let first = #[trigger] b.asks[i];
                let second = #[trigger] b.asks[j];
                first.price.units() < second.price.units() || (first.price.units()
                    == second.price.units() && first.ts < second.ts)
            },
{
    assert forall|i: int| 0 <= i < b.bids.len() implies (#[trigger] b.bids[i]).remaining.units()
        > 0 by {
        assert(b.side(Side::BUY)[i].valid());
    }
    assert forall|i: int| 0 <= i < b.asks.len() implies (#[trigger] b.asks[i]).remaining.units()
        > 0 by {
        assert(b.side(Side::SELL)[i].valid());
    }
    assert forall|i: int, j: int| 0 <= i < j < b.bids.len() implies {
        let first = #[trigger] b.bids[i];
        let second = #[trigger] b.bids[j];
        first.price.units() > second.price.units() || (first.price.units()
            == second.price.units() && first.ts < second.ts)
    } by {
        assert(outranks(Side::BUY, b.bids[i], b.bids[j]));
    }
    assert forall|i: int, j: int| 0 <= i < j < b.asks.len() implies {
        let first = #[trigger] b.asks[i];
        let second = #[trigger] b.asks[j];
        first.price.units() < second.price.units() || (first.price.units()
            == second.price.units() && first.ts < second.ts)
    } by {
        assert(outranks(Side::SELL, b.asks[i], b.asks[j]));
    }
}

/// Maker price.  The fills of an incoming order are made against the
/// resting orders in their order, the first fill against the best resting
/// order, and each at the price of the resting order it is made against;
/// the trade that records a fill shows that price.
pub proof fn theorem_maker_price(pair: Seq<char>, opp: Seq<OrderView>, taker: OrderView)
    ensures
        match_against(opp, taker).fills.len() <= opp.len(),
        forall|i: int|
            0 <= i < match_against(opp, taker).fills.len() ==> {
                &&& (#[trigger] match_against(opp, taker).fills[i]).maker_id == opp[i].id
                &&& match_against(opp, taker).fills[i].price == opp[i].price
                &&& trades_of(pair, taker, match_against(opp, taker).fills)[i].price
                    == opp[i].price.spec_text()
            },
    decreases opp.len(),
{
    let out = match_against(opp, taker);
    if taker.remaining.positive() && opp.len() > 0 && crosses(taker, opp[0]) {
        let maker = opp[0];
        let amount = taker.remaining.spec_min(maker.remaining);
        let taker_left = taker.remaining.spec_sub(amount);
        if !maker.remaining.spec_sub(amount).positive() {
            let next = taker.with_remaining(taker_left);
            theorem_maker_price(pair, opp.drop_first(), next);
            let rest = match_against(opp.drop_first(), next);
            assert forall|i: int| 0 <= i < out.fills.len() implies {
                &&& (#[trigger] out.fills[i]).maker_id == opp[i].id
                &&& out.fills[i].price == opp[i].price
                &&& trades_of(pair, taker, out.fills)[i].price == opp[i].price.spec_text()
            } by {
                if i > 0 {
                    assert(out.fills[i] == rest.fills[i - 1]);
                    assert(opp.drop_first()[i - 1] == opp[i]);
                }
            }
        }
    }
}

/// Limit price.  No fill of an incoming order is at a price beyond its
/// limit: a buy order never pays more than its limit price, a sell order
/// never gets less.
pub proof fn theorem_within_limit(opp: Seq<OrderView>, taker: OrderView)
    ensures
        forall|i: int|
            0 <= i < match_against(opp, taker).fills.len() ==> match taker.side {
                Side::BUY => (#[trigger] match_against(opp, taker).fills[i]).price.units()
                    <= taker.price.units(),
                Side::SELL => match_against(opp, taker).fills[i].price.units()
                    >= taker.price.units(),
            },
    decreases opp.len(),
{
    let out = match_against(opp, taker);
    if taker.remaining.positive() && opp.len() > 0 && crosses(taker, opp[0]) {
        let maker = opp[0];
        let amount = taker.remaining.spec_min(maker.remaining);
        let taker_left = taker.remaining.spec_sub(amount);
        if !maker.remaining.spec_sub(amount).positive() {
            let next = taker.with_remaining(taker_left);
            theorem_within_limit(opp.drop_first(), next);
            let rest = match_against(opp.drop_first(), next);
            assert forall|i: int| 0 <= i < out.fills.len() implies match taker.side {
                Side::BUY => (#[trigger] out.fills[i]).price.units() <= taker.price.units(),
                Side::SELL => out.fills[i].price.units() >= taker.price.units(),
            } by {
                if i > 0 {
                    assert(out.fills[i] == rest.fills[i - 1]);
                }
            }
        }
    }
}

/// No cross is left behind.  What remains of an incoming order after
/// matching is not within reach of any order that still rests on the
/// opposite side: whatever could trade has traded.
pub proof fn theorem_rest_does_not_cross(opp: Seq<OrderView>, taker: OrderView)
    requires
        taker.valid(),
        all_valid(opp),
        sorted(taker.side.opposite(), opp),
        match_is_exact(opp, taker),
    ensures
        match_against(opp, taker).remaining.positive() ==> forall|i: int|
            0 <= i < match_against(opp, taker).resting.len() ==> !crosses(
                taker,
                #[trigger] match_against(opp, taker).resting[i],
            ),
{
    lemma_rest_clear(opp, taker);
}

/// The induction behind [`theorem_rest_does_not_cross`], for an incoming
/// order that may already be used up.
proof fn lemma_rest_clear(opp: Seq<OrderView>, taker: OrderView)
    requires
        taker.remaining.wf(),
        all_valid(opp),
        sorted(taker.side.opposite(), opp),
        match_is_exact(opp, taker),
    ensures
        match_against(opp, taker).remaining.positive() ==> forall|i: int|
            0 <= i < match_against(opp, taker).resting.len() ==> !crosses(
                taker,
                #[trigger] match_against(opp, taker).resting[i],
            ),
    decreases opp.len(),
{
    if taker.remaining.positive() && opp.len() > 0 {
        let maker = opp[0];
        assert(maker.valid());
        if !crosses(taker, maker) {
            assert forall|i: int| 0 <= i < opp.len() implies !crosses(taker, #[trigger] opp[i]) by {
                if i > 0 {
                    assert(outranks(taker.side.opposite(), opp[0], opp[i]));
                }
            }
        } else {
            let amount = taker.remaining.spec_min(maker.remaining);
            let taker_left = taker.remaining.spec_sub(amount);
            taker.remaining.lemma_sub_exact(amount);
            maker.remaining.lemma_sub_exact(amount);
            if !maker.remaining.spec_sub(amount).positive() {
                let next = taker.with_remaining(taker_left);
                let rest = opp.drop_first();
                assert forall|i: int| 0 <= i < rest.len() implies (#[trigger] rest[i]).valid() by {
                    assert(rest[i] == opp[i + 1]);
                }
                assert forall|i: int, j: int| 0 <= i < j < rest.len() implies outranks(
                    taker.side.opposite(),
                    #[trigger] rest[i],
                    #[trigger] rest[j],
                ) by {
                    assert(rest[i] == opp[i + 1] && rest[j] == opp[j + 1]);
                }
                lemma_rest_clear(rest, next);
            }
        }
    }
}

/// A resting order that is only partly filled has used up the incoming
/// order: matching has nothing left to do then.
pub proof fn theorem_partial_fill_ends(taker: OrderView, maker: OrderView)
    requires
        taker.valid(),
        maker.valid(),
    ensures
        ({
            let amount = taker.remaining.spec_min(maker.remaining);
            maker.remaining.spec_sub(amount).positive() ==> !taker.remaining.spec_sub(
                amount,
            ).positive()
        }),
{
    let amount = taker.remaining.spec_min(maker.remaining);
    taker.remaining.lemma_positive();
    maker.remaining.lemma_positive();
    if amount == taker.remaining {
        taker.remaining.lemma_sub_self();
        taker.remaining.spec_sub(amount).lemma_positive();
    } else {
        maker.remaining.lemma_sub_self();
        maker.remaining.spec_sub(amount).lemma_positive();
    }
}

/// Conservation.  Where no subtraction had to be rounded, what the fills of
/// an incoming order moved and what remains of the order add up to its
/// amount; nothing remains exactly when the fills moved the whole amount.
pub proof fn theorem_conservation(opp: Seq<OrderView>, taker: OrderView)
    requires
        taker.valid(),
        all_valid(opp),
        match_is_exact(opp, taker),
    ensures
        filled(match_against(opp, taker).fills) + match_against(opp, taker).remaining.units()
            == taker.remaining.units(),
        match_against(opp, taker).remaining.wf(),
        match_against(opp, taker).remaining.units() >= 0,
        !match_against(opp, taker).remaining.positive() <==> filled(
            match_against(opp, taker).fills,
        ) == taker.remaining.units(),
{
    lemma_conserved(opp, taker);
}

/// The induction behind [`theorem_conservation`], for an incoming order
/// that may already be used up.
proof fn lemma_conserved(opp: Seq<OrderView>, taker: OrderView)
    requires
        taker.price.wf(),
        taker.remaining.wf(),
        taker.remaining.units() >= 0,
        all_valid(opp),
        match_is_exact(opp, taker),
    ensures
        filled(match_against(opp, taker).fills) + match_against(opp, taker).remaining.units()
            == taker.remaining.units(),
        match_against(opp, taker).remaining.wf(),
        match_against(opp, taker).remaining.units() >= 0,
    decreases opp.len(),
{
    let out = match_against(opp, taker);
    if !taker.remaining.positive() || opp.len() == 0 || !crosses(taker, opp[0]) {
        assert(filled(out.fills) == 0);
    } else {
        let maker = opp[0];
        assert(maker.valid());
        let amount = taker.remaining.spec_min(maker.remaining);
        let taker_left = taker.remaining.spec_sub(amount);
        let maker_left = maker.remaining.spec_sub(amount);
        taker.remaining.lemma_sub_exact(amount);
        taker.remaining.lemma_exact_diff(amount);
        taker_left.lemma_positive();
        if maker_left.positive() {
            assert(out.fills.drop_first() =~= Seq::empty());
            assert(filled(out.fills.drop_first()) == 0);
        } else {
            let next = taker.with_remaining(taker_left);
            let rest = match_against(opp.drop_first(), next);
            assert forall|i: int| 0 <= i < opp.drop_first().len() implies (
            #[trigger] opp.drop_first()[i]).valid() by {
                assert(opp.drop_first()[i] == opp[i + 1]);
            }
            lemma_conserved(opp.drop_first(), next);
            assert(out.fills.drop_first() =~= rest.fills);
        }
    }
}

/// The remaining amount of every order of the sequence can be written with
/// `s` digits behind the point.
pub open spec fn all_fit_scale(orders: Seq<OrderView>, s: nat) -> bool {
    forall|i: int| 0 <= i < orders.len() ==> (#[trigger] orders[i]).remaining.fits_scale(s)
}

/// Amounts of a common scale never round.  Where the amount of the incoming
/// order and the remaining amounts of the resting orders can all be written
/// with the same number of digits behind the point, every subtraction that
/// matching makes is exact.
pub proof fn theorem_common_scale_is_exact(opp: Seq<OrderView>, taker: OrderView, s: nat)
    requires
        taker.valid(),
        all_valid(opp),
        taker.remaining.fits_scale(s),
        all_fit_scale(opp, s),
    ensures
        match_is_exact(opp, taker),
{
    lemma_exact_at_scale(opp, taker, s);
}

/// The induction behind [`theorem_common_scale_is_exact`], for an incoming
/// order that may already be used up.
proof fn lemma_exact_at_scale(opp: Seq<OrderView>, taker: OrderView, s: nat)
    requires
        taker.remaining.wf(),
        all_valid(opp),
        taker.remaining.fits_scale(s),
        all_fit_scale(opp, s),
    ensures
        match_is_exact(opp, taker),
    decreases opp.len(),
{
    if taker.remaining.positive() && opp.len() > 0 && crosses(taker, opp[0]) {
        let maker = opp[0];
        assert(maker.valid());
        assert(maker.remaining.fits_scale(s));
        let amount = taker.remaining.spec_min(maker.remaining);
        taker.remaining.lemma_sub_at_scale(amount, s);
        maker.remaining.lemma_sub_at_scale(amount, s);
        let next = taker.with_remaining(taker.remaining.spec_sub(amount));
        assert forall|i: int| 0 <= i < opp.drop_first().len() implies {
            &&& (#[trigger] opp.drop_first()[i]).valid()
            &&& opp.drop_first()[i].remaining.fits_scale(s)
        } by {
            assert(opp.drop_first()[i] == opp[i + 1]);
        }
        lemma_exact_at_scale(opp.drop_first(), next, s);
    }
}

/// Cancel twice is cancel once: a second delete of the same id changes
/// nothing.
pub proof fn theorem_cancel_idempotent(b: BookView, id: Seq<char>)
    ensures
        b.cancel(id).cancel(id) == b.cancel(id),
{
    lemma_filter_twice(b.bids, other_id(id), other_id(id), other_id(id));
    lemma_filter_twice(b.asks, other_id(id), other_id(id), other_id(id));
}

/// A delete of an id that does not rest in the book changes nothing.
pub proof fn theorem_delete_unknown_is_noop(b: BookView, id: Seq<char>)
    requires
        !b.has_order(id),
    ensures
        b.cancel(id) == b,
{
    lemma_without_id_absent(b.bids, id);
    lemma_without_id_absent(b.asks, id);
}

/// A delete command a second time changes nothing, whatever else the two
/// commands say.
pub proof fn theorem_delete_idempotent(b: BookView, first: RawOrderView, second: RawOrderView)
    requires
        first.type_op == Operation::DELETE,
        second.type_op == Operation::DELETE,
        first.order_id == second.order_id,
    ensures
        b.step(first).step(second) == b.step(first),
{
    theorem_cancel_idempotent(b, first.order_id);
}

/// The sequence counter of a book moves on by one with every create command
/// that is accepted, and with no other command.
pub proof fn theorem_seq_advances(b: BookView, cmd: RawOrderView)
    ensures
        b.step(cmd).seq == if cmd.type_op == Operation::CREATE && b.verdict(cmd) is None {
            b.seq + 1
        } else {
            b.seq
        },
        b.step(cmd).pair == b.pair,
{
}

/// A command that is refused leaves the book as it was.
pub proof fn theorem_refused_unchanged(b: BookView, cmd: RawOrderView)
    requires
        b.verdict(cmd) is Some,
    ensures
        b.step(cmd) == b,
{
}

/// The test that a command is for this pair.
pub open spec fn for_pair(pair: Seq<char>) -> spec_fn(RawOrderView) -> bool {
    |c: RawOrderView| c.pair == pair
}

/// The test that a command is for another pair than this.
pub open spec fn for_other_pair(pair: Seq<char>) -> spec_fn(RawOrderView) -> bool {
    |c: RawOrderView| c.pair != pair
}

/// Two engines whose books have the same pairs at the same positions find
/// every pair at the same position.
proof fn lemma_position_by_pairs(a: EngineView, b: EngineView, pair: Seq<char>)
    requires
        a.books.len() == b.books.len(),
        forall|i: int| 0 <= i < a.books.len() ==> (#[trigger] a.books[i]).pair == b.books[i].pair,
    ensures
        a.position(pair) == b.position(pair),
{
    lemma_position(a, pair);
    let k = a.position(pair);
    assert forall|i: int| 0 <= i < k implies (#[trigger] b.books[i]).pair != pair by {
        assert(a.books[i].pair != pair);
    }
    if k < a.books.len() {
        assert(a.books[k].pair == b.books[k].pair);
    }
    lemma_position_is(b, pair, k);
}

/// A command changes the book of its pair as the book's own step says, and
/// no other book.
pub proof fn theorem_step_is_local(e: EngineView, cmd: RawOrderView, pair: Seq<char>)
    ensures
        e.step(cmd).book(pair) == if cmd.pair == pair {
            e.book(pair).step(cmd)
        } else {
            e.book(pair)
        },
        e.step(cmd).has_book(pair) == (e.has_book(pair) || cmd.pair == pair),
{
    let ready = e.with_book(cmd.pair);
    let after = e.step(cmd);
    lemma_with_book(e, cmd.pair);
    lemma_position(e, cmd.pair);
    lemma_position(e, pair);
    lemma_position(ready, cmd.pair);
    lemma_position(ready, pair);
    let k = ready.position(cmd.pair);
    lemma_step_frame(ready.books[k], cmd);
    assert forall|i: int| 0 <= i < after.books.len() implies (#[trigger] after.books[i]).pair
        == ready.books[i].pair by {
        if i != k {
            assert(after.books[i] == ready.books[i]);
        }
    }
    lemma_position_by_pairs(after, ready, pair);
    if cmd.pair != pair {
        if e.has_book(cmd.pair) {
            assert(ready == e);
        } else {
            let n = e.books.len() as int;
            let p = e.position(pair);
            assert forall|i: int| 0 <= i < p implies (#[trigger] ready.books[i]).pair != pair by {
                assert(ready.books[i] == e.books[i]);
            }
            if p < n {
                assert(ready.books[p] == e.books[p]);
                lemma_position_is(ready, pair, p);
            } else {
                assert(ready.books[n].pair == cmd.pair);
                lemma_position_is(ready, pair, n + 1);
            }
        }
        let q = ready.position(pair);
        if q < ready.books.len() {
            assert(q != k);
            assert(after.books[q] == ready.books[q]);
        }
    }
}

/// A delete command a second time changes nothing in the engine either.
pub proof fn theorem_engine_delete_idempotent(
    e: EngineView,
    first: RawOrderView,
    second: RawOrderView,
)
    requires
        first.type_op == Operation::DELETE,
        second.type_op == Operation::DELETE,
        first.order_id == second.order_id,
        first.pair == second.pair,
    ensures
        e.step(first).step(second) == e.step(first),
{
    let ready = e.with_book(first.pair);
    let once = e.step(first);
    lemma_with_book(e, first.pair);
    lemma_position(ready, first.pair);
    let k = ready.position(first.pair);
    lemma_step_frame(ready.books[k], first);
    assert forall|i: int| 0 <= i < once.books.len() implies (#[trigger] once.books[i]).pair
        == ready.books[i].pair by {
        if i != k {
            assert(once.books[i] == ready.books[i]);
        }
    }
    lemma_position_by_pairs(once, ready, first.pair);
    assert(once.with_book(second.pair) == once);
    theorem_delete_idempotent(ready.books[k], first, second);
    assert(once.step(second).books =~= once.books);
}

/// Pairs do not mix.  The book of a pair after a sequence of commands is the
/// book that the commands of that pair alone make of it, in their order:
/// commands of other pairs, wherever they stand in the sequence, are
/// nothing to it.  The engine has a book for the pair exactly when it had
/// one before or a command named the pair.
pub proof fn theorem_pairs_are_independent(e: EngineView, cmds: Seq<RawOrderView>, pair: Seq<char>)
    ensures
        e.run(cmds).book(pair) == e.book(pair).run(cmds.filter(for_pair(pair))),
        e.run(cmds).has_book(pair) == (e.has_book(pair) || cmds.filter(for_pair(pair)).len() > 0),
    decreases cmds.len(),
{
    if cmds.len() == 0 {
        lemma_filter_none(cmds, for_pair(pair));
    } else {
        let first = cmds[0];
        let rest = cmds.drop_first();
        lemma_filter_first(cmds, for_pair(pair));
        theorem_step_is_local(e, first, pair);
        theorem_pairs_are_independent(e.step(first), rest, pair);
        if first.pair == pair {
            let own = cmds.filter(for_pair(pair));
            assert(own[0] == first);
            assert(own.drop_first() =~= rest.filter(for_pair(pair)));
        }
    }
}

/// Disjoint pairs commute.  Taking the commands of one pair first and all
/// others after them, each group in its order, leaves every book as the
/// commands in their given order leave it, and books for the same pairs.
pub proof fn theorem_disjoint_pairs_commute(
    e: EngineView,
    cmds: Seq<RawOrderView>,
    first_pair: Seq<char>,
    pair: Seq<char>,
)
    ensures
        e.run(cmds).book(pair) == e.run(
            cmds.filter(for_pair(first_pair)) + cmds.filter(for_other_pair(first_pair)),
        ).book(pair),
        e.run(cmds).has_book(pair) == e.run(
            cmds.filter(for_pair(first_pair)) + cmds.filter(for_other_pair(first_pair)),
        ).has_book(pair),
{
    let own = cmds.filter(for_pair(first_pair));
    let others = cmds.filter(for_other_pair(first_pair));
    let test = for_pair(pair);
    theorem_pairs_are_independent(e, cmds, pair);
    theorem_pairs_are_independent(e, own + others, pair);
    Seq::filter_distributes_over_add(own, others, test);
    if pair == first_pair {
        lemma_filter_twice(cmds, for_pair(first_pair), test, test);
        lemma_filter_twice(cmds, for_other_pair(first_pair), test, |c: RawOrderView| false);
        lemma_filter_none(cmds, |c: RawOrderView| false);
        assert(own.filter(test) + others.filter(test) =~= cmds.filter(test));
    } else {
        lemma_filter_twice(cmds, for_pair(first_pair), test, |c: RawOrderView| false);
        lemma_filter_none(cmds, |c: RawOrderView| false);
        lemma_filter_twice(cmds, for_other_pair(first_pair), test, test);
        assert(own.filter(test) + others.filter(test) =~= cmds.filter(test));
    }
}

} // verus!
