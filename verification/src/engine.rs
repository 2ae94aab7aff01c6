//! The engine: one order book per trading pair.

use crate::book::OrderBook;
use crate::error::OrderError;
use crate::matching::{lemma_step_frame, BookView};
use crate::order::{
    command_views, snapshot_views, trade_views, Operation, Order, RawOrder, RawOrderView,
    SnapshotView, Trade, TradeView,
};
use vstd::prelude::*;

verus! {

/// The books of an engine, in the order in which their pairs first came up.
pub struct EngineView {
    pub books: Seq<BookView>,
}

impl EngineView {
    /// An engine without books.
    pub open spec fn empty() -> EngineView {
        EngineView { books: Seq::empty() }
    }

    /// The position of the first book of this pair; the number of books
    /// where there is none.
    pub open spec fn position(self, pair: Seq<char>) -> int
        decreases self.books.len(),
    {
        if self.books.len() == 0 {
            0
        } else if self.books[0].pair == pair {
            0
        } else {
            1 + (EngineView { books: self.books.drop_first() }).position(pair)
        }
    }

    /// The engine has a book for this pair.
    pub open spec fn has_book(self, pair: Seq<char>) -> bool {
        self.position(pair) < self.books.len()
    }

    /// The book of this pair; a fresh one where the engine has none yet.
    pub open spec fn book(self, pair: Seq<char>) -> BookView {
        if self.has_book(pair) {
            self.books[self.position(pair)]
        } else {
            BookView::fresh(pair)
        }
    }

    /// The engine with a book for this pair: a fresh one is put behind the
    /// others where there was none.
    pub open spec fn with_book(self, pair: Seq<char>) -> EngineView {
        if self.has_book(pair) {
            self
        } else {
            EngineView { books: self.books.push(BookView::fresh(pair)) }
        }
    }

    /// No two books are for the same pair, and every book is well-formed.
    pub open spec fn wf(self) -> bool {
        &&& forall|i: int, j: int|
            0 <= i < j < self.books.len() ==> (#[trigger] self.books[i]).pair != (
            #[trigger] self.books[j]).pair
        &&& forall|i: int| 0 <= i < self.books.len() ==> (#[trigger] self.books[i]).wf()
    }

    /// Why a command is refused, if it is: the verdict of the book of its
    /// pair.
    pub open spec fn verdict(self, cmd: RawOrderView) -> Option<OrderError> {
        self.book(cmd.pair).verdict(cmd)
    }

    /// The engine after a command: the book of the command's pair, made
    /// first where there was none, has taken the command.
    pub open spec fn step(self, cmd: RawOrderView) -> EngineView {
        let ready = self.with_book(cmd.pair);
        let k = ready.position(cmd.pair);
        EngineView { books: ready.books.update(k, ready.books[k].step(cmd)) }
    }

    /// The engine after a sequence of commands, each taken in its turn.  A
    /// command that is refused changes nothing but that its pair has a
    /// book.
    pub open spec fn run(self, cmds: Seq<RawOrderView>) -> EngineView
        decreases cmds.len(),
    {
        if cmds.len() == 0 {
            self
        } else {
            self.step(cmds[0]).run(cmds.drop_first())
        }
    }

    /// Why the first command of a sequence that is refused is refused, if
    /// one is.
    pub open spec fn refused(self, cmds: Seq<RawOrderView>) -> Option<OrderError>
        decreases cmds.len(),
    {
        if cmds.len() == 0 {
            None
        } else {
            match self.verdict(cmds[0]) {
                Some(e) => Some(e),
                None => self.step(cmds[0]).refused(cmds.drop_first()),
            }
        }
    }

    /// No book has moved its sequence counter beyond `n`.
    pub open spec fn seq_within(self, n: nat) -> bool {
        forall|i: int| 0 <= i < self.books.len() ==> (#[trigger] self.books[i]).seq <= n
    }

    /// The snapshots of all books, in the order of the books.
    pub open spec fn snapshots(self) -> Seq<SnapshotView> {
        Seq::new(self.books.len(), |i: int| self.books[i].snapshot())
    }

    /// The trades of all books: those of the first book, then those of the
    /// second, and so on.
    pub open spec fn trades(self) -> Seq<TradeView>
        decreases self.books.len(),
    {
        if self.books.len() == 0 {
            Seq::empty()
        } else {
            (EngineView { books: self.books.drop_last() }).trades() + self.books.last().trades
        }
    }
}

/// The position of a pair among books is a position of a book of that pair,
/// and no book before it is of that pair.
pub proof fn lemma_position(e: EngineView, pair: Seq<char>)
    ensures
        0 <= e.position(pair) <= e.books.len(),
        e.position(pair) < e.books.len() ==> e.books[e.position(pair)].pair == pair,
        forall|i: int| 0 <= i < e.position(pair) ==> (#[trigger] e.books[i]).pair != pair,
    decreases e.books.len(),
{
    if e.books.len() > 0 && e.books[0].pair != pair {
        let rest = EngineView { books: e.books.drop_first() };
        lemma_position(rest, pair);
        assert forall|i: int| 0 <= i < e.position(pair) implies (#[trigger] e.books[i]).pair
            != pair by {
            if i > 0 {
                assert(rest.books[i - 1] == e.books[i]);
            }
        }
    }
}

/// Where a book of the pair stands at `k` and none before it does, `k` is
/// the position of the pair.
pub proof fn lemma_position_is(e: EngineView, pair: Seq<char>, k: int)
    requires
        0 <= k <= e.books.len(),
        k < e.books.len() ==> e.books[k].pair == pair,
        forall|i: int| 0 <= i < k ==> (#[trigger] e.books[i]).pair != pair,
    ensures
        e.position(pair) == k,
{
    lemma_position(e, pair);
    let p = e.position(pair);
    if p < k {
        assert(e.books[p].pair != pair);
    }
}

/// An engine that was given a book for a pair has the books it had, and the
/// book of the pair among them.
pub proof fn lemma_with_book(e: EngineView, pair: Seq<char>)
    ensures
        e.with_book(pair).has_book(pair),
        e.with_book(pair).book(pair) == e.book(pair),
        e.with_book(pair).books.len() >= e.books.len(),
        forall|i: int|
            0 <= i < e.books.len() ==> #[trigger] e.with_book(pair).books[i] == e.books[i],
        e.wf() ==> e.with_book(pair).wf(),
{
    lemma_position(e, pair);
    if !e.has_book(pair) {
        let ready = e.with_book(pair);
        assert forall|i: int| 0 <= i < e.books.len() implies (#[trigger] ready.books[i]).pair
            != pair by {
            assert(ready.books[i] == e.books[i]);
        }
        lemma_position_is(ready, pair, e.books.len() as int);
        if e.wf() {
            assert forall|i: int, j: int| 0 <= i < j < ready.books.len() implies (
            #[trigger] ready.books[i]).pair != (#[trigger] ready.books[j]).pair by {
                if j < e.books.len() {
                    assert(ready.books[i] == e.books[i] && ready.books[j] == e.books[j]);
                }
            }
            assert forall|i: int| 0 <= i < ready.books.len() implies (
            #[trigger] ready.books[i]).wf() by {
                if i < e.books.len() {
                    assert(ready.books[i] == e.books[i]);
                }
            }
        }
    }
}

/// The matching engine: it owns one book for each pair that a command
/// has named.
pub struct MatcherEngine {
    books: Vec<OrderBook>,
}

impl View for MatcherEngine {
    type V = EngineView;

    closed spec fn view(&self) -> EngineView {
        EngineView { books: self.books@.map_values(|b: OrderBook| b@) }
    }
}

impl MatcherEngine {
    /// Every book is well-formed, and no two books are for the same pair.
    pub closed spec fn wf(&self) -> bool {
        &&& forall|i: int| 0 <= i < self.books.len() ==> (#[trigger] self.books[i]).wf()
        &&& self@.wf()
    }

    /// An engine without books.
    pub fn new() -> (r: MatcherEngine)
        ensures
            r.wf(),
            r@ == EngineView::empty(),
            r@.wf(),
    {
        let r = MatcherEngine { books: Vec::new() };
        assert(r@.books =~= Seq::<BookView>::empty());
        r
    }

    /// The position of the book for a pair.  The book is made where the
    /// engine has none for the pair yet.
    fn book_for(&mut self, pair: &String) -> (k: usize)
        requires
            old(self).wf(),
        ensures
            final(self).wf(),
            final(self)@ == old(self)@.with_book(pair@),
            k == final(self)@.position(pair@),
            k < final(self).books.len(),
            final(self)@.books[k as int].pair == pair@,
    {
        let mut k: usize = 0;
        while k < self.books.len()
            invariant
                self == old(self),
                self.wf(),
                k <= self.books.len(),
                forall|i: int| 0 <= i < k ==> (#[trigger] self@.books[i]).pair != pair@,
            decreases self.books.len() - k,
        {
            assert(self@.books[k as int] == self.books[k as int]@);
            if self.books[k].pair_is(pair) {
                proof {
                    lemma_position_is(self@, pair@, k as int);
                }
                return k;
            }
            k += 1;
        }
        proof {
            lemma_position_is(self@, pair@, k as int);
        }
        let book = OrderBook::new(pair.clone());
        proof {
            book.lemma_view_wf();
        }
        self.books.push(book);
        proof {
            assert(self@.books =~= old(self)@.books.push(BookView::fresh(pair@)));
            lemma_position_is(self@, pair@, k as int);
            assert forall|i: int| 0 <= i < self@.books.len() implies (#[trigger] self@.books[i]).wf() by {
                if i < k {
                    assert(self@.books[i] == old(self)@.books[i]);
                }
            }
        }
        k
    }

    /// Hands a command to the book of its pair, which is made first where
    /// the engine has none for the pair yet.
    ///
    /// A command is refused for the reasons for which the book refuses it;
    /// the book stays as it was then.
    pub fn ingest(&mut self, raw: &RawOrder) -> (r: Result<(), OrderError>)
        requires
            old(self).wf(),
            raw.type_op == Operation::CREATE ==> old(self)@.book(raw.pair@).seq < u64::MAX,
        ensures
            final(self).wf(),
            final(self)@.wf(),
            final(self)@ == old(self)@.step(raw@),
            r == (match old(self)@.verdict(raw@) {
                Some(e) => Err::<(), OrderError>(e),
                None => Ok(()),
            }),
    {
        let k = self.book_for(&raw.pair);
        let ghost ready = self@;
        proof {
            lemma_position(old(self)@, raw.pair@);
            assert(ready.books[k as int] == old(self)@.book(raw.pair@));
            assert(ready.books[k as int] == self.books[k as int]@);
        }
        let ghost held = self.books@;
        let r = self.books[k].process(raw);
        proof {
            assert(self@.books =~= ready.books.update(k as int, ready.books[k as int].step(raw@)));
            lemma_step_frame(ready.books[k as int], raw@);
            self.books[k as int].lemma_view_wf();
            assert forall|i: int| 0 <= i < self.books.len() implies (#[trigger] self.books[i]).wf() by {
                if i != k {
                    assert(self.books[i] == held[i]);
                }
            }
        }
        r
    }

    /// The snapshot of every book, in the order in which the pairs first
    /// came up, and the trades of all books, book after book.
    pub fn finish(self) -> (r: (Vec<Order>, Vec<Trade>))
        requires
            self.wf(),
        ensures
            snapshot_views(r.0@) == self@.snapshots(),
            trade_views(r.1@) == self@.trades(),
            self@.wf(),
    {
        let mut orderbooks: Vec<Order> = Vec::new();
        let mut trades: Vec<Trade> = Vec::new();
        let mut i: usize = 0;
        proof {
            assert(self@.books.subrange(0, 0) =~= Seq::<BookView>::empty());
            assert(trade_views(trades@) =~= Seq::<TradeView>::empty());
        }
        while i < self.books.len()
            invariant
                self.wf(),
                i <= self.books.len(),
                orderbooks.len() == i,
                forall|k: int| 0 <= k < i ==> (#[trigger] orderbooks[k])@ == self@.books[k].snapshot(),
                trade_views(trades@) == (EngineView {
                    books: self@.books.subrange(0, i as int),
                }).trades(),
            decreases self.books.len() - i,
        {
            let book = &self.books[i];
            let made = book.trades();
            let ghost logged = trade_views(trades@);
            proof {
                assert(self@.books[i as int] == book@);
                let upto = self@.books.subrange(0, i + 1);
                assert(upto.drop_last() =~= self@.books.subrange(0, i as int));
                assert(upto.last() == book@);
                assert(book@.trades.subrange(0, 0) =~= Seq::<TradeView>::empty());
                assert(logged + Seq::<TradeView>::empty() =~= logged);
            }
            orderbooks.push(book.normalize());
            let mut j: usize = 0;
            while j < made.len()
                invariant
                    j <= made.len(),
                    book@.trades == trade_views(made@),
                    trade_views(trades@) == logged + book@.trades.subrange(0, j as int),
                decreases made.len() - j,
            {
                let ghost copied = trade_views(trades@);
                trades.push(made[j].clone());
                proof {
                    assert(trade_views(trades@) =~= copied.push(made[j as int]@));
                    assert(book@.trades.subrange(0, j + 1) =~= book@.trades.subrange(
                        0,
                        j as int,
                    ).push(made[j as int]@));
                    assert(logged + book@.trades.subrange(0, j + 1) =~= (logged
                        + book@.trades.subrange(0, j as int)).push(made[j as int]@));
                }
                j += 1;
            }
            proof {
                assert(book@.trades.subrange(0, j as int) =~= book@.trades);
            }
            i += 1;
        }
        proof {
            assert(self@.books.subrange(0, i as int) =~= self@.books);
            assert(snapshot_views(orderbooks@) =~= self@.snapshots());
        }
        (orderbooks, trades)
    }

    /// Takes a batch of commands in their order through a new engine.
    ///
    /// The batch ends at the first command that is refused, with the
    /// reason; nothing of the batch is returned then.  Where none is
    /// refused, the snapshots and the trades of the engine after the last
    /// command are returned.
    pub fn run(commands: &Vec<RawOrder>) -> (r: Result<(Vec<Order>, Vec<Trade>), OrderError>)
        ensures
            match r {
                Ok(out) => {
                    let cmds = command_views(commands@);
                    &&& EngineView::empty().refused(cmds) is None
                    &&& EngineView::empty().run(cmds).wf()
                    &&& snapshot_views(out.0@) == EngineView::empty().run(cmds).snapshots()
                    &&& trade_views(out.1@) == EngineView::empty().run(cmds).trades()
                },
                Err(e) => EngineView::empty().refused(command_views(commands@)) == Some(e),
            },
    {
        let mut engine = MatcherEngine::new();
        let ghost cmds = command_views(commands@);
        let mut i: usize = 0;
        proof {
            assert(cmds.subrange(0, cmds.len() as int) =~= cmds);
        }
        while i < commands.len()
            invariant
                engine.wf(),
                i <= commands.len(),
                cmds == command_views(commands@),
                engine@.seq_within(i as nat),
                EngineView::empty().refused(cmds) == engine@.refused(
                    cmds.subrange(i as int, cmds.len() as int),
                ),
                EngineView::empty().run(cmds) == engine@.run(
                    cmds.subrange(i as int, cmds.len() as int),
                ),
            decreases commands.len() - i,
        {
            let ghost held = engine@;
            let ghost rest = cmds.subrange(i as int, cmds.len() as int);
            proof {
                assert(rest[0] == commands[i as int]@);
                assert(rest.drop_first() =~= cmds.subrange(i + 1, cmds.len() as int));
                lemma_position(held, commands[i as int].pair@);
                lemma_step_seq(held, commands[i as int]@, i as nat);
            }
            match engine.ingest(&commands[i]) {
                Ok(()) => {},
                Err(e) => {
                    return Err(e);
                },
            }
            i += 1;
        }
        proof {
            assert(cmds.subrange(i as int, cmds.len() as int) =~= Seq::<RawOrderView>::empty());
        }
        Ok(engine.finish())
    }
}

/// A command moves the sequence counter of one book on by one at most.
pub proof fn lemma_step_seq(e: EngineView, cmd: RawOrderView, n: nat)
    requires
        e.seq_within(n),
    ensures
        e.book(cmd.pair).seq <= n,
        e.step(cmd).seq_within(n + 1),
{
    lemma_position(e, cmd.pair);
    lemma_with_book(e, cmd.pair);
    let ready = e.with_book(cmd.pair);
    lemma_position(ready, cmd.pair);
    let k = ready.position(cmd.pair);
    lemma_step_frame(ready.books[k], cmd);
    assert forall|i: int| 0 <= i < ready.books.len() implies (#[trigger] ready.books[i]).seq
        <= n by {
        if i < e.books.len() {
            assert(ready.books[i] == e.books[i]);
        }
    }
    let after = e.step(cmd);
    assert forall|i: int| 0 <= i < after.books.len() implies (#[trigger] after.books[i]).seq <= n
        + 1 by {
        if i != k {
            assert(after.books[i] == ready.books[i]);
        }
    }
}

} // verus!
