//! The priority structure of one side of a book.
//!
//! Entries are kept best first: bids by falling price, asks by rising price,
//! and orders of one price by the sequence number of their admission.  A
//! delete does not touch the structure; an entry whose record the id index
//! no longer holds is stale, and is dropped when it reaches the top.

use crate::decimal::decimal_less;
use crate::filtering::{
    lemma_filter_agree, lemma_filter_first, lemma_filter_insert, lemma_filter_members,
    lemma_filter_twice,
};
use crate::id_index::{
    distinct_ids, has_id, lemma_without_id_absent, lemma_without_id_members, other_id,
    without_id, IdIndex,
};
use crate::order::{BookOrder, OrderView, Side};
use vstd::prelude::*;

verus! {

/// `a` is served before `b` on this side: at the better price, or at the
/// same price after an earlier admission.
pub open spec fn outranks(side: Side, a: OrderView, b: OrderView) -> bool {
    let pa = a.price.units();
    let pb = b.price.units();
    match side {
        Side::BUY => pa > pb || (pa == pb && a.ts < b.ts),
        Side::SELL => pa < pb || (pa == pb && a.ts < b.ts),
    }
}

/// Every order of the sequence is served before those behind it.
pub open spec fn sorted(side: Side, s: Seq<OrderView>) -> bool {
    forall|i: int, j: int| 0 <= i < j < s.len() ==> outranks(side, #[trigger] s[i], #[trigger] s[j])
}

/// The sequence with `o` put before the first order that it outranks.
pub open spec fn insert_sorted(side: Side, s: Seq<OrderView>, o: OrderView) -> Seq<OrderView>
    decreases s.len(),
{
    if s.len() == 0 {
        seq![o]
    } else if outranks(side, o, s[0]) {
        seq![o] + s
    } else {
        seq![s[0]] + insert_sorted(side, s.drop_first(), o)
    }
}

/// The test that a record is one of `index`.
pub open spec fn member_of(index: Seq<OrderView>) -> spec_fn(OrderView) -> bool {
    |e: OrderView| index.contains(e)
}

/// The entries whose record the index still holds, in their order.
pub open spec fn live_entries(entries: Seq<OrderView>, index: Seq<OrderView>) -> Seq<OrderView> {
    entries.filter(member_of(index))
}

/// Whether `a` is served before `b` on this side.
pub fn ranks_before(side: Side, a: &BookOrder, b: &BookOrder) -> (r: bool)
    requires
        a.price.wf(),
        b.price.wf(),
    ensures
        r == outranks(side, a@, b@),
{
    let a_below: bool = decimal_less(&a.price, &b.price);
    let b_below: bool = decimal_less(&b.price, &a.price);
    match side {
        Side::BUY => b_below || (!a_below && a.ts < b.ts),
        Side::SELL => a_below || (!b_below && a.ts < b.ts),
    }
}

/// Putting `o` at a position where all before outrank it and it outranks
/// all behind is the sorted insertion, and keeps the sequence sorted.
pub proof fn lemma_insert_at(side: Side, s: Seq<OrderView>, k: int, o: OrderView)
    requires
        sorted(side, s),
        0 <= k <= s.len(),
        forall|i: int| 0 <= i < k ==> outranks(side, #[trigger] s[i], o),
        forall|i: int| k <= i < s.len() ==> outranks(side, o, #[trigger] s[i]),
    ensures
        insert_sorted(side, s, o) == s.insert(k, o),
        sorted(side, s.insert(k, o)),
    decreases s.len(),
{
    let out = s.insert(k, o);
    if s.len() == 0 {
        assert(out =~= seq![o]);
    } else if k == 0 {
        assert(out =~= seq![o] + s);
    } else {
        let rest = s.drop_first();
        assert(outranks(side, s[0], o));
        assert forall|i: int, j: int| 0 <= i < j < rest.len() implies outranks(
            side,
            #[trigger] rest[i],
            #[trigger] rest[j],
        ) by {
            assert(rest[i] == s[i + 1] && rest[j] == s[j + 1]);
        }
        assert forall|i: int| 0 <= i < k - 1 implies outranks(side, #[trigger] rest[i], o) by {
            assert(rest[i] == s[i + 1]);
        }
        assert forall|i: int| k - 1 <= i < rest.len() implies outranks(
            side,
            o,
            #[trigger] rest[i],
        ) by {
            assert(rest[i] == s[i + 1]);
        }
        lemma_insert_at(side, rest, k - 1, o);
        assert(out =~= seq![s[0]] + rest.insert(k - 1, o));
    }
    assert forall|i: int, j: int| 0 <= i < j < out.len() implies outranks(
        side,
        #[trigger] out[i],
        #[trigger] out[j],
    ) by {
        if i < k {
            assert(out[i] == s[i]);
        } else if i > k {
            assert(out[i] == s[i - 1]);
        }
        if j < k {
            assert(out[j] == s[j]);
        } else if j > k {
            assert(out[j] == s[j - 1]);
        }
    }
}

/// An order that outranks all of a sequence goes in at its front.
pub proof fn lemma_insert_front(side: Side, s: Seq<OrderView>, o: OrderView)
    requires
        forall|i: int| 0 <= i < s.len() ==> outranks(side, o, #[trigger] s[i]),
    ensures
        insert_sorted(side, s, o) == seq![o] + s,
{
    if s.len() == 0 {
        assert(seq![o] + s =~= seq![o]);
    }
}

/// A filter keeps a sorted sequence sorted.
pub proof fn lemma_filter_sorted(side: Side, s: Seq<OrderView>, p: spec_fn(OrderView) -> bool)
    requires
        sorted(side, s),
    ensures
        sorted(side, s.filter(p)),
    decreases s.len(),
{
    reveal(Seq::filter);
    if s.len() > 0 {
        let front = s.drop_last();
        assert forall|i: int, j: int| 0 <= i < j < front.len() implies outranks(
            side,
            #[trigger] front[i],
            #[trigger] front[j],
        ) by {
            assert(front[i] == s[i] && front[j] == s[j]);
        }
        lemma_filter_sorted(side, front, p);
        lemma_filter_members(front, p);
        let kept = front.filter(p);
        let out = s.filter(p);
        assert forall|i: int, j: int| 0 <= i < j < out.len() implies outranks(
            side,
            #[trigger] out[i],
            #[trigger] out[j],
        ) by {
            if j < kept.len() {
                assert(out[i] == kept[i] && out[j] == kept[j]);
            } else {
                assert(out[i] == kept[i]);
                assert(front.contains(kept[i]));
                let m = choose|m: int| 0 <= m < front.len() && front[m] == kept[i];
                assert(s[m] == kept[i]);
                assert(out[j] == s[s.len() - 1]);
            }
        }
    }
}

/// Taking an id out of the index takes the entries of that id out of what
/// is live.
pub proof fn lemma_live_without(entries: Seq<OrderView>, index: Seq<OrderView>, id: Seq<char>)
    ensures
        live_entries(entries, without_id(index, id)) == without_id(
            live_entries(entries, index),
            id,
        ),
{
    lemma_without_id_members(index, id);
    let both = member_of(without_id(index, id));
    assert forall|i: int| 0 <= i < entries.len() implies both(#[trigger] entries[i]) == (member_of(
        index,
    )(entries[i]) && other_id(id)(entries[i])) by {
        assert(without_id(index, id).contains(entries[i]) <==> index.contains(entries[i])
            && entries[i].id != id);
    }
    lemma_filter_twice(entries, member_of(index), other_id(id), both);
}

/// Every live entry is an entry that the index holds, and every entry that
/// the index holds is live.
pub proof fn lemma_live_members(entries: Seq<OrderView>, index: Seq<OrderView>)
    ensures
        forall|o: OrderView| #[trigger]
            live_entries(entries, index).contains(o) <==> entries.contains(o) && index.contains(o),
{
    let live = live_entries(entries, index);
    lemma_filter_members(entries, member_of(index));
    assert forall|o: OrderView| #[trigger] live.contains(o) <==> entries.contains(o)
        && index.contains(o) by {
        if live.contains(o) {
            let i = choose|i: int| 0 <= i < live.len() && live[i] == o;
            assert(member_of(index)(live[i]));
        }
        if entries.contains(o) && index.contains(o) {
            let i = choose|i: int| 0 <= i < entries.len() && entries[i] == o;
            assert(member_of(index)(entries[i]));
        }
    }
}

/// Putting a new record into the index and its entry at a sorted place
/// puts the order at its place among the live entries.
pub proof fn lemma_live_insert(
    side: Side,
    entries: Seq<OrderView>,
    k: int,
    o: OrderView,
    index: Seq<OrderView>,
)
    requires
        0 <= k <= entries.len(),
        sorted(side, entries.insert(k, o)),
    ensures
        live_entries(entries.insert(k, o), index.push(o)) == insert_sorted(
            side,
            live_entries(entries, index),
            o,
        ),
{
    let after = entries.insert(k, o);
    let old_test = member_of(index);
    let new_test = member_of(index.push(o));
    let front = entries.subrange(0, k);
    let back = entries.subrange(k, entries.len() as int);
    assert(index.push(o)[index.len() as int] == o);
    assert forall|e: OrderView| e != o implies #[trigger] index.push(o).contains(e)
        == index.contains(e) by {
        if index.push(o).contains(e) {
            let i = choose|i: int| 0 <= i < index.push(o).len() && index.push(o)[i] == e;
            assert(index[i] == e);
        }
        if index.contains(e) {
            let i = choose|i: int| 0 <= i < index.len() && index[i] == e;
            assert(index.push(o)[i] == e);
        }
    }
    assert forall|i: int| 0 <= i < front.len() implies new_test(#[trigger] front[i]) == old_test(
        front[i],
    ) && outranks(side, front[i], o) by {
        assert(front[i] == after[i]);
        assert(outranks(side, after[i], after[k]));
    }
    assert forall|i: int| 0 <= i < back.len() implies new_test(#[trigger] back[i]) == old_test(
        back[i],
    ) && outranks(side, o, back[i]) by {
        assert(back[i] == after[k + 1 + i]);
        assert(outranks(side, after[k], after[k + 1 + i]));
    }
    lemma_filter_insert(entries, k, o, new_test);
    lemma_filter_insert(entries, k, o, old_test);
    lemma_filter_agree(front, new_test, old_test);
    lemma_filter_agree(back, new_test, old_test);
    let a = front.filter(old_test);
    let b = back.filter(old_test);
    lemma_filter_members(front, old_test);
    lemma_filter_members(back, old_test);
    assert forall|i: int, j: int| 0 <= i < j < entries.len() implies outranks(
        side,
        #[trigger] entries[i],
        #[trigger] entries[j],
    ) by {
        let ii = if i < k {
            i
        } else {
            i + 1
        };
        let jj = if j < k {
            j
        } else {
            j + 1
        };
        assert(entries[i] == after[ii] && entries[j] == after[jj]);
    }
    lemma_filter_sorted(side, entries, old_test);
    assert forall|i: int| 0 <= i < a.len() implies outranks(side, #[trigger] (a + b)[i], o) by {
        assert(front.contains(a[i]));
        let m = choose|m: int| 0 <= m < front.len() && front[m] == a[i];
    }
    assert forall|i: int| a.len() <= i < (a + b).len() implies outranks(
        side,
        o,
        #[trigger] (a + b)[i],
    ) by {
        assert(back.contains(b[i - a.len()]));
        let m = choose|m: int| 0 <= m < back.len() && back[m] == b[i - a.len()];
    }
    lemma_insert_at(side, a + b, a.len() as int, o);
    assert((a + b).insert(a.len() as int, o) =~= a + seq![o] + b);
}

/// A new record in the index leaves live what was live among entries that
/// all differ from it.
pub proof fn lemma_live_apart(entries: Seq<OrderView>, index: Seq<OrderView>, o: OrderView)
    requires
        forall|i: int| 0 <= i < entries.len() ==> #[trigger] entries[i] != o,
    ensures
        live_entries(entries, index.push(o)) == live_entries(entries, index),
{
    assert forall|i: int| 0 <= i < entries.len() implies member_of(index.push(o))(
        #[trigger] entries[i],
    ) == member_of(index)(entries[i]) by {
        let e = entries[i];
        if index.push(o).contains(e) {
            let j = choose|j: int| 0 <= j < index.push(o).len() && index.push(o)[j] == e;
            assert(index[j] == e);
        }
        if index.contains(e) {
            let j = choose|j: int| 0 <= j < index.len() && index[j] == e;
            assert(index.push(o)[j] == e);
        }
    }
    lemma_filter_agree(entries, member_of(index.push(o)), member_of(index));
}

/// Taking a record out of the index leaves live what was live among
/// entries that all differ from it.
pub proof fn lemma_live_spared(entries: Seq<OrderView>, index: Seq<OrderView>, o: OrderView)
    requires
        distinct_ids(index),
        index.contains(o),
        forall|i: int| 0 <= i < entries.len() ==> #[trigger] entries[i] != o,
    ensures
        live_entries(entries, without_id(index, o.id)) == live_entries(entries, index),
{
    let live = live_entries(entries, index);
    lemma_live_without(entries, index, o.id);
    lemma_live_members(entries, index);
    if has_id(live, o.id) {
        let i = choose|i: int| 0 <= i < live.len() && (#[trigger] live[i]).id == o.id;
        assert(live.contains(live[i]));
        let a = choose|a: int| 0 <= a < index.len() && index[a] == live[i];
        let b = choose|b: int| 0 <= b < index.len() && index[b] == o;
        assert(a == b);
        let e = choose|e: int| 0 <= e < entries.len() && entries[e] == live[i];
    }
    lemma_without_id_absent(live, o.id);
}

/// The entries of one side of a book, stale ones among them.  The vector
/// holds the best entry last, so that it is taken out at no cost.
pub struct PriceLevelIndex {
    side: Side,
    entries: Vec<BookOrder>,
}

impl PriceLevelIndex {
    /// The side whose orders the structure holds.
    pub closed spec fn side(&self) -> Side {
        self.side
    }

    /// All entries, best first.
    pub closed spec fn entries(&self) -> Seq<OrderView> {
        Seq::new(
            self.entries@.len(),
            |i: int| self.entries@[self.entries@.len() - 1 - i]@,
        )
    }

    /// The entries that are live under `index`, best first.
    pub open spec fn live(&self, index: Seq<OrderView>) -> Seq<OrderView> {
        live_entries(self.entries(), index)
    }

    /// The entries are sorted, of this side, and carry a decimal price.
    pub open spec fn wf(&self) -> bool {
        &&& sorted(self.side(), self.entries())
        &&& forall|i: int|
            0 <= i < self.entries().len() ==> {
                &&& (#[trigger] self.entries()[i]).side == self.side()
                &&& self.entries()[i].price.wf()
            }
    }

    /// A structure without entries.
    pub fn new(side: Side) -> (r: PriceLevelIndex)
        ensures
            r.wf(),
            r.side() == side,
            r.entries() == Seq::<OrderView>::empty(),
    {
        let r = PriceLevelIndex { side, entries: Vec::new() };
        assert(r.entries() =~= Seq::<OrderView>::empty());
        r
    }

    /// The number of entries, stale ones counted.
    pub fn len(&self) -> (r: usize)
        ensures
            r == self.entries().len(),
    {
        self.entries.len()
    }

    /// The entry at a position, counted from the best.
    pub fn entry(&self, i: usize) -> (r: &BookOrder)
        requires
            i < self.entries().len(),
        ensures
            r@ == self.entries()[i as int],
    {
        &self.entries[self.entries.len() - 1 - i]
    }

    /// Puts an order at its place.  The order must differ from every entry
    /// in price or in sequence number, so that one of the two is served
    /// first.
    pub fn push(&mut self, order: BookOrder)
        requires
            old(self).wf(),
            order.side == old(self).side(),
            order.price.wf(),
            forall|i: int|
                0 <= i < old(self).entries().len() ==> outranks(
                    old(self).side(),
                    order@,
                    #[trigger] old(self).entries()[i],
                ) || outranks(old(self).side(), old(self).entries()[i], order@),
        ensures
            final(self).wf(),
            final(self).side() == old(self).side(),
            final(self).entries() == insert_sorted(old(self).side(), old(self).entries(), order@),
            exists|k: int|
                0 <= k <= old(self).entries().len() && final(self).entries() == old(
                    self,
                ).entries().insert(k, order@),
    {
        let n = self.entries.len();
        let mut k: usize = 0;
        loop
            invariant
                self == old(self),
                self.wf(),
                order.price.wf(),
                n == self.entries.len(),
                forall|i: int|
                    0 <= i < self.entries().len() ==> outranks(
                        self.side,
                        order@,
                        #[trigger] self.entries()[i],
                    ) || outranks(self.side, self.entries()[i], order@),
                k <= n,
                forall|i: int| 0 <= i < k ==> outranks(self.side, #[trigger] self.entries()[i], order@),
            ensures
                k <= n,
                forall|i: int| 0 <= i < k ==> outranks(self.side, #[trigger] self.entries()[i], order@),
                k < n ==> outranks(self.side, order@, self.entries()[k as int]),
            decreases n - k,
        {
            if k >= n {
                break ;
            }
            assert(self.entries()[k as int] == self.entries[n - 1 - k]@);
            if ranks_before(self.side, &order, &self.entries[n - 1 - k]) {
                break ;
            }
            k += 1;
        }
        proof {
            let s = self.entries();
            assert forall|i: int| k <= i < s.len() implies outranks(
                self.side,
                order@,
                #[trigger] s[i],
            ) by {
                if i > k {
                    assert(outranks(self.side, s[k as int], s[i]));
                }
            }
            lemma_insert_at(self.side, s, k as int, order@);
        }
        self.entries.insert(n - k, order);
        assert(self.entries() =~= old(self).entries().insert(k as int, order@));
    }

    /// Drops stale entries from the top and returns a copy of the first
    /// live entry, which stays where it is.
    pub fn peek_live(&mut self, index: &IdIndex) -> (r: Option<BookOrder>)
        requires
            old(self).wf(),
            index.wf(),
        ensures
            final(self).wf(),
            final(self).side() == old(self).side(),
            final(self).live(index@) == old(self).live(index@),
            final(self).entries().len() <= old(self).entries().len(),
            final(self).entries() == old(self).entries().subrange(
                old(self).entries().len() - final(self).entries().len(),
                old(self).entries().len() as int,
            ),
            match r {
                Some(o) => {
                    &&& final(self).entries().len() > 0
                    &&& final(self).entries()[0] == o@
                    &&& index@.contains(o@)
                    &&& final(self).live(index@).len() > 0
                    &&& final(self).live(index@)[0] == o@
                },
                None => final(self).entries().len() == 0 && final(self).live(index@).len() == 0,
            },
    {
        assert(self.entries() =~= old(self).entries().subrange(0, old(self).entries().len() as int));
        loop
            invariant
                self.wf(),
                index.wf(),
                self.side() == old(self).side(),
                self.live(index@) == old(self).live(index@),
                self.entries().len() <= old(self).entries().len(),
                self.entries() == old(self).entries().subrange(
                    old(self).entries().len() - self.entries().len(),
                    old(self).entries().len() as int,
                ),
            decreases self.entries.len(),
        {
            let n = self.entries.len();
            if n == 0 {
                proof {
                    reveal(Seq::filter);
                }
                return None;
            }
            proof {
                assert(self.entries()[0] == self.entries[n - 1]@);
                lemma_filter_first(self.entries(), member_of(index@));
            }
            if index.holds(&self.entries[n - 1]) {
                return Some(self.entries[n - 1].clone());
            }
            let ghost before = self.entries();
            self.entries.pop();
            proof {
                lemma_drop_first(self.side, before, self.entries());
                assert(self.entries() =~= old(self).entries().subrange(
                    old(self).entries().len() - self.entries().len(),
                    old(self).entries().len() as int,
                ));
            }
        }
    }

    /// Drops stale entries from the top, then takes out the first live
    /// entry and returns it.
    pub fn pop_live(&mut self, index: &IdIndex) -> (r: Option<BookOrder>)
        requires
            old(self).wf(),
            index.wf(),
        ensures
            final(self).wf(),
            final(self).side() == old(self).side(),
            final(self).entries().len() <= old(self).entries().len(),
            final(self).entries() == old(self).entries().subrange(
                old(self).entries().len() - final(self).entries().len(),
                old(self).entries().len() as int,
            ),
            match r {
                Some(o) => {
                    &&& index@.contains(o@)
                    &&& old(self).entries().contains(o@)
                    &&& old(self).live(index@) == seq![o@] + final(self).live(index@)
                    &&& final(self).entries().len() < old(self).entries().len()
                    &&& forall|i: int|
                        0 <= i < final(self).entries().len() ==> outranks(
                            old(self).side(),
                            o@,
                            #[trigger] final(self).entries()[i],
                        )
                },
                None => {
                    &&& final(self).entries().len() == 0
                    &&& old(self).live(index@).len() == 0
                },
            },
    {
        match self.peek_live(index) {
            None => None,
            Some(o) => {
                let ghost before = self.entries();
                proof {
                    lemma_filter_first(before, member_of(index@));
                    let skip = old(self).entries().len() - before.len();
                    assert(old(self).entries()[skip] == before[0]);
                }
                self.entries.pop();
                proof {
                    lemma_drop_first(self.side, before, self.entries());
                    assert(self.entries() =~= old(self).entries().subrange(
                        old(self).entries().len() - self.entries().len(),
                        old(self).entries().len() as int,
                    ));
                }
                Some(o)
            },
        }
    }
}

/// What is left of sorted entries without the first is sorted, of the same
/// side and prices, and outranked by the first.
proof fn lemma_drop_first(side: Side, before: Seq<OrderView>, after: Seq<OrderView>)
    requires
        before.len() > 0,
        after =~= before.drop_first(),
        sorted(side, before),
        forall|i: int|
            0 <= i < before.len() ==> (#[trigger] before[i]).side == side && before[i].price.wf(),
    ensures
        after == before.drop_first(),
        sorted(side, after),
        forall|i: int|
            0 <= i < after.len() ==> {
                &&& (#[trigger] after[i]).side == side
                &&& after[i].price.wf()
                &&& outranks(side, before[0], after[i])
            },
{
    assert forall|i: int, j: int| 0 <= i < j < after.len() implies outranks(
        side,
        #[trigger] after[i],
        #[trigger] after[j],
    ) by {
        assert(after[i] == before[i + 1] && after[j] == before[j + 1]);
    }
    assert forall|i: int| 0 <= i < after.len() implies {
        &&& (#[trigger] after[i]).side == side
        &&& after[i].price.wf()
        &&& outranks(side, before[0], after[i])
    } by {
        assert(after[i] == before[i + 1]);
    }
}

} // verus!
