//! The index of the orders that rest in a book, by order id.
//!
//! The index holds the authoritative copy of every resting order.  An entry
//! of a price-level index counts as live only while the index holds the very
//! same record.

use crate::filtering::{lemma_filter_all, lemma_filter_members, lemma_filter_none};
use crate::decimal::Dec;
use crate::order::{BookOrder, OrderView, Side};
use vstd::prelude::*;

verus! {

/// No two orders of the sequence share an id.
pub open spec fn distinct_ids(s: Seq<OrderView>) -> bool {
    forall|i: int, j: int| 0 <= i < j < s.len() ==> (#[trigger] s[i]).id != (#[trigger] s[j]).id
}

/// Some order of the sequence has this id.
pub open spec fn has_id(s: Seq<OrderView>, id: Seq<char>) -> bool {
    exists|i: int| 0 <= i < s.len() && (#[trigger] s[i]).id == id
}

/// Every buy order of the sequence is priced below every sell order of it.
pub open spec fn uncrossed(s: Seq<OrderView>) -> bool {
    forall|i: int, j: int|
        0 <= i < s.len() && 0 <= j < s.len() && (#[trigger] s[i]).side == Side::BUY && (
        #[trigger] s[j]).side == Side::SELL ==> s[i].price.units() < s[j].price.units()
}

/// The test that an order has another id than `id`.
pub open spec fn other_id(id: Seq<char>) -> spec_fn(OrderView) -> bool {
    |o: OrderView| o.id != id
}

/// The sequence without the orders of this id.
pub open spec fn without_id(s: Seq<OrderView>, id: Seq<char>) -> Seq<OrderView> {
    s.filter(other_id(id))
}

/// The sequence in which every order of this id has this remaining amount.
pub open spec fn with_remaining_of(s: Seq<OrderView>, id: Seq<char>, remaining: Dec) -> Seq<
    OrderView,
> {
    Seq::new(
        s.len(),
        |i: int|
            if s[i].id == id {
                s[i].with_remaining(remaining)
            } else {
                s[i]
            },
    )
}

/// Where ids are distinct, taking out the one order of an id is taking out
/// its position.
pub proof fn lemma_without_id_at(s: Seq<OrderView>, k: int)
    requires
        distinct_ids(s),
        0 <= k < s.len(),
    ensures
        without_id(s, s[k].id) == s.remove(k),
{
    let id = s[k].id;
    let p = other_id(id);
    let front = s.subrange(0, k);
    let one = seq![s[k]];
    let back = s.subrange(k + 1, s.len() as int);
    assert(s =~= front + one + back);
    assert(s.remove(k) =~= front + back);
    Seq::filter_distributes_over_add(front + one, back, p);
    Seq::filter_distributes_over_add(front, one, p);
    assert forall|i: int| 0 <= i < front.len() implies p(#[trigger] front[i]) by {
        assert(front[i] == s[i]);
    }
    assert forall|i: int| 0 <= i < back.len() implies p(#[trigger] back[i]) by {
        assert(back[i] == s[k + 1 + i]);
    }
    lemma_filter_all(front, p);
    lemma_filter_all(back, p);
    lemma_filter_none(one, p);
    assert(front + Seq::<OrderView>::empty() + back =~= front + back);
}

/// Taking out an id that no order has changes nothing.
pub proof fn lemma_without_id_absent(s: Seq<OrderView>, id: Seq<char>)
    requires
        !has_id(s, id),
    ensures
        without_id(s, id) == s,
{
    lemma_filter_all(s, other_id(id));
}

/// What is left without an id: the orders of every other id, and no more.
pub proof fn lemma_without_id_members(s: Seq<OrderView>, id: Seq<char>)
    ensures
        forall|o: OrderView| #[trigger] without_id(s, id).contains(o) <==> s.contains(o) && o.id != id,
        !has_id(without_id(s, id), id),
        distinct_ids(s) ==> distinct_ids(without_id(s, id)),
        uncrossed(s) ==> uncrossed(without_id(s, id)),
{
    let p = other_id(id);
    let out = without_id(s, id);
    lemma_filter_members(s, p);
    assert forall|o: OrderView| #[trigger] out.contains(o) <==> s.contains(o) && o.id != id by {
        if out.contains(o) {
            let i = choose|i: int| 0 <= i < out.len() && out[i] == o;
            assert(p(out[i]));
        }
        if s.contains(o) && o.id != id {
            let i = choose|i: int| 0 <= i < s.len() && s[i] == o;
            assert(p(s[i]));
        }
    }
    if has_id(out, id) {
        let i = choose|i: int| 0 <= i < out.len() && (#[trigger] out[i]).id == id;
        assert(p(out[i]));
    }
    if distinct_ids(s) {
        lemma_filter_keeps_distinct(s, p);
    }
    if uncrossed(s) {
        assert forall|i: int, j: int|
            0 <= i < out.len() && 0 <= j < out.len() && (#[trigger] out[i]).side == Side::BUY && (
            #[trigger] out[j]).side == Side::SELL implies out[i].price.units()
            < out[j].price.units() by {
            assert(out.contains(out[i]));
            assert(out.contains(out[j]));
            let a = choose|a: int| 0 <= a < s.len() && s[a] == out[i];
            let b = choose|b: int| 0 <= b < s.len() && s[b] == out[j];
            assert(s[a].price.units() < s[b].price.units());
        }
    }
}

/// A filter keeps ids distinct.
pub proof fn lemma_filter_keeps_distinct(s: Seq<OrderView>, p: spec_fn(OrderView) -> bool)
    requires
        distinct_ids(s),
    ensures
        distinct_ids(s.filter(p)),
    decreases s.len(),
{
    reveal(Seq::filter);
    if s.len() > 0 {
        let front = s.drop_last();
        assert forall|i: int, j: int| 0 <= i < j < front.len() implies (#[trigger] front[i]).id != (
        #[trigger] front[j]).id by {
            assert(front[i] == s[i] && front[j] == s[j]);
        }
        lemma_filter_keeps_distinct(front, p);
        lemma_filter_members(front, p);
        let kept = front.filter(p);
        let out = s.filter(p);
        assert forall|i: int, j: int| 0 <= i < j < out.len() implies (#[trigger] out[i]).id != (
        #[trigger] out[j]).id by {
            if j < kept.len() {
                assert(out[i] == kept[i] && out[j] == kept[j]);
            } else {
                assert(out[j] == s.last());
                assert(out[i] == kept[i]);
                assert(front.contains(kept[i]));
                let m = choose|m: int| 0 <= m < front.len() && front[m] == kept[i];
                assert(s[m] == kept[i]);
                assert(s[s.len() - 1] == s.last());
            }
        }
    }
}

/// The resting orders of one book, found by id.
pub struct IdIndex {
    orders: Vec<BookOrder>,
}

impl View for IdIndex {
    type V = Seq<OrderView>;

    closed spec fn view(&self) -> Seq<OrderView> {
        self.orders@.map_values(|o: BookOrder| o@)
    }
}

impl IdIndex {
    /// No id occurs twice.
    pub open spec fn wf(&self) -> bool {
        distinct_ids(self@)
    }

    /// An index that holds nothing.
    pub fn new() -> (r: IdIndex)
        ensures
            r@ == Seq::<OrderView>::empty(),
            r.wf(),
    {
        let r = IdIndex { orders: Vec::new() };
        assert(r@ =~= Seq::<OrderView>::empty());
        r
    }

    /// Where the order of this id stands, if the index holds one.
    fn position(&self, id: &String) -> (r: Option<usize>)
        ensures
            match r {
                Some(k) => k < self@.len() && self@[k as int].id == id@,
                None => !has_id(self@, id@),
            },
    {
        let mut k: usize = 0;
        while k < self.orders.len()
            invariant
                k <= self.orders.len(),
                forall|i: int| 0 <= i < k ==> (#[trigger] self@[i]).id != id@,
            decreases self.orders.len() - k,
        {
            if self.orders[k].id == *id {
                return Some(k);
            }
            k += 1;
        }
        None
    }

    /// The order of this id.
    pub fn get(&self, id: &String) -> (r: Option<&BookOrder>)
        ensures
            match r {
                Some(o) => self@.contains(o@) && o.id@ == id@,
                None => !has_id(self@, id@),
            },
    {
        match self.position(id) {
            Some(k) => {
                assert(self@[k as int] == self.orders[k as int]@);
                Some(&self.orders[k])
            },
            None => None,
        }
    }

    /// Whether the index holds this very record: the same id with the same
    /// price, remaining amount, sequence number and all the rest.
    pub fn holds(&self, order: &BookOrder) -> (r: bool)
        requires
            self.wf(),
        ensures
            r == self@.contains(order@),
    {
        match self.position(&order.id) {
            Some(k) => {
                let r = self.orders[k].same_record(order);
                proof {
                    if r {
                        assert(self@[k as int] == order@);
                    } else if self@.contains(order@) {
                        let j = choose|j: int| 0 <= j < self@.len() && self@[j] == order@;
                        assert(self@[j].id == self@[k as int].id);
                    }
                }
                r
            },
            None => {
                proof {
                    if self@.contains(order@) {
                        let j = choose|j: int| 0 <= j < self@.len() && self@[j] == order@;
                        assert(self@[j].id == order.id@);
                    }
                }
                false
            },
        }
    }

    /// Puts an order under an id that the index does not hold yet.
    pub fn insert(&mut self, order: BookOrder)
        requires
            old(self).wf(),
            !has_id(old(self)@, order.id@),
        ensures
            final(self)@ == old(self)@.push(order@),
            final(self).wf(),
    {
        self.orders.push(order);
        assert(self@ =~= old(self)@.push(order@));
    }

    /// Gives the order of this id another remaining amount, and says
    /// whether the index holds such an order.
    pub fn update_remaining(&mut self, id: &String, remaining: Dec) -> (r: bool)
        requires
            old(self).wf(),
        ensures
            final(self)@ == with_remaining_of(old(self)@, id@, remaining),
            final(self).wf(),
            r == has_id(old(self)@, id@),
    {
        match self.position(id) {
            Some(k) => {
                self.orders[k].remaining = remaining;
                proof {
                    assert(self@ =~= with_remaining_of(old(self)@, id@, remaining)) by {
                        assert forall|i: int| 0 <= i < self@.len() implies self@[i]
                            == with_remaining_of(old(self)@, id@, remaining)[i] by {
                            if i != k {
                                assert(old(self)@[i].id != old(self)@[k as int].id);
                            }
                        }
                    }
                }
                true
            },
            None => {
                proof {
                    assert(self@ =~= with_remaining_of(old(self)@, id@, remaining));
                }
                false
            },
        }
    }

    /// Takes out the order of this id and returns it; nothing happens where
    /// the index holds none.
    pub fn remove(&mut self, id: &String) -> (r: Option<BookOrder>)
        requires
            old(self).wf(),
        ensures
            final(self)@ == without_id(old(self)@, id@),
            final(self).wf(),
            match r {
                Some(o) => old(self)@.contains(o@) && o.id@ == id@,
                None => !has_id(old(self)@, id@),
            },
    {
        proof {
            lemma_without_id_members(self@, id@);
        }
        match self.position(id) {
            Some(k) => {
                let o = self.orders.remove(k);
                proof {
                    assert(old(self)@[k as int] == o@);
                    lemma_without_id_at(old(self)@, k as int);
                    assert(self@ =~= old(self)@.remove(k as int));
                }
                Some(o)
            },
            None => {
                proof {
                    lemma_without_id_absent(self@, id@);
                }
                None
            },
        }
    }
}

} // verus!
