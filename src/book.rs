//! The book controller: both sides and the index by identifier, kept in step.
use vstd::prelude::*;
use crate::order::{
    Order, Side, Trade, Quote, LevelDepth, stamped_from, active_status, copy_order, at_least_as_good,
};
use crate::queue::{
    has_id, ids_unique, crosses, cross_count, in_priority_order, without, priority_insert, depth_of, find_id, remove_id,
    insert_by_priority, lemma_without_contains, lemma_without_keeps_order, lemma_without_unique,
    lemma_without_at, lemma_priority_insert_contains, level_queue, queue_total, lemma_depth_exact,
    lemma_depth_levels_nonempty,
};

verus! {

/// A limit order book.
///
/// Each side is one queue in price-time priority (best price first, earliest
/// arrival first within a price). The index holds a copy of every resting
/// order, keyed by its identifier; every mutation updates both together.
pub struct OrderBook {
    bids: Vec<Order>,
    asks: Vec<Order>,
    index: Vec<Order>,
}

impl OrderBook {
    /// The resting bids, best first.
    pub closed spec fn bids(&self) -> Seq<Order> {
        self.bids@
    }

    /// The resting asks, best first.
    pub closed spec fn asks(&self) -> Seq<Order> {
        self.asks@
    }

    pub open spec fn side_view(&self, side: Side) -> Seq<Order> {
        match side {
            Side::Bid => self.bids(),
            Side::Ask => self.asks(),
        }
    }

    /// `o` rests on one of the two sides.
    pub open spec fn resting(&self, o: Order) -> bool {
        self.bids().contains(o) || self.asks().contains(o)
    }

    /// Some resting order carries `id`.
    pub open spec fn live_id(&self, id: Seq<char>) -> bool {
        has_id(self.bids(), id) || has_id(self.asks(), id)
    }

    /// Both sides are in priority order, identifiers are distinct, and the
    /// index holds exactly the resting orders.
    pub closed spec fn wf(&self) -> bool {
        &&& in_priority_order(self.bids@, Side::Bid)
        &&& in_priority_order(self.asks@, Side::Ask)
        &&& ids_unique(self.bids@)
        &&& ids_unique(self.asks@)
        &&& ids_unique(self.index@)
        &&& forall|o: Order| #[trigger]
            self.index@.contains(o) <==> (self.bids@.contains(o) || self.asks@.contains(o))
    }

    /// The index knows an identifier exactly when a resting order carries it.
    proof fn lemma_index_ids(&self, id: Seq<char>)
        requires
            self.wf(),
        ensures
            has_id(self.index@, id) <==> self.live_id(id),
    {
        if has_id(self.index@, id) {
            let k = choose|k: int| 0 <= k < self.index@.len() && (#[trigger] self.index@[k]).identifier@ == id;
            assert(self.index@.contains(self.index@[k]));
            let o = self.index@[k];
            if self.bids@.contains(o) {
                let j = choose|j: int| 0 <= j < self.bids@.len() && self.bids@[j] == o;
                assert(self.bids@[j].identifier@ == id);
            } else {
                let j = choose|j: int| 0 <= j < self.asks@.len() && self.asks@[j] == o;
                assert(self.asks@[j].identifier@ == id);
            }
        }
        if has_id(self.bids@, id) {
            let j = choose|j: int| 0 <= j < self.bids@.len() && (#[trigger] self.bids@[j]).identifier@ == id;
            assert(self.bids@.contains(self.bids@[j]));
            assert(self.index@.contains(self.bids@[j]));
            let k = choose|k: int| 0 <= k < self.index@.len() && self.index@[k] == self.bids@[j];
            assert(self.index@[k].identifier@ == id);
        }
        if has_id(self.asks@, id) {
            let j = choose|j: int| 0 <= j < self.asks@.len() && (#[trigger] self.asks@[j]).identifier@ == id;
            assert(self.asks@.contains(self.asks@[j]));
            assert(self.index@.contains(self.asks@[j]));
            let k = choose|k: int| 0 <= k < self.index@.len() && self.index@[k] == self.asks@[j];
            assert(self.index@[k].identifier@ == id);
        }
    }

    /// No identifier rests on both sides.
    proof fn lemma_sides_disjoint(&self, i: int, j: int)
        requires
            self.wf(),
            0 <= i < self.bids@.len(),
            0 <= j < self.asks@.len(),
        ensures
            self.bids@[i].identifier@ != self.asks@[j].identifier@,
    {
        let b = self.bids@[i];
        let a = self.asks@[j];
        assert(self.bids@.contains(b));
        assert(self.asks@.contains(a));
        assert(self.index@.contains(b));
        assert(self.index@.contains(a));
        let kb = choose|k: int| 0 <= k < self.index@.len() && self.index@[k] == b;
        let ka = choose|k: int| 0 <= k < self.index@.len() && self.index@[k] == a;
        assert(b.side == Side::Bid && a.side == Side::Ask);
        if kb == ka {
            assert(a == b);
        }
    }

    /// An empty book.
    pub fn new() -> (r: OrderBook)
        ensures
            r.wf(),
            r.bids() == Seq::<Order>::empty(),
            r.asks() == Seq::<Order>::empty(),
    {
        OrderBook { bids: Vec::new(), asks: Vec::new(), index: Vec::new() }
    }

    /// Takes the order carrying `id` out of the index and out of its side.
    fn remove_live(&mut self, id: &String) -> (r: Option<Order>)
        requires
            old(self).wf(),
        ensures
            final(self).wf(),
            final(self).bids() == without(old(self).bids(), id@),
            final(self).asks() == without(old(self).asks(), id@),
            match r {
                Some(o) => old(self).resting(o) && o.identifier@ == id@,
                None => !old(self).live_id(id@),
            },
    {
        let ghost before = *self;
        proof {
            before.lemma_index_ids(id@);
            lemma_without_keeps_order(before.bids@, Side::Bid, id@);
            lemma_without_keeps_order(before.asks@, Side::Ask, id@);
        }
        let found = remove_id(&mut self.index, id);
        remove_id(&mut self.bids, id);
        remove_id(&mut self.asks, id);
        proof {
            assert forall|o: Order| #[trigger]
                self.index@.contains(o) <==> (self.bids@.contains(o) || self.asks@.contains(o)) by {
                lemma_without_contains(before.index@, id@, o);
                lemma_without_contains(before.bids@, id@, o);
                lemma_without_contains(before.asks@, id@, o);
                assert(before.index@.contains(o) <==> (before.bids@.contains(o) || before.asks@.contains(o)));
            }
        }
        match found {
            Some(o) => {
                proof {
                    assert(before.index@.contains(o));
                }
                Some(o)
            },
            None => None,
        }
    }

    /// Cancels the order carrying `id`; false when no such order rests.
    pub fn cancel(&mut self, id: &String) -> (r: bool)
        requires
            old(self).wf(),
        ensures
            final(self).wf(),
            r == old(self).live_id(id@),
            final(self).bids() == without(old(self).bids(), id@),
            final(self).asks() == without(old(self).asks(), id@),
    {
        let found = self.remove_live(id);
        found.is_some()
    }

    /// Places `order`, stamped "active", behind every resting order on its side
    /// at an equal or better price. A resting order with the same identifier
    /// is replaced. Returns the order as stored.
    pub fn place(&mut self, order: Order) -> (r: Order)
        requires
            old(self).wf(),
        ensures
            final(self).wf(),
            stamped_from(r, order),
            final(self).side_view(order.side) == priority_insert(
                without(old(self).side_view(order.side), order.identifier@),
                r,
            ),
            final(self).side_view(order.side.opposite()) == without(
                old(self).side_view(order.side.opposite()),
                order.identifier@,
            ),
    {
        self.remove_live(&order.identifier);
        let ghost mid = *self;
        let stored = Order {
            identifier: order.identifier,
            price: order.price,
            quantity: order.quantity,
            side: order.side,
            status: "active".to_owned(),
        };
        proof {
            mid.lemma_index_ids(stored.identifier@);
            lemma_without_unique(mid.bids@, stored.identifier@);
            lemma_without_unique(mid.asks@, stored.identifier@);
        }
        let kept = copy_order(&stored);
        let result = copy_order(&stored);
        self.index.push(kept);
        match stored.side {
            Side::Bid => insert_by_priority(&mut self.bids, stored),
            Side::Ask => insert_by_priority(&mut self.asks, stored),
        }
        proof {
            let ix = self.index@;
            assert(ix == mid.index@.push(result));
            assert forall|a: int, b: int|
                0 <= a < ix.len() && 0 <= b < ix.len() && a != b implies (#[trigger] ix[a]).identifier@
                    != (#[trigger] ix[b]).identifier@ by {
                if a < ix.len() - 1 && b < ix.len() - 1 {
                    assert(ix[a] == mid.index@[a] && ix[b] == mid.index@[b]);
                } else if a < ix.len() - 1 {
                    assert(ix[a] == mid.index@[a]);
                } else {
                    assert(ix[b] == mid.index@[b]);
                }
            }
            assert forall|o: Order| #[trigger]
                ix.contains(o) <==> (self.bids@.contains(o) || self.asks@.contains(o)) by {
                assert(ix.contains(o) <==> (mid.index@.contains(o) || o == result)) by {
                    if ix.contains(o) {
                        let k = choose|k: int| 0 <= k < ix.len() && ix[k] == o;
                        if k < ix.len() - 1 {
                            assert(mid.index@[k] == o);
                        }
                    }
                    if mid.index@.contains(o) {
                        let k = choose|k: int| 0 <= k < mid.index@.len() && mid.index@[k] == o;
                        assert(ix[k] == o);
                    }
                    if o == result {
                        assert(ix[ix.len() - 1] == o);
                    }
                }
                assert(mid.index@.contains(o) <==> (mid.bids@.contains(o) || mid.asks@.contains(o)));
            }
        }
        result
    }

    /// The resting order carrying `id`, if any.
    pub fn get(&self, id: &String) -> (r: Option<Order>)
        requires
            self.wf(),
        ensures
            match r {
                Some(o) => self.resting(o) && o.identifier@ == id@,
                None => !self.live_id(id@),
            },
    {
        proof {
            self.lemma_index_ids(id@);
        }
        match find_id(&self.index, id) {
            Some(k) => {
                proof {
                    assert(self.index@.contains(self.index@[k as int]));
                }
                Some(copy_order(&self.index[k]))
            },
            None => None,
        }
    }
}

impl OrderBook {
    /// Takes the head bid and the head ask out of the book as one trade.
    fn match_heads(&mut self) -> (r: Trade)
        requires
            old(self).wf(),
            crosses(old(self).bids(), old(self).asks()),
        ensures
            final(self).wf(),
            final(self).bids() == old(self).bids().drop_first(),
            final(self).asks() == old(self).asks().drop_first(),
            r.bid == old(self).bids()[0],
            r.ask == old(self).asks()[0],
            r.price_x2 == old(self).bids()[0].price + old(self).asks()[0].price,
    {
        let ghost before = *self;
        let bid_id = self.bids[0].identifier.clone();
        let ask_id = self.asks[0].identifier.clone();
        proof {
            before.lemma_sides_disjoint(0, 0);
            lemma_without_at(before.bids@, 0);
            lemma_without_at(before.asks@, 0);
            lemma_without_keeps_order(before.asks@, Side::Ask, bid_id@);
            if has_id(before.asks@, bid_id@) {
                let j = choose|j: int|
                    0 <= j < before.asks@.len() && (#[trigger] before.asks@[j]).identifier@ == bid_id@;
                before.lemma_sides_disjoint(0, j);
            }
            assert(before.bids@.remove(0) =~= before.bids@.drop_first());
            assert(before.asks@.remove(0) =~= before.asks@.drop_first());
        }
        let bid = self.remove_live(&bid_id);
        let ghost between = *self;
        proof {
            assert(between.bids@ == before.bids@.drop_first());
            assert(between.asks@ == before.asks@);
            if has_id(between.bids@, ask_id@) {
                let j = choose|j: int|
                    0 <= j < between.bids@.len() && (#[trigger] between.bids@[j]).identifier@ == ask_id@;
                assert(between.bids@[j] == before.bids@[j + 1]);
                before.lemma_sides_disjoint(j + 1, 0);
            }
            lemma_without_unique(between.bids@, ask_id@);
            assert(has_id(before.bids@, bid_id@));
            assert(between.asks@[0] == before.asks@[0]);
            assert(has_id(between.asks@, ask_id@));
        }
        let ask = self.remove_live(&ask_id);
        let bid = bid.unwrap();
        let ask = ask.unwrap();
        proof {
            if before.asks@.contains(bid) {
                let j = choose|j: int| 0 <= j < before.asks@.len() && before.asks@[j] == bid;
                before.lemma_sides_disjoint(0, j);
            }
            let jb = choose|j: int| 0 <= j < before.bids@.len() && before.bids@[j] == bid;
            assert(jb == 0);
            if between.bids@.contains(ask) {
                let j = choose|j: int| 0 <= j < between.bids@.len() && between.bids@[j] == ask;
                assert(between.bids@[j] == before.bids@[j + 1]);
                before.lemma_sides_disjoint(j + 1, 0);
            }
            let ja = choose|j: int| 0 <= j < between.asks@.len() && between.asks@[j] == ask;
            assert(ja == 0);
        }
        let price_x2 = bid.price as i128 + ask.price as i128;
        Trade { ask, bid, price_x2 }
    }

    /// Pairs the head bid with the head ask for as long as the best bid price
    /// is at least the best ask price. Each pairing removes both whole orders
    /// (quantities are not compared) and records a trade at the midpoint of
    /// the two level prices. Returns the trades in the order they were made.
    pub fn run_matching(&mut self) -> (r: Vec<Trade>)
        requires
            old(self).wf(),
        ensures
            final(self).wf(),
            r@.len() == cross_count(old(self).bids(), old(self).asks()),
            final(self).bids() == old(self).bids().skip(r@.len() as int),
            final(self).asks() == old(self).asks().skip(r@.len() as int),
            !crosses(final(self).bids(), final(self).asks()),
            forall|i: int|
                0 <= i < r@.len() ==> {
                    &&& (#[trigger] r@[i]).bid == old(self).bids()[i]
                    &&& r@[i].ask == old(self).asks()[i]
                    &&& r@[i].price_x2 == old(self).bids()[i].price + old(self).asks()[i].price
                },
    {
        let ghost b0 = self.bids@;
        let ghost a0 = self.asks@;
        let mut trades: Vec<Trade> = Vec::new();
        let mut t: usize = 0;
        let n0: usize = self.bids.len();
        proof {
            assert(b0.skip(0) =~= b0);
            assert(a0.skip(0) =~= a0);
        }
        while self.bids.len() > 0 && self.asks.len() > 0 && self.bids[0].price >= self.asks[0].price
            invariant
                self.wf(),
                t == trades@.len(),
                t <= b0.len(),
                t <= a0.len(),
                b0.len() == n0,
                self.bids@ == b0.skip(t as int),
                self.asks@ == a0.skip(t as int),
                cross_count(b0, a0) == t + cross_count(self.bids@, self.asks@),
                forall|i: int|
                    0 <= i < t ==> {
                        &&& (#[trigger] trades@[i]).bid == b0[i]
                        &&& trades@[i].ask == a0[i]
                        &&& trades@[i].price_x2 == b0[i].price + a0[i].price
                    },
            decreases self.bids@.len(),
        {
            let ghost before = *self;
            let trade = self.match_heads();
            proof {
                assert(t < b0.len());
                assert(b0.skip(t as int).drop_first() =~= b0.skip(t + 1));
                assert(a0.skip(t as int).drop_first() =~= a0.skip(t + 1));
                assert(b0[t as int] == before.bids@[0]);
                assert(a0[t as int] == before.asks@[0]);
            }
            trades.push(trade);
            t = t + 1;
        }
        proof {
            assert(!crosses(self.bids@, self.asks@));
        }
        trades
    }

    /// The spread and doubled mid price of the top of the book; none while
    /// either side is empty.
    pub fn spread(&self) -> (r: Option<Quote>)
        ensures
            match r {
                Some(q) => {
                    &&& self.bids().len() > 0
                    &&& self.asks().len() > 0
                    &&& q.spread == self.asks()[0].price - self.bids()[0].price
                    &&& q.mid_x2 == self.asks()[0].price + self.bids()[0].price
                },
                None => self.bids().len() == 0 || self.asks().len() == 0,
            },
    {
        if self.bids.len() == 0 || self.asks.len() == 0 {
            return None;
        }
        let bid = self.bids[0].price as i128;
        let ask = self.asks[0].price as i128;
        Some(Quote { spread: ask - bid, mid_x2: ask + bid })
    }

    /// The best price on `side`, if any order rests there.
    pub fn best(&self, side: Side) -> (r: Option<i64>)
        ensures
            match r {
                Some(p) => self.side_view(side).len() > 0 && p == self.side_view(side)[0].price,
                None => self.side_view(side).len() == 0,
            },
    {
        let queue = match side {
            Side::Bid => &self.bids,
            Side::Ask => &self.asks,
        };
        if queue.len() == 0 {
            None
        } else {
            Some(queue[0].price)
        }
    }

    /// The depth view of `side`: one line per price level, best first, with
    /// the total quantity resting there.
    pub fn depth(&self, side: Side) -> (r: Vec<LevelDepth>)
        ensures
            r@.len() == depth_of(self.side_view(side)).len(),
            forall|k: int| 0 <= k < r@.len() ==> (#[trigger] r@[k])@ == depth_of(self.side_view(side))[k],
    {
        match side {
            Side::Bid => crate::queue::depth(&self.bids),
            Side::Ask => crate::queue::depth(&self.asks),
        }
    }

    /// Removes every order from both sides and the index.
    pub fn clear(&mut self)
        ensures
            final(self).wf(),
            final(self).bids() == Seq::<Order>::empty(),
            final(self).asks() == Seq::<Order>::empty(),
    {
        self.bids = Vec::new();
        self.asks = Vec::new();
        self.index = Vec::new();
    }

    /// Every resting order whose status is "active", each once.
    pub fn active_orders(&self) -> (r: Vec<Order>)
        requires
            self.wf(),
        ensures
            ids_unique(r@),
            forall|o: Order| #[trigger]
                r@.contains(o) <==> (self.resting(o) && o.status@ == active_status()),
    {
        let active = "active".to_owned();
        let mut r: Vec<Order> = Vec::new();
        let mut k: usize = 0;
        while k < self.index.len()
            invariant
                self.wf(),
                active@ == active_status(),
                k <= self.index@.len(),
                ids_unique(r@),
                forall|j: int| 0 <= j < r@.len() ==> exists|i: int| 0 <= i < k && (#[trigger] r@[j]) == #[trigger] self.index@[i],
                forall|o: Order| #[trigger]
                    r@.contains(o) <==> (self.index@.take(k as int).contains(o) && o.status@ == active_status()),
            decreases self.index@.len() - k,
        {
            let ghost r0 = r@;
            let ghost ix = self.index@;
            let is_active = self.index[k].status.eq(&active);
            if is_active {
                r.push(copy_order(&self.index[k]));
            }
            proof {
                assert(is_active == (ix[k as int].status@ == active_status()));
                let t1 = ix.take(k + 1);
                let t0 = ix.take(k as int);
                assert forall|o: Order| #[trigger] t1.contains(o) <==> (t0.contains(o) || o == ix[k as int]) by {
                    if t1.contains(o) {
                        let i = choose|i: int| 0 <= i < t1.len() && t1[i] == o;
                        if i < k {
                            assert(t0[i] == o);
                        }
                    }
                    if t0.contains(o) {
                        let i = choose|i: int| 0 <= i < t0.len() && t0[i] == o;
                        assert(t1[i] == o);
                    }
                    if o == ix[k as int] {
                        assert(t1[k as int] == o);
                    }
                }
                if r@.len() > r0.len() {
                    assert forall|o: Order| #[trigger] r@.contains(o) <==> (r0.contains(o) || o == ix[k as int]) by {
                        if r@.contains(o) {
                            let i = choose|i: int| 0 <= i < r@.len() && r@[i] == o;
                            if i < r0.len() {
                                assert(r0[i] == o);
                            }
                        }
                        if r0.contains(o) {
                            let i = choose|i: int| 0 <= i < r0.len() && r0[i] == o;
                            assert(r@[i] == o);
                        }
                        if o == ix[k as int] {
                            assert(r@[r0.len() as int] == o);
                        }
                    }
                    assert forall|a: int, b: int|
                        0 <= a < r@.len() && 0 <= b < r@.len() && a != b implies (#[trigger] r@[a]).identifier@
                            != (#[trigger] r@[b]).identifier@ by {
                        let last = r0.len() as int;
                        if a == last {
                            assert(r@[b] == r0[b]);
                            let i = choose|i: int| 0 <= i < k && r@[b] == #[trigger] ix[i];
                            assert(r@[b] == r0[b]);
                        } else if b == last {
                            assert(r@[a] == r0[a]);
                            let i = choose|i: int| 0 <= i < k && r@[a] == #[trigger] ix[i];
                            assert(r@[a] == r0[a]);
                        } else {
                            assert(r@[a] == r0[a] && r@[b] == r0[b]);
                        }
                    }
                    assert forall|j: int| 0 <= j < r@.len() implies exists|i: int| 0 <= i < k + 1 && (#[trigger] r@[j]) == #[trigger] ix[i] by {
                        if j < r0.len() {
                            assert(r@[j] == r0[j]);
                        } else {
                            assert(r@[j] == ix[k as int]);
                        }
                    }
                } else {
                    assert(r@ == r0);
                }
                assert forall|o: Order| #[trigger] r@.contains(o) <==> (t1.contains(o) && o.status@ == active_status()) by {
                    assert(t1.contains(o) <==> (t0.contains(o) || o == ix[k as int]));
                    assert(r0.contains(o) <==> (t0.contains(o) && o.status@ == active_status()));
                }
            }
            k = k + 1;
        }
        proof {
            assert(self.index@.take(k as int) =~= self.index@);
        }
        r
    }

    /// Every resting order, each once.
    pub fn all_orders(&self) -> (r: Vec<Order>)
        requires
            self.wf(),
        ensures
            ids_unique(r@),
            forall|o: Order| #[trigger] r@.contains(o) <==> self.resting(o),
    {
        let mut r: Vec<Order> = Vec::new();
        let mut k: usize = 0;
        while k < self.index.len()
            invariant
                k <= self.index@.len(),
                r@ == self.index@.take(k as int),
            decreases self.index@.len() - k,
        {
            r.push(copy_order(&self.index[k]));
            proof {
                assert(r@ =~= self.index@.take(k + 1));
            }
            k = k + 1;
        }
        proof {
            assert(r@ =~= self.index@);
        }
        r
    }
}

impl OrderBook {
    /// The identifiers the index knows.
    pub closed spec fn index_ids(&self) -> Set<Seq<char>> {
        Set::new(|id: Seq<char>| has_id(self.index@, id))
    }

    /// The identifiers of the orders resting on either side.
    pub open spec fn level_ids(&self) -> Set<Seq<char>> {
        Set::new(|id: Seq<char>| self.live_id(id))
    }
}

/// In every well-formed book, and so after any sequence of placing,
/// cancelling and matching, the index knows exactly the identifiers of the
/// orders resting on the two sides.
pub proof fn lemma_index_matches_levels(book: OrderBook)
    requires
        book.wf(),
    ensures
        book.index_ids() == book.level_ids(),
{
    assert forall|id: Seq<char>| book.index_ids().contains(id) <==> book.level_ids().contains(id) by {
        book.lemma_index_ids(id);
    }
    assert(book.index_ids() =~= book.level_ids());
}

/// In a well-formed book at most one resting order carries any identifier,
/// so what `get` returns is determined.
pub proof fn lemma_one_order_per_id(book: OrderBook, a: Order, b: Order)
    requires
        book.wf(),
        book.resting(a),
        book.resting(b),
        a.identifier@ == b.identifier@,
    ensures
        a == b,
{
    if book.bids@.contains(a) {
        let i = choose|i: int| 0 <= i < book.bids@.len() && book.bids@[i] == a;
        if book.bids@.contains(b) {
            let j = choose|j: int| 0 <= j < book.bids@.len() && book.bids@[j] == b;
            assert(i == j);
        } else {
            let j = choose|j: int| 0 <= j < book.asks@.len() && book.asks@[j] == b;
            book.lemma_sides_disjoint(i, j);
        }
    } else {
        let i = choose|i: int| 0 <= i < book.asks@.len() && book.asks@[i] == a;
        if book.asks@.contains(b) {
            let j = choose|j: int| 0 <= j < book.asks@.len() && book.asks@[j] == b;
            assert(i == j);
        } else {
            let j = choose|j: int| 0 <= j < book.bids@.len() && book.bids@[j] == b;
            book.lemma_sides_disjoint(j, i);
        }
    }
}

/// In a well-formed book each side's depth view lists its levels best first,
/// one line per price; every line stands for a non-empty FIFO queue, and its
/// total is the sum of the quantities in that queue.
pub proof fn lemma_book_depth(book: OrderBook, side: Side)
    requires
        book.wf(),
    ensures
        forall|k: int|
            0 <= k < depth_of(book.side_view(side)).len() ==> {
                &&& level_queue(book.side_view(side), (#[trigger] depth_of(book.side_view(side))[k]).0).len() > 0
                &&& depth_of(book.side_view(side))[k].1 == queue_total(
                    level_queue(book.side_view(side), depth_of(book.side_view(side))[k].0),
                )
            },
        forall|k1: int, k2: int|
            0 <= k1 < k2 < depth_of(book.side_view(side)).len() ==> (#[trigger] depth_of(
                book.side_view(side),
            )[k1]).0 != (#[trigger] depth_of(book.side_view(side))[k2]).0 && at_least_as_good(
                side,
                depth_of(book.side_view(side))[k1].0,
                depth_of(book.side_view(side))[k2].0,
            ),
{
    lemma_depth_exact(book.side_view(side), side);
    lemma_depth_levels_nonempty(book.side_view(side));
}

/// Once an identifier has been cancelled, no order carrying it rests, so a
/// second cancel of it returns false.
pub proof fn lemma_cancel_idempotent(before: OrderBook, after: OrderBook, id: Seq<char>)
    requires
        before.wf(),
        after.bids() == without(before.bids(), id),
        after.asks() == without(before.asks(), id),
    ensures
        !after.live_id(id),
{
    lemma_without_keeps_order(before.bids@, Side::Bid, id);
    lemma_without_keeps_order(before.asks@, Side::Ask, id);
}

/// Right after an order is placed, the one resting order carrying its
/// identifier is the placed order as stored: every field as given, status
/// "active". So a lookup of that identifier finds exactly that record.
pub proof fn lemma_place_then_get(before: OrderBook, after: OrderBook, order: Order, stored: Order)
    requires
        before.wf(),
        after.wf(),
        stamped_from(stored, order),
        after.side_view(order.side) == priority_insert(
            without(before.side_view(order.side), order.identifier@),
            stored,
        ),
    ensures
        after.live_id(order.identifier@),
        after.resting(stored),
        forall|o: Order| after.resting(o) && o.identifier@ == order.identifier@ ==> o == stored,
{
    let q = after.side_view(order.side);
    lemma_priority_insert_contains(without(before.side_view(order.side), order.identifier@), stored, stored);
    assert(q.contains(stored));
    let j = choose|j: int| 0 <= j < q.len() && q[j] == stored;
    assert(has_id(q, order.identifier@));
    assert forall|o: Order| after.resting(o) && o.identifier@ == order.identifier@ implies o == stored by {
        if after.bids@.contains(o) {
            let i = choose|i: int| 0 <= i < after.bids@.len() && after.bids@[i] == o;
            if order.side == Side::Ask {
                after.lemma_sides_disjoint(i, j);
            } else {
                assert(after.bids@[j] == stored);
            }
        } else {
            let i = choose|i: int| 0 <= i < after.asks@.len() && after.asks@[i] == o;
            if order.side == Side::Bid {
                after.lemma_sides_disjoint(j, i);
            } else {
                assert(after.asks@[j] == stored);
            }
        }
    }
}

} // verus!
