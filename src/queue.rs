//! One side of the book as a single queue in price-time priority.
//!
//! A side is a sequence of orders, best price first; orders at one price form
//! a contiguous run, the level's FIFO queue, earliest arrival first. A level
//! exists exactly when some order rests at its price, so no level is ever
//! empty.
use vstd::prelude::*;
use crate::order::{Order, Side, LevelDepth, at_least_as_good, price_at_least_as_good, copy_order};

verus! {

/// Some order of `s` carries identifier `id`.
pub open spec fn has_id(s: Seq<Order>, id: Seq<char>) -> bool {
    exists|j: int| 0 <= j < s.len() && (#[trigger] s[j]).identifier@ == id
}

/// No two positions of `s` carry the same identifier.
pub open spec fn ids_unique(s: Seq<Order>) -> bool {
    forall|i: int, j: int|
        0 <= i < s.len() && 0 <= j < s.len() && i != j ==> (#[trigger] s[i]).identifier@
            != (#[trigger] s[j]).identifier@
}

/// Every order of `s` is on `side`, and `s` runs from the best price to the worst.
pub open spec fn in_priority_order(s: Seq<Order>, side: Side) -> bool {
    &&& forall|i: int| 0 <= i < s.len() ==> (#[trigger] s[i]).side == side
    &&& forall|i: int, j: int|
        0 <= i < j < s.len() ==> at_least_as_good(
            side,
            (#[trigger] s[i]).price as int,
            (#[trigger] s[j]).price as int,
        )
}

/// `s` with the order carrying `id` taken out, the others in their order.
pub open spec fn without(s: Seq<Order>, id: Seq<char>) -> Seq<Order> {
    s.filter(|o: Order| o.identifier@ != id)
}

/// The FIFO queue of the level at `price`: the orders of `s` resting there, in order.
pub open spec fn level_queue(s: Seq<Order>, price: int) -> Seq<Order> {
    s.filter(|o: Order| o.price as int == price)
}

/// `s` with `o` filed behind every order whose price is at least as good.
pub open spec fn priority_insert(s: Seq<Order>, o: Order) -> Seq<Order>
    decreases s.len(),
{
    if s.len() == 0 {
        seq![o]
    } else if at_least_as_good(o.side, s.last().price as int, o.price as int) {
        s.push(o)
    } else {
        priority_insert(s.drop_last(), o).push(s.last())
    }
}

/// The depth view of a side: one (price, total quantity) per level, best first.
pub open spec fn depth_of(s: Seq<Order>) -> Seq<(int, int)>
    decreases s.len(),
{
    if s.len() == 0 {
        seq![]
    } else {
        let d = depth_of(s.drop_last());
        let o = s.last();
        if d.len() > 0 && d.last().0 == o.price as int {
            d.update(d.len() - 1, (o.price as int, d.last().1 + o.quantity as int))
        } else {
            d.push((o.price as int, o.quantity as int))
        }
    }
}

/// The best bid meets or beats the best ask.
pub open spec fn crosses(bids: Seq<Order>, asks: Seq<Order>) -> bool {
    bids.len() > 0 && asks.len() > 0 && bids[0].price >= asks[0].price
}

/// How many head-to-head pairings a matching pass makes: it pairs the heads
/// of both sides for as long as they cross.
pub open spec fn cross_count(bids: Seq<Order>, asks: Seq<Order>) -> nat
    decreases bids.len(),
{
    if crosses(bids, asks) {
        1 + cross_count(bids.drop_first(), asks.drop_first())
    } else {
        0
    }
}

proof fn lemma_without_absent(s: Seq<Order>, id: Seq<char>)
    requires
        !has_id(s, id),
    ensures
        without(s, id) == s,
    decreases s.len(),
{
    reveal(Seq::filter);
    if s.len() > 0 {
        assert(s.last() == s[s.len() - 1]);
        assert(!has_id(s.drop_last(), id)) by {
            if has_id(s.drop_last(), id) {
                let j = choose|j: int|
                    0 <= j < s.drop_last().len() && (#[trigger] s.drop_last()[j]).identifier@ == id;
                assert(s[j] == s.drop_last()[j]);
            }
        }
        lemma_without_absent(s.drop_last(), id);
        assert(s.last().identifier@ != id);
        assert(without(s, id) == without(s.drop_last(), id).push(s.last()));
        assert(s.drop_last().push(s.last()) =~= s);
    }
}

/// Taking out an identifier held at one position is removing that position.
pub proof fn lemma_without_at(s: Seq<Order>, j: int)
    requires
        ids_unique(s),
        0 <= j < s.len(),
    ensures
        without(s, s[j].identifier@) == s.remove(j),
    decreases s.len(),
{
    reveal(Seq::filter);
    let id = s[j].identifier@;
    let last = s.len() - 1;
    assert(s.last() == s[last]);
    if j == last {
        assert(!has_id(s.drop_last(), id)) by {
            if has_id(s.drop_last(), id) {
                let i = choose|i: int|
                    0 <= i < s.drop_last().len() && (#[trigger] s.drop_last()[i]).identifier@ == id;
                assert(s[i] == s.drop_last()[i]);
            }
        }
        lemma_without_absent(s.drop_last(), id);
        assert(without(s, id) == without(s.drop_last(), id));
        assert(s.drop_last() =~= s.remove(j));
    } else {
        let d = s.drop_last();
        assert(ids_unique(d)) by {
            assert forall|a: int, b: int|
                0 <= a < d.len() && 0 <= b < d.len() && a != b implies (#[trigger] d[a]).identifier@
                    != (#[trigger] d[b]).identifier@ by {
                assert(d[a] == s[a] && d[b] == s[b]);
            }
        }
        assert(d[j] == s[j]);
        lemma_without_at(d, j);
        assert(s[last].identifier@ != id);
        assert(without(s, id) == without(d, id).push(s.last()));
        assert(d.remove(j).push(s.last()) =~= s.remove(j));
    }
}

/// Removing a position keeps the identifiers distinct.
pub proof fn lemma_unique_remove(s: Seq<Order>, j: int)
    requires
        ids_unique(s),
        0 <= j < s.len(),
    ensures
        ids_unique(s.remove(j)),
{
    let r = s.remove(j);
    assert forall|a: int, b: int|
        0 <= a < r.len() && 0 <= b < r.len() && a != b implies (#[trigger] r[a]).identifier@
            != (#[trigger] r[b]).identifier@ by {
        let sa = if a < j { a } else { a + 1 };
        let sb = if b < j { b } else { b + 1 };
        assert(r[a] == s[sa] && r[b] == s[sb]);
    }
}

/// What `without` keeps: exactly the orders with another identifier.
pub proof fn lemma_without_contains(s: Seq<Order>, id: Seq<char>, o: Order)
    ensures
        without(s, id).contains(o) <==> (s.contains(o) && o.identifier@ != id),
    decreases s.len(),
{
    reveal(Seq::filter);
    if s.len() > 0 {
        let d = s.drop_last();
        lemma_without_contains(d, id, o);
        assert(s == d.push(s.last()));
        assert(s.contains(o) <==> (d.contains(o) || o == s.last())) by {
            if s.contains(o) && o != s.last() {
                let i = choose|i: int| 0 <= i < s.len() && s[i] == o;
                assert(d[i] == o);
            }
            if d.contains(o) {
                let i = choose|i: int| 0 <= i < d.len() && d[i] == o;
                assert(s[i] == o);
            }
            if o == s.last() {
                assert(s[s.len() - 1] == o);
            }
        }
        let w = without(d, id);
        if s.last().identifier@ != id {
            assert(without(s, id) == w.push(s.last()));
            assert(w.push(s.last()).contains(o) <==> (w.contains(o) || o == s.last())) by {
                let wp = w.push(s.last());
                if wp.contains(o) && o != s.last() {
                    let i = choose|i: int| 0 <= i < wp.len() && wp[i] == o;
                    assert(w[i] == o);
                }
                if w.contains(o) {
                    let i = choose|i: int| 0 <= i < w.len() && w[i] == o;
                    assert(wp[i] == o);
                }
                if o == s.last() {
                    assert(wp[wp.len() - 1] == o);
                }
            }
        } else {
            assert(without(s, id) == w);
        }
    }
}

/// Taking out an identifier keeps the others distinct and leaves none carrying it.
pub proof fn lemma_without_unique(s: Seq<Order>, id: Seq<char>)
    requires
        ids_unique(s),
    ensures
        ids_unique(without(s, id)),
        !has_id(without(s, id), id),
        !has_id(s, id) ==> without(s, id) == s,
{
    if has_id(s, id) {
        let j = choose|j: int| 0 <= j < s.len() && (#[trigger] s[j]).identifier@ == id;
        lemma_without_at(s, j);
        lemma_unique_remove(s, j);
        let r = s.remove(j);
        if has_id(r, id) {
            let a = choose|a: int| 0 <= a < r.len() && (#[trigger] r[a]).identifier@ == id;
            let sa = if a < j { a } else { a + 1 };
            assert(r[a] == s[sa]);
        }
    } else {
        lemma_without_absent(s, id);
    }
}

/// Taking out an identifier keeps a side in priority order and its identifiers distinct.
pub proof fn lemma_without_keeps_order(s: Seq<Order>, side: Side, id: Seq<char>)
    requires
        ids_unique(s),
        in_priority_order(s, side),
    ensures
        ids_unique(without(s, id)),
        in_priority_order(without(s, id), side),
        !has_id(without(s, id), id),
        has_id(s, id) ==> without(s, id).len() == s.len() - 1,
        !has_id(s, id) ==> without(s, id) == s,
{
    if has_id(s, id) {
        let j = choose|j: int| 0 <= j < s.len() && (#[trigger] s[j]).identifier@ == id;
        lemma_without_at(s, j);
        lemma_unique_remove(s, j);
        let r = s.remove(j);
        assert forall|a: int, b: int| 0 <= a < b < r.len() implies at_least_as_good(
            side,
            (#[trigger] r[a]).price as int,
            (#[trigger] r[b]).price as int,
        ) by {
            let sa = if a < j { a } else { a + 1 };
            let sb = if b < j { b } else { b + 1 };
            assert(r[a] == s[sa] && r[b] == s[sb]);
        }
        assert forall|a: int| 0 <= a < r.len() implies (#[trigger] r[a]).side == side by {
            let sa = if a < j { a } else { a + 1 };
            assert(r[a] == s[sa]);
        }
        if has_id(r, id) {
            let a = choose|a: int| 0 <= a < r.len() && (#[trigger] r[a]).identifier@ == id;
            let sa = if a < j { a } else { a + 1 };
            assert(r[a] == s[sa]);
        }
    } else {
        lemma_without_absent(s, id);
    }
}

/// An inserted order rests in the result alongside every order that was there.
pub proof fn lemma_priority_insert_contains(s: Seq<Order>, o: Order, x: Order)
    ensures
        priority_insert(s, o).contains(x) <==> (s.contains(x) || x == o),
    decreases s.len(),
{
    if s.len() == 0 {
        assert(priority_insert(s, o)[0] == o);
    } else {
        let d = s.drop_last();
        assert(s == d.push(s.last()));
        assert(s.contains(x) <==> (d.contains(x) || x == s.last())) by {
            lemma_push_contains(d, s.last(), x);
        }
        if at_least_as_good(o.side, s.last().price as int, o.price as int) {
            lemma_push_contains(s, o, x);
        } else {
            lemma_priority_insert_contains(d, o, x);
            lemma_push_contains(priority_insert(d, o), s.last(), x);
        }
    }
}

proof fn lemma_push_contains(s: Seq<Order>, a: Order, x: Order)
    ensures
        s.push(a).contains(x) <==> (s.contains(x) || x == a),
{
    let t = s.push(a);
    if t.contains(x) && x != a {
        let i = choose|i: int| 0 <= i < t.len() && t[i] == x;
        assert(s[i] == x);
    }
    if s.contains(x) {
        let i = choose|i: int| 0 <= i < s.len() && s[i] == x;
        assert(t[i] == x);
    }
    if x == a {
        assert(t[s.len() as int] == x);
    }
}

/// A placed order joins the tail of its own level's queue; the queues of
/// all other levels are unchanged.
pub proof fn lemma_place_joins_level_tail(s: Seq<Order>, o: Order, price: int)
    ensures
        level_queue(priority_insert(s, o), price) == if price == o.price as int {
            level_queue(s, price).push(o)
        } else {
            level_queue(s, price)
        },
    decreases s.len(),
{
    reveal(Seq::filter);
    if s.len() == 0 {
        assert(seq![o].drop_last() =~= Seq::<Order>::empty());
        assert(seq![o].last() == o);
        assert(level_queue(Seq::<Order>::empty(), price) == Seq::<Order>::empty());
        assert(level_queue(s, price) == Seq::<Order>::empty());
        if price == o.price as int {
            assert(level_queue(seq![o], price) == Seq::<Order>::empty().push(o));
        } else {
            assert(level_queue(seq![o], price) == Seq::<Order>::empty());
        }
    } else {
        let d = s.drop_last();
        let x = s.last();
        if at_least_as_good(o.side, x.price as int, o.price as int) {
            assert(s.push(o).drop_last() =~= s);
            assert(s.push(o).last() == o);
        } else {
            lemma_place_joins_level_tail(d, o, price);
            let p = priority_insert(d, o);
            assert(p.push(x).drop_last() =~= p);
            assert(p.push(x).last() == x);
            assert(x.price != o.price);
            assert(priority_insert(s, o) == p.push(x));
            if x.price as int == price {
                assert(level_queue(p.push(x), price) == level_queue(p, price).push(x));
                assert(level_queue(s, price) == level_queue(d, price).push(x));
            } else {
                assert(level_queue(p.push(x), price) == level_queue(p, price));
                assert(level_queue(s, price) == level_queue(d, price));
            }
        }
    }
}

/// Cancelling leaves every level's queue in its order, less the cancelled order.
pub proof fn lemma_cancel_keeps_level_order(s: Seq<Order>, id: Seq<char>, price: int)
    ensures
        level_queue(without(s, id), price) == without(level_queue(s, price), id),
    decreases s.len(),
{
    reveal(Seq::filter);
    if s.len() > 0 {
        let d = s.drop_last();
        lemma_cancel_keeps_level_order(d, id, price);
        let x = s.last();
        let wd = without(d, id);
        let ld = level_queue(d, price);
        if x.identifier@ != id {
            assert(wd.push(x).drop_last() =~= wd);
        }
        if x.price as int == price {
            assert(ld.push(x).drop_last() =~= ld);
        }
    }
}

/// A matching pass that takes the first `m` orders of a side takes a prefix of
/// each level's queue and leaves the rest of it in order.
pub proof fn lemma_matching_takes_level_heads(s: Seq<Order>, m: int, price: int)
    requires
        0 <= m <= s.len(),
    ensures
        level_queue(s, price) == level_queue(s.take(m), price) + level_queue(s.skip(m), price),
{
    assert(s == s.take(m) + s.skip(m));
    Seq::filter_distributes_over_add(s.take(m), s.skip(m), |o: Order| o.price as int == price);
}

/// Every line of a depth view stands for a level with at least one resting order.
pub proof fn lemma_depth_levels_nonempty(s: Seq<Order>)
    ensures
        forall|k: int|
            0 <= k < depth_of(s).len() ==> level_queue(s, (#[trigger] depth_of(s)[k]).0).len() > 0,
    decreases s.len(),
{
    reveal(Seq::filter);
    if s.len() > 0 {
        let d = s.drop_last();
        let x = s.last();
        lemma_depth_levels_nonempty(d);
        assert forall|k: int|
            0 <= k < depth_of(s).len() implies level_queue(s, (#[trigger] depth_of(s)[k]).0).len() > 0 by {
            let dd = depth_of(d);
            let p = depth_of(s)[k].0;
            if p == x.price as int {
                assert(level_queue(s, p) == level_queue(d, p).push(x));
            } else {
                assert(k < dd.len() && dd[k].0 == p);
                assert(level_queue(d, p).len() > 0);
                assert(level_queue(s, p) == level_queue(d, p));
            }
        }
    }
}

/// The total quantity of a queue.
pub open spec fn queue_total(q: Seq<Order>) -> int
    decreases q.len(),
{
    if q.len() == 0 {
        0
    } else {
        queue_total(q.drop_last()) + q.last().quantity
    }
}

proof fn lemma_depth_last(s: Seq<Order>)
    requires
        s.len() > 0,
    ensures
        depth_of(s).len() > 0,
        depth_of(s).last().0 == s.last().price as int,
{
}

/// On a side in priority order, the depth view has one line per level, each
/// strictly better than the next, and each line's total is the sum of the
/// quantities in that level's queue.
pub proof fn lemma_depth_exact(s: Seq<Order>, side: Side)
    requires
        in_priority_order(s, side),
    ensures
        forall|k: int|
            0 <= k < depth_of(s).len() ==> (#[trigger] depth_of(s)[k]).1 == queue_total(
                level_queue(s, depth_of(s)[k].0),
            ),
        forall|k1: int, k2: int|
            0 <= k1 < k2 < depth_of(s).len() ==> (#[trigger] depth_of(s)[k1]).0 != (#[trigger] depth_of(
                s,
            )[k2]).0 && at_least_as_good(side, depth_of(s)[k1].0, depth_of(s)[k2].0),
    decreases s.len(),
{
    reveal(Seq::filter);
    if s.len() > 0 {
        let d = s.drop_last();
        let x = s.last();
        let dd = depth_of(d);
        let ds = depth_of(s);
        assert(in_priority_order(d, side)) by {
            assert forall|i: int, j: int| 0 <= i < j < d.len() implies at_least_as_good(
                side,
                (#[trigger] d[i]).price as int,
                (#[trigger] d[j]).price as int,
            ) by {
                assert(d[i] == s[i] && d[j] == s[j]);
            }
            assert forall|i: int| 0 <= i < d.len() implies (#[trigger] d[i]).side == side by {
                assert(d[i] == s[i]);
            }
        }
        lemma_depth_exact(d, side);
        if d.len() > 0 {
            lemma_depth_last(d);
            assert(d.last() == s[s.len() - 2]);
            assert(at_least_as_good(side, s[s.len() - 2].price as int, s[s.len() - 1].price as int));
        }
        let merged = dd.len() > 0 && dd.last().0 == x.price as int;
        assert forall|k: int| 0 <= k < ds.len() implies (#[trigger] ds[k]).1 == queue_total(
            level_queue(s, ds[k].0),
        ) by {
            let p = ds[k].0;
            if p == x.price as int {
                let lq = level_queue(d, p);
                assert(level_queue(s, p) == lq.push(x));
                assert(lq.push(x).drop_last() =~= lq);
                assert(queue_total(lq.push(x)) == queue_total(lq) + x.quantity);
                if merged {
                    assert(k == dd.len() - 1) by {
                        if k < dd.len() - 1 {
                            assert(dd[k].0 != dd[dd.len() - 1].0);
                        }
                    }
                } else {
                    assert(k == dd.len());
                    // no earlier order rests at this price
                    assert(lq.len() == 0) by {
                        if lq.len() > 0 {
                            let pred = |o: Order| o.price as int == p;
                            d.filter_lemma(pred);
                            let o = lq[0];
                            assert(lq.contains(o));
                            d.lemma_filter_contains_rev(pred, o);
                            let j = choose|j: int| 0 <= j < d.len() && d[j] == o;
                            assert(o.price as int == p);
                            if j < d.len() - 1 {
                                assert(d[j] == s[j]);
                                assert(d.last() == s[d.len() - 1]);
                                assert(at_least_as_good(side, s[j].price as int, s[d.len() - 1].price as int));
                                assert(at_least_as_good(side, s[d.len() - 1].price as int, x.price as int));
                            }
                            assert(d.last().price as int == p);
                        }
                    }
                    assert(lq =~= Seq::<Order>::empty());
                }
            } else {
                assert(level_queue(s, p) == level_queue(d, p));
                assert(k < dd.len() && dd[k] == ds[k]);
            }
        }
    }
}

/// Finds the position of the order carrying `id`.
pub fn find_id(s: &Vec<Order>, id: &String) -> (r: Option<usize>)
    ensures
        match r {
            Some(j) => j < s@.len() && s@[j as int].identifier@ == id@,
            None => !has_id(s@, id@),
        },
{
    let mut j: usize = 0;
    while j < s.len()
        invariant
            j <= s@.len(),
            forall|i: int| 0 <= i < j ==> (#[trigger] s@[i]).identifier@ != id@,
        decreases s@.len() - j,
    {
        if s[j].identifier == *id {
            return Some(j);
        }
        j = j + 1;
    }
    None
}

/// Takes the order carrying `id` out of `s`; tells whether there was one.
pub fn remove_id(s: &mut Vec<Order>, id: &String) -> (r: Option<Order>)
    requires
        ids_unique(old(s)@),
    ensures
        final(s)@ == without(old(s)@, id@),
        ids_unique(final(s)@),
        match r {
            Some(o) => old(s)@.contains(o) && o.identifier@ == id@,
            None => !has_id(old(s)@, id@),
        },
{
    match find_id(s, id) {
        Some(j) => {
            proof {
                lemma_without_at(s@, j as int);
                lemma_unique_remove(s@, j as int);
            }
            let o = s.remove(j);
            Some(o)
        },
        None => {
            proof {
                lemma_without_absent(s@, id@);
            }
            None
        },
    }
}

/// Files `o` behind every order of `s` whose price is at least as good.
pub fn insert_by_priority(s: &mut Vec<Order>, o: Order)
    requires
        in_priority_order(old(s)@, o.side),
        ids_unique(old(s)@),
        !has_id(old(s)@, o.identifier@),
    ensures
        final(s)@ == priority_insert(old(s)@, o),
        in_priority_order(final(s)@, o.side),
        ids_unique(final(s)@),
        forall|x: Order| #[trigger] final(s)@.contains(x) <==> (old(s)@.contains(x) || x == o),
{
    let ghost s0 = s@;
    let mut i: usize = s.len();
    proof {
        assert(s0.take(i as int) =~= s0);
        assert(priority_insert(s0, o) + s0.skip(i as int) =~= priority_insert(s0, o));
    }
    while i > 0 && !price_at_least_as_good(o.side, s[i - 1].price, o.price)
        invariant
            s@ == s0,
            i <= s0.len(),
            priority_insert(s0, o) == priority_insert(s0.take(i as int), o) + s0.skip(i as int),
            forall|j: int|
                i <= j < s0.len() ==> !at_least_as_good(
                    o.side,
                    (#[trigger] s0[j]).price as int,
                    o.price as int,
                ),
        decreases i,
    {
        proof {
            let t = s0.take(i as int);
            assert(t.drop_last() =~= s0.take(i - 1));
            assert(t.last() == s0[i - 1]);
            assert(priority_insert(t, o) == priority_insert(s0.take(i - 1), o).push(s0[i - 1]));
            assert(priority_insert(s0.take(i - 1), o).push(s0[i - 1]) + s0.skip(i as int)
                =~= priority_insert(s0.take(i - 1), o) + s0.skip(i - 1));
        }
        i = i - 1;
    }
    proof {
        let t = s0.take(i as int);
        if i > 0 {
            assert(t.last() == s0[i - 1]);
        }
        assert(priority_insert(t, o) == t.push(o));
        assert(t.push(o) + s0.skip(i as int) =~= s0.insert(i as int, o));
    }
    s.insert(i, o);
    proof {
        let r = s@;
        assert(r == s0.insert(i as int, o));
        assert forall|a: int, b: int| 0 <= a < b < r.len() implies at_least_as_good(
            o.side,
            (#[trigger] r[a]).price as int,
            (#[trigger] r[b]).price as int,
        ) by {
            if i > 0 && a < i {
                assert(at_least_as_good(o.side, s0[i - 1].price as int, o.price as int));
                assert(r[a] == s0[a]);
                if a < i - 1 {
                    assert(at_least_as_good(o.side, s0[a].price as int, s0[i - 1].price as int));
                }
            }
        }
        assert forall|a: int| 0 <= a < r.len() implies (#[trigger] r[a]).side == o.side by {
            if a < i {
                assert(r[a] == s0[a]);
            } else if a > i {
                assert(r[a] == s0[a - 1]);
            }
        }
        assert forall|a: int, b: int|
            0 <= a < r.len() && 0 <= b < r.len() && a != b implies (#[trigger] r[a]).identifier@
                != (#[trigger] r[b]).identifier@ by {
            let sa = if a < i { a } else { a - 1 };
            let sb = if b < i { b } else { b - 1 };
            if a != i {
                assert(r[a] == s0[sa]);
            }
            if b != i {
                assert(r[b] == s0[sb]);
            }
        }
        assert forall|x: Order| #[trigger] r.contains(x) <==> (s0.contains(x) || x == o) by {
            if r.contains(x) {
                let a = choose|a: int| 0 <= a < r.len() && r[a] == x;
                if a < i {
                    assert(s0[a] == x);
                } else if a > i {
                    assert(s0[a - 1] == x);
                }
            }
            if s0.contains(x) {
                let a = choose|a: int| 0 <= a < s0.len() && s0[a] == x;
                if a < i {
                    assert(r[a] == x);
                } else {
                    assert(r[a + 1] == x);
                }
            }
            if x == o {
                assert(r[i as int] == x);
            }
        }
    }
}

/// Sums each run of equal prices of `s` into one depth line.
pub fn depth(s: &Vec<Order>) -> (r: Vec<LevelDepth>)
    ensures
        r@.len() == depth_of(s@).len(),
        forall|k: int| 0 <= k < r@.len() ==> (#[trigger] r@[k])@ == depth_of(s@)[k],
{
    let mut r: Vec<LevelDepth> = Vec::new();
    let mut i: usize = 0;
    while i < s.len()
        invariant
            i <= s@.len(),
            r@.len() == depth_of(s@.take(i as int)).len(),
            forall|k: int| 0 <= k < r@.len() ==> (#[trigger] r@[k])@ == depth_of(s@.take(i as int))[k],
            forall|k: int|
                0 <= k < r@.len() ==> (#[trigger] r@[k]).total <= i * 0xffff_ffff_ffff_ffffu64,
        decreases s@.len() - i,
    {
        let ghost t = s@.take(i as int + 1);
        proof {
            assert(t.drop_last() =~= s@.take(i as int));
            assert(t.last() == s@[i as int]);
        }
        let price = s[i].price;
        let quantity = s[i].quantity;
        let n = r.len();
        if n > 0 && r[n - 1].price == price {
            let last = r[n - 1];
            proof {
                assert(last.total + quantity <= (i + 1) * 0xffff_ffff_ffff_ffffu64) by (nonlinear_arith)
                    requires
                        last.total <= i * 0xffff_ffff_ffff_ffffu64,
                        quantity <= 0xffff_ffff_ffff_ffffu64,
                ;
                assert(i <= u64::MAX);
                assert((i + 1) * 0xffff_ffff_ffff_ffffu64 <= u128::MAX) by (nonlinear_arith)
                    requires
                        i <= u64::MAX,
                ;
            }
            r.set(n - 1, LevelDepth { price, total: last.total + quantity as u128 });
        } else {
            r.push(LevelDepth { price, total: quantity as u128 });
        }
        proof {
            assert forall|k: int| 0 <= k < r@.len() implies (#[trigger] r@[k]).total <= (i + 1)
                * 0xffff_ffff_ffff_ffffu64 by {
                if k < n as int && !(k == n - 1 && r@.len() == n) {
                    assert(r@[k].total <= i * 0xffff_ffff_ffff_ffffu64);
                    assert(i * 0xffff_ffff_ffff_ffffu64 <= (i + 1) * 0xffff_ffff_ffff_ffffu64)
                        by (nonlinear_arith);
                } else {
                    assert(quantity <= (i + 1) * 0xffff_ffff_ffff_ffffu64) by (nonlinear_arith)
                        requires
                            quantity <= 0xffff_ffff_ffff_ffffu64,
                    ;
                }
            }
        }
        i = i + 1;
    }
    proof {
        assert(s@.take(s@.len() as int) =~= s@);
    }
    r
}

} // verus!
