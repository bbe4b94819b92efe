use vstd::prelude::*;

use crate::orderbook::{add_resting, fill, flatten, lemma_queue_at_absent, queue_at, side_wf, LevelView, OrderBook};
use crate::{ranks_before, Order, Side, Trade};

verus! {

/// Total quantity of a sequence of trades.
pub open spec fn traded_quantity(trades: Seq<Trade>) -> nat
    decreases trades.len(),
{
    if trades.len() == 0 {
        0
    } else {
        trades[0].quantity as nat + traded_quantity(trades.drop_first())
    }
}

/// Number of resting orders on a book side that an order at `price` queues behind:
/// every order of a level that ranks ahead of `price` or stands at it.
pub open spec fn orders_ahead(levels: Seq<LevelView>, side: Side, price: u64) -> nat
    decreases levels.len(),
{
    if levels.len() == 0 || ranks_before(side, price, levels[0].0) {
        0
    } else {
        levels[0].1.len() + orders_ahead(levels.drop_first(), side, price)
    }
}

proof fn lemma_wf_tail(levels: Seq<LevelView>, side: Side)
    requires
        side_wf(levels, side),
        levels.len() > 0,
    ensures
        side_wf(levels.drop_first(), side),
{
    let tail = levels.drop_first();
    assert forall|a: int, b: int| 0 <= a < b < tail.len() implies ranks_before(side, #[trigger] tail[a].0, #[trigger] tail[b].0) by {
        assert(tail[a] == levels[a + 1] && tail[b] == levels[b + 1]);
    }
    assert forall|a: int| 0 <= a < tail.len() implies (#[trigger] tail[a]).1.len() > 0 by {
        assert(tail[a] == levels[a + 1]);
    }
    assert forall|a: int, k: int| 0 <= a < tail.len() && 0 <= k < tail[a].1.len() implies {
        &&& (#[trigger] tail[a].1[k]).price == tail[a].0
        &&& tail[a].1[k].quantity > 0
    } by {
        assert(tail[a] == levels[a + 1]);
    }
}

/// Every order of a well-formed side ranks behind `p` when every level does.
proof fn lemma_flatten_behind(levels: Seq<LevelView>, side: Side, p: u64)
    requires
        side_wf(levels, side),
        forall|i: int| 0 <= i < levels.len() ==> ranks_before(side, p, #[trigger] levels[i].0),
    ensures
        forall|k: int| 0 <= k < flatten(levels).len() ==> ranks_before(side, p, (#[trigger] flatten(levels)[k]).price),
    decreases levels.len(),
{
    if levels.len() > 0 {
        let tail = levels.drop_first();
        lemma_wf_tail(levels, side);
        assert forall|i: int| 0 <= i < tail.len() implies ranks_before(side, p, #[trigger] tail[i].0) by {
            assert(tail[i] == levels[i + 1]);
        }
        lemma_flatten_behind(tail, side, p);
        let f = flatten(levels);
        assert(f == levels[0].1 + flatten(tail));
        assert forall|k: int| 0 <= k < f.len() implies ranks_before(side, p, (#[trigger] f[k]).price) by {
            if k < levels[0].1.len() {
                assert(f[k] == levels[0].1[k]);
            } else {
                assert(f[k] == flatten(tail)[k - levels[0].1.len()]);
            }
        }
    }
}

/// The orders of a well-formed side, in matching order, never get better in price.
proof fn lemma_flatten_sorted(levels: Seq<LevelView>, side: Side)
    requires
        side_wf(levels, side),
    ensures
        forall|i: int, j: int|
            0 <= i < j < flatten(levels).len() ==> !ranks_before(
                side,
                (#[trigger] flatten(levels)[j]).price,
                (#[trigger] flatten(levels)[i]).price,
            ),
    decreases levels.len(),
{
    if levels.len() > 0 {
        let tail = levels.drop_first();
        lemma_wf_tail(levels, side);
        lemma_flatten_sorted(tail, side);
        assert forall|i: int| 0 <= i < tail.len() implies ranks_before(side, levels[0].0, #[trigger] tail[i].0) by {
            assert(tail[i] == levels[i + 1]);
        }
        lemma_flatten_behind(tail, side, levels[0].0);
        let f = flatten(levels);
        let n = levels[0].1.len() as int;
        let ft = flatten(tail);
        assert(f == levels[0].1 + ft);
        assert forall|i: int, j: int| 0 <= i < j < f.len() implies !ranks_before(side, (#[trigger] f[j]).price, (#[trigger] f[i]).price) by {
            if j < n {
                assert(f[i] == levels[0].1[i] && f[j] == levels[0].1[j]);
            } else if i < n {
                assert(f[i] == levels[0].1[i] && f[j] == ft[j - n]);
            } else {
                assert(f[i] == ft[i - n] && f[j] == ft[j - n]);
            }
        }
    }
}

/// Shape of a match: trades are made with the first orders of the queue, in queue order,
/// each at a crossing price; what stays is the rest of the queue, its front possibly
/// reduced; nothing is created or lost.
proof fn lemma_fill_shape(queue: Seq<Order>, taker: Side, limit: u64, qty: nat, taker_id: u64)
    ensures
        ({
            let (t, r, l) = fill(queue, taker, limit, qty, taker_id);
            &&& t.len() <= queue.len()
            &&& r.len() <= queue.len()
            &&& t.len() + r.len() >= queue.len()
            &&& t.len() + r.len() <= queue.len() + 1
            &&& forall|i: int| 0 <= i < t.len() ==> {
                &&& (#[trigger] t[i]).price == queue[i].price
                &&& t[i].maker_id == queue[i].id
                &&& t[i].taker_id == taker_id
                &&& crate::orderbook::crosses(taker, limit, t[i].price)
            }
            &&& forall|k: int| 0 <= k < r.len() ==> {
                &&& (#[trigger] r[k]).price == queue[queue.len() - r.len() + k].price
                &&& r[k].id == queue[queue.len() - r.len() + k].id
            }
            &&& traded_quantity(t) + l == qty
        }),
    decreases queue.len(),
{
    if qty == 0 || queue.len() == 0 || !crate::orderbook::crosses(taker, limit, queue[0].price) {
    } else {
        let o = queue[0];
        if qty < o.quantity {
            let (t, r, l) = fill(queue, taker, limit, qty, taker_id);
            assert(traded_quantity(t.drop_first()) == 0);
        } else {
            let q1 = queue.drop_first();
            lemma_fill_shape(q1, taker, limit, (qty - o.quantity) as nat, taker_id);
            let (t, r, l) = fill(queue, taker, limit, qty, taker_id);
            let (t1, r1, l1) = fill(q1, taker, limit, (qty - o.quantity) as nat, taker_id);
            assert(t.drop_first() =~= t1);
            assert forall|i: int| 0 <= i < t.len() implies {
                &&& (#[trigger] t[i]).price == queue[i].price
                &&& t[i].maker_id == queue[i].id
                &&& t[i].taker_id == taker_id
                &&& crate::orderbook::crosses(taker, limit, t[i].price)
            } by {
                if i > 0 {
                    assert(t[i] == t1[i - 1] && q1[i - 1] == queue[i]);
                }
            }
            assert forall|k: int| 0 <= k < r.len() implies {
                &&& (#[trigger] r[k]).price == queue[queue.len() - r.len() + k].price
                &&& r[k].id == queue[queue.len() - r.len() + k].id
            } by {
                assert(q1[q1.len() - r1.len() + k] == queue[queue.len() - r.len() + k]);
            }
        }
    }
}

/// Price priority: an incoming order trades at the best opposite prices first. Its trades
/// come in matching order, each at a price at least as good as the next, and no order
/// left on the opposite side offers a better price than any of them.
pub proof fn lemma_price_priority(book: OrderBook, side: Side, price: u64, quantity: u64, id: u64)
    requires
        book.wf(),
    ensures
        ({
            let opp = side.opposite();
            let (t, r, l) = fill(book.queue(opp), side, price, quantity as nat, id);
            &&& forall|i: int, j: int|
                0 <= i < j < t.len() ==> !ranks_before(opp, (#[trigger] t[j]).price, (#[trigger] t[i]).price)
            &&& forall|i: int, k: int|
                0 <= i < t.len() && 0 <= k < r.len() ==> !ranks_before(opp, (#[trigger] r[k]).price, (#[trigger] t[i]).price)
        }),
{
    let opp = side.opposite();
    let q = book.queue(opp);
    lemma_flatten_sorted(book.levels(opp), opp);
    lemma_fill_shape(q, side, price, quantity as nat, id);
    let (t, r, l) = fill(q, side, price, quantity as nat, id);
    assert forall|i: int, j: int| 0 <= i < j < t.len() implies !ranks_before(opp, (#[trigger] t[j]).price, (#[trigger] t[i]).price) by {
        assert(t[i].price == q[i].price && t[j].price == q[j].price);
    }
    assert forall|i: int, k: int| 0 <= i < t.len() && 0 <= k < r.len() implies !ranks_before(opp, (#[trigger] r[k]).price, (#[trigger] t[i]).price) by {
        let m = q.len() - r.len() + k;
        assert(t[i].price == q[i].price && r[k].price == q[m].price);
        if i < m {
            assert(!ranks_before(opp, q[m].price, q[i].price));
        }
    }
}

/// Time priority, matching half: the makers of an incoming order's trades are the first
/// orders of the opposite side's queue, in queue order, so that among orders at one price
/// the one queued first is filled first.
pub proof fn lemma_makers_in_queue_order(book: OrderBook, side: Side, price: u64, quantity: u64, id: u64)
    requires
        book.wf(),
    ensures
        ({
            let q = book.queue(side.opposite());
            let (t, r, l) = fill(q, side, price, quantity as nat, id);
            &&& t.len() <= q.len()
            &&& forall|i: int| 0 <= i < t.len() ==> (#[trigger] t[i]).maker_id == q[i].id && t[i].price == q[i].price
        }),
{
    lemma_fill_shape(book.queue(side.opposite()), side, price, quantity as nat, id);
}

/// Time priority, queueing half: an order that comes to rest joins the queue of its side
/// behind every order at its own or a better price, and ahead of every order at a worse one.
pub proof fn lemma_rests_behind_equal_price(levels: Seq<LevelView>, side: Side, o: Order)
    requires
        side_wf(levels, side),
    ensures
        ({
            let q = flatten(levels);
            let n = orders_ahead(levels, side, o.price) as int;
            &&& n <= q.len()
            &&& flatten(add_resting(levels, side, o)) == q.take(n) + seq![o] + q.skip(n)
            &&& forall|k: int| 0 <= k < n ==> !ranks_before(side, o.price, (#[trigger] q[k]).price)
            &&& forall|k: int| n <= k < q.len() ==> ranks_before(side, o.price, (#[trigger] q[k]).price)
        }),
    decreases levels.len(),
{
    let q = flatten(levels);
    if levels.len() == 0 {
        let single = seq![(o.price, seq![o])];
        assert(single.drop_first() =~= Seq::<LevelView>::empty());
        assert(flatten(single.drop_first()) == Seq::<Order>::empty());
        assert(flatten(single) == single[0].1 + flatten(single.drop_first()));
        assert(flatten(single) =~= seq![o]);
        assert(q.take(0) + seq![o] + q.skip(0) =~= seq![o]);
    } else {
        let tail = levels.drop_first();
        let l0 = levels[0].1;
        let n0 = l0.len() as int;
        let ft = flatten(tail);
        assert(q == l0 + ft);
        lemma_wf_tail(levels, side);
        assert forall|i: int| 0 <= i < tail.len() implies ranks_before(side, levels[0].0, #[trigger] tail[i].0) by {
            assert(tail[i] == levels[i + 1]);
        }
        lemma_flatten_behind(tail, side, levels[0].0);
        if levels[0].0 == o.price {
            let nl = levels.update(0, (o.price, l0.push(o)));
            assert(nl.drop_first() =~= tail);
            assert(flatten(nl) == l0.push(o) + ft);
            if tail.len() > 0 {
                assert(ranks_before(side, o.price, tail[0].0));
            }
            assert(orders_ahead(tail, side, o.price) == 0);
            assert(!ranks_before(side, o.price, levels[0].0));
            assert(orders_ahead(levels, side, o.price) == n0);
            assert(q.take(n0) =~= l0);
            assert(q.skip(n0) =~= ft);
            assert(l0.push(o) + ft =~= l0 + seq![o] + ft);
            assert forall|k: int| 0 <= k < n0 implies !ranks_before(side, o.price, (#[trigger] q[k]).price) by {
                assert(q[k] == l0[k]);
            }
            assert forall|k: int| n0 <= k < q.len() implies ranks_before(side, o.price, (#[trigger] q[k]).price) by {
                assert(q[k] == ft[k - n0]);
            }
        } else if ranks_before(side, levels[0].0, o.price) {
            lemma_rests_behind_equal_price(tail, side, o);
            let m = orders_ahead(tail, side, o.price) as int;
            let rest = add_resting(tail, side, o);
            let nl = seq![levels[0]] + rest;
            assert(nl[0] == levels[0]);
            assert(nl.drop_first() =~= rest);
            assert(flatten(nl) == l0 + flatten(rest));
            assert(orders_ahead(levels, side, o.price) == n0 + m);
            assert(q.take(n0 + m) =~= l0 + ft.take(m));
            assert(q.skip(n0 + m) =~= ft.skip(m));
            assert(l0 + (ft.take(m) + seq![o] + ft.skip(m)) =~= (l0 + ft.take(m)) + seq![o] + ft.skip(m));
            assert forall|k: int| 0 <= k < n0 + m implies !ranks_before(side, o.price, (#[trigger] q[k]).price) by {
                if k < n0 {
                    assert(q[k] == l0[k]);
                } else {
                    assert(q[k] == ft[k - n0]);
                }
            }
            assert forall|k: int| n0 + m <= k < q.len() implies ranks_before(side, o.price, (#[trigger] q[k]).price) by {
                assert(q[k] == ft[k - n0]);
            }
        } else {
            let nl = seq![(o.price, seq![o])] + levels;
            assert(nl[0] == (o.price, seq![o]));
            assert(nl.drop_first() =~= levels);
            assert(flatten(nl) == seq![o] + q);
            assert(q.take(0) + seq![o] + q.skip(0) =~= seq![o] + q);
            assert forall|k: int| 0 <= k < q.len() implies ranks_before(side, o.price, (#[trigger] q[k]).price) by {
                if k < n0 {
                    assert(q[k] == l0[k]);
                } else {
                    assert(q[k] == ft[k - n0]);
                    assert(ranks_before(side, levels[0].0, ft[k - n0].price));
                }
            }
        }
    }
}

/// An order that comes to rest goes to the back of the queue at its own price, behind
/// every order already there, and that queue is otherwise unchanged (an absent level
/// counts as an empty queue).
pub proof fn lemma_rests_at_back_of_its_price(levels: Seq<LevelView>, side: Side, o: Order)
    requires
        side_wf(levels, side),
    ensures
        queue_at(add_resting(levels, side, o), o.price) == queue_at(levels, o.price).push(o),
    decreases levels.len(),
{
    let res = add_resting(levels, side, o);
    if levels.len() == 0 {
        let single = seq![(o.price, seq![o])];
        assert(queue_at(single, o.price) == seq![o]);
        assert(Seq::<Order>::empty().push(o) =~= seq![o]);
    } else if levels[0].0 == o.price {
    } else if ranks_before(side, levels[0].0, o.price) {
        let tail = levels.drop_first();
        lemma_wf_tail(levels, side);
        lemma_rests_at_back_of_its_price(tail, side, o);
        let nl = seq![levels[0]] + add_resting(tail, side, o);
        assert(nl[0] == levels[0]);
        assert(nl.drop_first() =~= add_resting(tail, side, o));
    } else {
        let nl = seq![(o.price, seq![o])] + levels;
        assert(nl[0] == (o.price, seq![o]));
        assert forall|i: int| 0 <= i < levels.len() implies (#[trigger] levels[i]).0 != o.price by {
            if i > 0 {
                assert(ranks_before(side, levels[0].0, levels[i].0));
            }
        }
        lemma_queue_at_absent(levels, o.price);
        assert(Seq::<Order>::empty().push(o) =~= seq![o]);
    }
}

/// Conservation: what an incoming order trades plus what is left of it to rest is
/// exactly the quantity submitted.
pub proof fn lemma_conservation(book: OrderBook, side: Side, price: u64, quantity: u64, id: u64)
    requires
        book.wf(),
    ensures
        ({
            let (t, r, l) = fill(book.queue(side.opposite()), side, price, quantity as nat, id);
            traded_quantity(t) + l == quantity
        }),
{
    lemma_fill_shape(book.queue(side.opposite()), side, price, quantity as nat, id);
}

/// No dangling levels: every price level present on either side of a well-formed book
/// holds at least one order, each with a positive quantity.
pub proof fn lemma_no_empty_levels(book: OrderBook, side: Side)
    requires
        book.wf(),
    ensures
        forall|i: int| 0 <= i < book.levels(side).len() ==> (#[trigger] book.levels(side)[i]).1.len() > 0,
        forall|k: int| 0 <= k < book.queue(side).len() ==> (#[trigger] book.queue(side)[k]).quantity > 0,
{
    lemma_flatten_positive(book.levels(side), side);
}

proof fn lemma_flatten_positive(levels: Seq<LevelView>, side: Side)
    requires
        side_wf(levels, side),
    ensures
        forall|k: int| 0 <= k < flatten(levels).len() ==> (#[trigger] flatten(levels)[k]).quantity > 0,
    decreases levels.len(),
{
    if levels.len() > 0 {
        let tail = levels.drop_first();
        lemma_wf_tail(levels, side);
        lemma_flatten_positive(tail, side);
        let f = flatten(levels);
        let n = levels[0].1.len() as int;
        assert(f == levels[0].1 + flatten(tail));
        assert forall|k: int| 0 <= k < f.len() implies (#[trigger] f[k]).quantity > 0 by {
            if k < n {
                assert(f[k] == levels[0].1[k]);
            } else {
                assert(f[k] == flatten(tail)[k - n]);
            }
        }
    }
}

/// An order of quantity zero trades nothing and leaves the opposite side as it was
/// (and, by `place_order`'s contract, rests nothing).
pub proof fn lemma_zero_quantity_no_op(book: OrderBook, side: Side, price: u64, id: u64)
    ensures
        fill(book.queue(side.opposite()), side, price, 0, id) == (Seq::<Trade>::empty(), book.queue(side.opposite()), 0nat),
{
}

} // verus!
