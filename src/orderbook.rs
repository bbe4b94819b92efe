use std::collections::VecDeque;

use vstd::prelude::*;

use crate::{ranks_before, Order, PriceLevel, Side, Trade};

verus! {

/// One price with the orders resting at it, oldest first.
pub type LevelView = (u64, Seq<Order>);

/// All orders of a book side, best price first and oldest first within a price.
pub open spec fn flatten(levels: Seq<LevelView>) -> Seq<Order>
    decreases levels.len(),
{
    if levels.len() == 0 {
        Seq::empty()
    } else {
        levels[0].1 + flatten(levels.drop_first())
    }
}

/// A book side is well formed: levels strictly ordered best first, none empty,
/// and every order rests at its own price with a positive quantity.
pub open spec fn side_wf(levels: Seq<LevelView>, side: Side) -> bool {
    &&& forall|i: int, j: int|
        0 <= i < j < levels.len() ==> ranks_before(side, #[trigger] levels[i].0, #[trigger] levels[j].0)
    &&& forall|i: int| 0 <= i < levels.len() ==> (#[trigger] levels[i]).1.len() > 0
    &&& forall|i: int, k: int|
        0 <= i < levels.len() && 0 <= k < levels[i].1.len() ==> {
            &&& (#[trigger] levels[i].1[k]).price == levels[i].0
            &&& levels[i].1[k].quantity > 0
        }
}

/// An incoming order of side `taker` with limit `limit` may trade at resting price `resting`.
pub open spec fn crosses(taker: Side, limit: u64, resting: u64) -> bool {
    match taker {
        Side::Buy => limit >= resting,
        Side::Sell => limit <= resting,
    }
}

/// Matching `qty` of an incoming order against the opposite side's orders in priority
/// order: the trades produced, the orders left on that side, and the quantity left over.
pub open spec fn fill(queue: Seq<Order>, taker: Side, limit: u64, qty: nat, taker_id: u64) -> (
    Seq<Trade>,
    Seq<Order>,
    nat,
)
    decreases queue.len(),
{
    if qty == 0 || queue.len() == 0 || !crosses(taker, limit, queue[0].price) {
        (Seq::empty(), queue, qty)
    } else {
        let o = queue[0];
        if qty < o.quantity {
            let t = Trade { price: o.price, quantity: qty as u64, maker_id: o.id, taker_id };
            let rest = Order { id: o.id, price: o.price, quantity: (o.quantity - qty) as u64, timestamp: o.timestamp };
            (seq![t], queue.update(0, rest), 0)
        } else {
            let t = Trade { price: o.price, quantity: o.quantity, maker_id: o.id, taker_id };
            let (ts, rest, left) = fill(queue.drop_first(), taker, limit, (qty - o.quantity) as nat, taker_id);
            (seq![t] + ts, rest, left)
        }
    }
}

/// The levels of a book side of side `side` once order `o` rests there: at the back of
/// the level of its price, or in a new level at its rank.
pub open spec fn add_resting(levels: Seq<LevelView>, side: Side, o: Order) -> Seq<LevelView>
    decreases levels.len(),
{
    if levels.len() == 0 {
        seq![(o.price, seq![o])]
    } else if levels[0].0 == o.price {
        levels.update(0, (o.price, levels[0].1.push(o)))
    } else if ranks_before(side, levels[0].0, o.price) {
        seq![levels[0]] + add_resting(levels.drop_first(), side, o)
    } else {
        seq![(o.price, seq![o])] + levels
    }
}

/// The orders resting at `price` on a book side, oldest first; empty when no level has
/// that price.
pub open spec fn queue_at(levels: Seq<LevelView>, price: u64) -> Seq<Order>
    decreases levels.len(),
{
    if levels.len() == 0 {
        Seq::empty()
    } else if levels[0].0 == price {
        levels[0].1
    } else {
        queue_at(levels.drop_first(), price)
    }
}

pub(crate) proof fn lemma_queue_at_absent(levels: Seq<LevelView>, price: u64)
    requires
        forall|i: int| 0 <= i < levels.len() ==> (#[trigger] levels[i]).0 != price,
    ensures
        queue_at(levels, price) == Seq::<Order>::empty(),
    decreases levels.len(),
{
    if levels.len() > 0 {
        let tail = levels.drop_first();
        assert forall|i: int| 0 <= i < tail.len() implies (#[trigger] tail[i]).0 != price by {
            assert(tail[i] == levels[i + 1]);
        }
        lemma_queue_at_absent(tail, price);
    }
}

proof fn lemma_queue_at_index(levels: Seq<LevelView>, side: Side, i: int)
    requires
        side_wf(levels, side),
        0 <= i < levels.len(),
    ensures
        queue_at(levels, levels[i].0) == levels[i].1,
    decreases i,
{
    if i > 0 {
        let tail = levels.drop_first();
        assert(ranks_before(side, levels[0].0, levels[i].0));
        assert(tail[i - 1] == levels[i]);
        assert forall|a: int, b: int| 0 <= a < b < tail.len() implies ranks_before(side, #[trigger] tail[a].0, #[trigger] tail[b].0) by {
            assert(tail[a] == levels[a + 1] && tail[b] == levels[b + 1]);
        }
        assert forall|a: int| 0 <= a < tail.len() implies (#[trigger] tail[a]).1.len() > 0 by {
            assert(tail[a] == levels[a + 1]);
        }
        assert forall|a: int, k: int| 0 <= a < tail.len() && 0 <= k < tail[a].1.len() implies {
            &&& (#[trigger] tail[a].1[k]).price == tail[a].0
            &&& tail[a].1[k].quantity > 0
        } by {
            assert(tail[a] == levels[a + 1]);
        }
        lemma_queue_at_index(tail, side, i - 1);
    }
}

/// Sum of the open quantities of `orders`.
pub open spec fn total_quantity(orders: Seq<Order>) -> nat
    decreases orders.len(),
{
    if orders.len() == 0 {
        0
    } else {
        total_quantity(orders.drop_last()) + orders.last().quantity as nat
    }
}

/// What draining the level at `price` of a book side of side `book_side` with `qty` of an
/// incoming order does. With no level at `price` nothing changes and `qty` comes back.
/// Otherwise that level's orders are filled oldest first at its price, the trades are
/// appended, the level keeps what is left of its queue or is removed once that is empty,
/// every other level stays as it was, and the quantity left over comes back.
pub open spec fn level_matched(
    before: Seq<LevelView>,
    after: Seq<LevelView>,
    book_side: Side,
    price: u64,
    qty: u64,
    taker_id: u64,
    trades_before: Seq<Trade>,
    trades_after: Seq<Trade>,
    left: u64,
) -> bool {
    &&& (forall|i: int| 0 <= i < before.len() ==> (#[trigger] before[i]).0 != price) ==> {
        &&& left == qty
        &&& trades_after == trades_before
        &&& after == before
    }
    &&& forall|i: int| 0 <= i < before.len() && (#[trigger] before[i]).0 == price ==> {
        let (t, r, l) = fill(before[i].1, book_side.opposite(), price, qty as nat, taker_id);
        &&& trades_after == trades_before + t
        &&& left == l
        &&& after == if r.len() == 0 {
            before.remove(i)
        } else {
            before.update(i, (price, r))
        }
    }
}

struct Level {
    price: u64,
    orders: VecDeque<Order>,
}

impl View for Level {
    type V = LevelView;

    closed spec fn view(&self) -> LevelView {
        (self.price, self.orders@)
    }
}

spec fn view_levels(v: Seq<Level>) -> Seq<LevelView> {
    v.map_values(|l: Level| l@)
}

/// An order book that matches buy and sell orders by price-time priority.
pub struct OrderBook {
    /// Buy side, best (highest) price first.
    buy_side: Vec<Level>,
    /// Sell side, best (lowest) price first.
    sell_side: Vec<Level>,
}

proof fn lemma_add_resting_at(levels: Seq<LevelView>, side: Side, o: Order, i: int)
    requires
        side_wf(levels, side),
        0 <= i <= levels.len(),
        forall|j: int| 0 <= j < i ==> ranks_before(side, #[trigger] levels[j].0, o.price),
        i < levels.len() ==> !ranks_before(side, levels[i].0, o.price),
    ensures
        add_resting(levels, side, o) == if i < levels.len() && levels[i].0 == o.price {
            levels.update(i, (o.price, levels[i].1.push(o)))
        } else {
            levels.insert(i, (o.price, seq![o]))
        },
    decreases i,
{
    if i > 0 {
        let tail = levels.drop_first();
        assert(ranks_before(side, levels[0].0, o.price));
        assert forall|j: int| 0 <= j < i - 1 implies ranks_before(side, #[trigger] tail[j].0, o.price) by {
            assert(tail[j] == levels[j + 1]);
        }
        assert forall|a: int, b: int| 0 <= a < b < tail.len() implies ranks_before(side, #[trigger] tail[a].0, #[trigger] tail[b].0) by {
            assert(tail[a] == levels[a + 1] && tail[b] == levels[b + 1]);
        }
        assert forall|a: int| 0 <= a < tail.len() implies (#[trigger] tail[a]).1.len() > 0 by {
            assert(tail[a] == levels[a + 1]);
        }
        assert forall|a: int, k: int| 0 <= a < tail.len() && 0 <= k < tail[a].1.len() implies {
            &&& (#[trigger] tail[a].1[k]).price == tail[a].0
            &&& tail[a].1[k].quantity > 0
        } by {
            assert(tail[a] == levels[a + 1]);
        }
        lemma_add_resting_at(tail, side, o, i - 1);
        if i < levels.len() && levels[i].0 == o.price {
            assert(seq![levels[0]] + tail.update(i - 1, (o.price, tail[i - 1].1.push(o)))
                =~= levels.update(i, (o.price, levels[i].1.push(o))));
        } else {
            assert(seq![levels[0]] + tail.insert(i - 1, (o.price, seq![o])) =~= levels.insert(i, (o.price, seq![o])));
        }
    } else {
        if levels.len() > 0 {
            if levels[0].0 != o.price {
                assert(seq![(o.price, seq![o])] + levels =~= levels.insert(0, (o.price, seq![o])));
            }
        } else {
            assert(seq![(o.price, seq![o])] =~= levels.insert(0, (o.price, seq![o])));
        }
    }
}

proof fn lemma_add_resting_wf(levels: Seq<LevelView>, side: Side, o: Order, i: int)
    requires
        side_wf(levels, side),
        o.quantity > 0,
        0 <= i <= levels.len(),
        forall|j: int| 0 <= j < i ==> ranks_before(side, #[trigger] levels[j].0, o.price),
        i < levels.len() ==> !ranks_before(side, levels[i].0, o.price),
    ensures
        i < levels.len() && levels[i].0 == o.price ==> side_wf(
            levels.update(i, (o.price, levels[i].1.push(o))),
            side,
        ),
        !(i < levels.len() && levels[i].0 == o.price) ==> side_wf(
            levels.insert(i, (o.price, seq![o])),
            side,
        ),
{
    if i < levels.len() && levels[i].0 == o.price {
        let r = levels.update(i, (o.price, levels[i].1.push(o)));
        assert forall|a: int, k: int| 0 <= a < r.len() && 0 <= k < r[a].1.len() implies {
            &&& (#[trigger] r[a].1[k]).price == r[a].0
            &&& r[a].1[k].quantity > 0
        } by {
            if a == i && k < levels[i].1.len() {
                assert(r[a].1[k] == levels[i].1[k]);
            }
        }
    } else {
        let r = levels.insert(i, (o.price, seq![o]));
        if i < levels.len() {
            assert(ranks_before(side, o.price, levels[i].0));
        }
        assert forall|a: int, b: int| 0 <= a < b < r.len() implies ranks_before(side, #[trigger] r[a].0, #[trigger] r[b].0) by {
            if b < i {
            } else if a < i && b == i {
            } else if a < i {
                assert(r[b] == levels[b - 1]);
            } else if a == i {
                assert(r[b] == levels[b - 1]);
                if b - 1 > i {
                    assert(ranks_before(side, levels[i].0, levels[b - 1].0));
                }
            } else {
                assert(r[a] == levels[a - 1] && r[b] == levels[b - 1]);
            }
        }
        assert forall|a: int| 0 <= a < r.len() implies (#[trigger] r[a]).1.len() > 0 by {
            if a > i {
                assert(r[a] == levels[a - 1]);
            }
        }
        assert forall|a: int, k: int| 0 <= a < r.len() && 0 <= k < r[a].1.len() implies {
            &&& (#[trigger] r[a].1[k]).price == r[a].0
            &&& r[a].1[k].quantity > 0
        } by {
            if a > i {
                assert(r[a] == levels[a - 1]);
            }
        }
    }
}

/// Whether resting price `a` ranks strictly ahead of `b` on a book side of side `side`.
fn ranks_ahead(side: Side, a: u64, b: u64) -> (r: bool)
    ensures
        r == ranks_before(side, a, b),
{
    match side {
        Side::Buy => a > b,
        Side::Sell => a < b,
    }
}

/// Rests `order` on a book side of side `side`, behind the orders already at its price.
fn add_resting_order(levels: &mut Vec<Level>, side: Side, order: Order)
    requires
        side_wf(view_levels(old(levels)@), side),
        order.quantity > 0,
    ensures
        view_levels(final(levels)@) == add_resting(view_levels(old(levels)@), side, order),
        side_wf(view_levels(final(levels)@), side),
{
    let ghost before = view_levels(levels@);
    let mut i: usize = 0;
    while i < levels.len() && ranks_ahead(side, levels[i].price, order.price)
        invariant
            levels@ == old(levels)@,
            before == view_levels(levels@),
            side_wf(before, side),
            0 <= i <= levels.len(),
            forall|j: int| 0 <= j < i ==> ranks_before(side, #[trigger] before[j].0, order.price),
        decreases levels.len() - i,
    {
        i = i + 1;
    }
    proof {
        lemma_add_resting_at(before, side, order, i as int);
        lemma_add_resting_wf(before, side, order, i as int);
    }
    if i < levels.len() && levels[i].price == order.price {
        let ghost o = order;
        levels[i].orders.push_back(order);
        assert(view_levels(levels@) =~= before.update(i as int, (o.price, before[i as int].1.push(o))));
    } else {
        let ghost o = order;
        let price = order.price;
        let mut q = VecDeque::new();
        q.push_back(order);
        levels.insert(i, Level { price, orders: q });
        assert(view_levels(levels@) =~= before.insert(i as int, (o.price, seq![o])));
    }
}

/// Matching against a queue whose orders all cross runs through it before anything behind it.
proof fn lemma_fill_append(a: Seq<Order>, b: Seq<Order>, taker: Side, limit: u64, qty: nat, taker_id: u64)
    requires
        forall|k: int| 0 <= k < a.len() ==> crosses(taker, limit, (#[trigger] a[k]).price),
    ensures
        ({
            let (t1, r1, l1) = fill(a, taker, limit, qty, taker_id);
            let (t2, r2, l2) = fill(b, taker, limit, l1, taker_id);
            &&& r1.len() > 0 ==> l1 == 0 && fill(a + b, taker, limit, qty, taker_id) == (t1, r1 + b, 0nat)
            &&& r1.len() == 0 ==> fill(a + b, taker, limit, qty, taker_id) == (t1 + t2, r2, l2)
        }),
    decreases a.len(),
{
    if a.len() == 0 {
        assert(a + b =~= b);
        assert(fill(a, taker, limit, qty, taker_id).0 + fill(b, taker, limit, qty, taker_id).0
            =~= fill(b, taker, limit, qty, taker_id).0);
    } else if qty == 0 {
    } else {
        let o = a[0];
        assert((a + b)[0] == o);
        assert(crosses(taker, limit, a[0].price));
        if qty < o.quantity {
            let rest = Order { id: o.id, price: o.price, quantity: (o.quantity - qty) as u64, timestamp: o.timestamp };
            assert((a + b).update(0, rest) =~= a.update(0, rest) + b);
        } else {
            let a1 = a.drop_first();
            assert((a + b).drop_first() =~= a1 + b);
            assert forall|k: int| 0 <= k < a1.len() implies crosses(taker, limit, (#[trigger] a1[k]).price) by {
                assert(a1[k] == a[k + 1]);
            }
            lemma_fill_append(a1, b, taker, limit, (qty - o.quantity) as nat, taker_id);
            let t = Trade { price: o.price, quantity: o.quantity, maker_id: o.id, taker_id };
            let (t1, r1, l1) = fill(a1, taker, limit, (qty - o.quantity) as nat, taker_id);
            let (t2, r2, l2) = fill(b, taker, limit, l1, taker_id);
            assert(seq![t] + (t1 + t2) =~= (seq![t] + t1) + t2);
        }
    }
}

/// Drains level `i` of a book side against an incoming order of the other side, oldest
/// order first, at the level's own price, and drops the level once it is empty.
fn match_level_at(
    levels: &mut Vec<Level>,
    book_side: Side,
    i: usize,
    qty: u64,
    taker_id: u64,
    trades: &mut Vec<Trade>,
) -> (left: u64)
    requires
        side_wf(view_levels(old(levels)@), book_side),
        i < old(levels)@.len(),
    ensures
        ({
            let lv = view_levels(old(levels)@)[i as int];
            let (t, r, l) = fill(lv.1, book_side.opposite(), lv.0, qty as nat, taker_id);
            &&& final(trades)@ == old(trades)@ + t
            &&& left == l
            &&& r.len() > 0 ==> l == 0
            &&& view_levels(final(levels)@) == if r.len() == 0 {
                view_levels(old(levels)@).remove(i as int)
            } else {
                view_levels(old(levels)@).update(i as int, (lv.0, r))
            }
        }),
        side_wf(view_levels(final(levels)@), book_side),
{
    let ghost before = view_levels(levels@);
    let ghost taker = book_side.opposite();
    let mut level = levels.remove(i);
    let price = level.price;
    let ghost orig = level.orders@;
    assert(orig == before[i as int].1);
    let mut remaining = qty;
    while remaining > 0 && level.orders.len() > 0
        invariant
            level.price == price,
            price == before[i as int].0,
            crosses(taker, price, price),
            forall|k: int| 0 <= k < level.orders@.len() ==> {
                &&& (#[trigger] level.orders@[k]).price == price
                &&& level.orders@[k].quantity > 0
            },
            trades@ + fill(level.orders@, taker, price, remaining as nat, taker_id).0
                == old(trades)@ + fill(orig, taker, price, qty as nat, taker_id).0,
            fill(level.orders@, taker, price, remaining as nat, taker_id).1 == fill(orig, taker, price, qty as nat, taker_id).1,
            fill(level.orders@, taker, price, remaining as nat, taker_id).2 == fill(orig, taker, price, qty as nat, taker_id).2,
        decreases level.orders@.len() + remaining,
    {
        let ghost cur = level.orders@;
        let o = level.orders.pop_front().unwrap();
        assert(o == cur[0]);
        if remaining < o.quantity {
            let t = Trade { price, quantity: remaining, maker_id: o.id, taker_id };
            let rest = Order { id: o.id, price: o.price, quantity: o.quantity - remaining, timestamp: o.timestamp };
            trades.push(t);
            level.orders.push_front(rest);
            assert(level.orders@ =~= cur.update(0, rest));
            remaining = 0;
        } else {
            let t = Trade { price, quantity: o.quantity, maker_id: o.id, taker_id };
            trades.push(t);
            remaining = remaining - o.quantity;
            assert(level.orders@ =~= cur.drop_first());
            let ghost f = fill(cur.drop_first(), taker, price, remaining as nat, taker_id);
            assert(old(trades)@ + (seq![t] + f.0) =~= (old(trades)@ + seq![t]) + f.0);
        }
    }
    let ghost r = level.orders@;
    let ghost ii = i as int;
    if level.orders.len() > 0 {
        levels.insert(i, level);
        assert(view_levels(levels@) =~= before.update(ii, (price, r)));
        let ghost after = view_levels(levels@);
        assert forall|a: int, b: int| 0 <= a < b < after.len() implies ranks_before(book_side, #[trigger] after[a].0, #[trigger] after[b].0) by {
            assert(after[a].0 == before[a].0 && after[b].0 == before[b].0);
        }
        assert forall|a: int| 0 <= a < after.len() implies (#[trigger] after[a]).1.len() > 0 by {
            if a != ii {
                assert(after[a] == before[a]);
            }
        }
        assert forall|a: int, k: int| 0 <= a < after.len() && 0 <= k < after[a].1.len() implies {
            &&& (#[trigger] after[a].1[k]).price == after[a].0
            &&& after[a].1[k].quantity > 0
        } by {
            if a != ii {
                assert(after[a] == before[a]);
            }
        }
    } else {
        assert(view_levels(levels@) =~= before.remove(ii));
        let ghost after = view_levels(levels@);
        assert forall|a: int, b: int| 0 <= a < b < after.len() implies ranks_before(book_side, #[trigger] after[a].0, #[trigger] after[b].0) by {
            let a0 = if a < ii { a } else { a + 1 };
            let b0 = if b < ii { b } else { b + 1 };
            assert(after[a] == before[a0] && after[b] == before[b0]);
        }
        assert forall|a: int| 0 <= a < after.len() implies (#[trigger] after[a]).1.len() > 0 by {
            let a0 = if a < ii { a } else { a + 1 };
            assert(after[a] == before[a0]);
        }
        assert forall|a: int, k: int| 0 <= a < after.len() && 0 <= k < after[a].1.len() implies {
            &&& (#[trigger] after[a].1[k]).price == after[a].0
            &&& after[a].1[k].quantity > 0
        } by {
            let a0 = if a < ii { a } else { a + 1 };
            assert(after[a] == before[a0]);
        }
    }
    remaining
}

/// Matching a queue whose orders all cross under either of two limits gives the same
/// result under both.
proof fn lemma_fill_limits(queue: Seq<Order>, taker: Side, l1: u64, l2: u64, qty: nat, taker_id: u64)
    requires
        forall|k: int| 0 <= k < queue.len() ==> crosses(taker, l1, (#[trigger] queue[k]).price) && crosses(taker, l2, queue[k].price),
    ensures
        fill(queue, taker, l1, qty, taker_id) == fill(queue, taker, l2, qty, taker_id),
    decreases queue.len(),
{
    if qty > 0 && queue.len() > 0 {
        assert(crosses(taker, l1, queue[0].price) && crosses(taker, l2, queue[0].price));
        let o = queue[0];
        if qty >= o.quantity {
            let q1 = queue.drop_first();
            assert forall|k: int| 0 <= k < q1.len() implies crosses(taker, l1, (#[trigger] q1[k]).price) && crosses(taker, l2, q1[k].price) by {
                assert(q1[k] == queue[k + 1]);
            }
            lemma_fill_limits(q1, taker, l1, l2, (qty - o.quantity) as nat, taker_id);
        }
    }
}

/// Position of the level at `price` on a book side, if there is one.
fn find_level(levels: &Vec<Level>, price: u64) -> (r: Option<usize>)
    ensures
        match r {
            Some(i) => i < levels@.len() && levels@[i as int].price == price,
            None => forall|i: int| 0 <= i < levels@.len() ==> (#[trigger] levels@[i]).price != price,
        },
{
    let mut i: usize = 0;
    while i < levels.len()
        invariant
            0 <= i <= levels@.len(),
            forall|j: int| 0 <= j < i ==> (#[trigger] levels@[j]).price != price,
        decreases levels@.len() - i,
    {
        if levels[i].price == price {
            return Some(i);
        }
        i = i + 1;
    }
    None
}

/// Drains the level at `price` of a book side, if there is one; see `match_level_at`.
fn match_level(
    levels: &mut Vec<Level>,
    book_side: Side,
    price: u64,
    qty: u64,
    taker_id: u64,
    trades: &mut Vec<Trade>,
) -> (left: u64)
    requires
        side_wf(view_levels(old(levels)@), book_side),
    ensures
        side_wf(view_levels(final(levels)@), book_side),
        level_matched(view_levels(old(levels)@), view_levels(final(levels)@), book_side, price, qty, taker_id, old(trades)@, final(trades)@, left),
{
    match find_level(levels, price) {
        Some(i) => {
            let left = match_level_at(levels, book_side, i, qty, taker_id, trades);
            proof {
                let lv = view_levels(old(levels)@);
                assert(lv[i as int].0 == price);
                assert forall|j: int| 0 <= j < lv.len() && (#[trigger] lv[j]).0 == price implies j == i by {
                    if j < i {
                        assert(ranks_before(book_side, lv[j].0, lv[i as int].0));
                    } else if j > i {
                        assert(ranks_before(book_side, lv[i as int].0, lv[j].0));
                    }
                }
            }
            left
        },
        None => {
            proof {
                let lv = view_levels(levels@);
                assert forall|j: int| 0 <= j < lv.len() implies (#[trigger] lv[j]).0 != price by {
                    assert(lv[j] == levels@[j]@);
                }
            }
            qty
        },
    }
}

proof fn lemma_flatten_front(levels: Seq<LevelView>)
    requires
        levels.len() > 0,
        levels[0].1.len() > 0,
    ensures
        flatten(levels).len() > 0,
        flatten(levels)[0] == levels[0].1[0],
        flatten(levels) == levels[0].1 + flatten(levels.drop_first()),
{
}

/// Reads the system clock as milliseconds since the Unix epoch.
/// Relies on std's `SystemTime::elapsed` on `UNIX_EPOCH`; nothing is promised of the
/// value. A clock that reads before the epoch cannot stamp an order: that is a fault of
/// the environment, and it aborts with a panic rather than becoming a result.
#[verifier::external_body]
fn clock_millis() -> u128 {
    std::time::UNIX_EPOCH.elapsed().expect("system clock reads before the Unix epoch").as_millis()
}

impl Default for OrderBook {
    fn default() -> (r: Self)
        ensures
            r.wf(),
            r.levels(Side::Buy) == Seq::<LevelView>::empty(),
            r.levels(Side::Sell) == Seq::<LevelView>::empty(),
    {
        let r = OrderBook { buy_side: Vec::new(), sell_side: Vec::new() };
        assert(r.levels(Side::Buy) =~= Seq::<LevelView>::empty());
        assert(r.levels(Side::Sell) =~= Seq::<LevelView>::empty());
        r
    }
}

impl OrderBook {
    /// The price levels of one side, best price first, each with its orders oldest first.
    pub closed spec fn levels(&self, side: Side) -> Seq<LevelView> {
        match side {
            Side::Buy => view_levels(self.buy_side@),
            Side::Sell => view_levels(self.sell_side@),
        }
    }

    /// All resting orders of one side in the order they would be matched.
    pub open spec fn queue(&self, side: Side) -> Seq<Order> {
        flatten(self.levels(side))
    }

    /// The book's invariant: both sides are well formed.
    pub open spec fn wf(&self) -> bool {
        &&& side_wf(self.levels(Side::Buy), Side::Buy)
        &&& side_wf(self.levels(Side::Sell), Side::Sell)
    }

    /// Places a new order, stamped with the current time: it trades against the opposite
    /// side while prices cross, and what is left of it then rests on its own side.
    /// Returns the trades in the order they happened.
    pub fn place_order(&mut self, side: Side, price: u64, quantity: u64, id: u64) -> (trades: Vec<Trade>)
        requires
            old(self).wf(),
        ensures
            final(self).wf(),
            ({
                let (t, r, l) = fill(old(self).queue(side.opposite()), side, price, quantity as nat, id);
                &&& trades@ == t
                &&& final(self).queue(side.opposite()) == r
                &&& l == 0 ==> final(self).levels(side) == old(self).levels(side)
                &&& l > 0 ==> exists|ts: u128| final(self).levels(side) == #[trigger] add_resting(
                    old(self).levels(side),
                    side,
                    Order { id, price, quantity: l as u64, timestamp: ts },
                )
            }),
            quantity == 0 ==> {
                &&& trades@.len() == 0
                &&& final(self).levels(Side::Buy) == old(self).levels(Side::Buy)
                &&& final(self).levels(Side::Sell) == old(self).levels(Side::Sell)
            },
    {
        let now = clock_millis();
        self.place_order_at(side, price, quantity, id, now)
    }

    /// Places a new order stamped with `timestamp`; see `place_order`.
    pub fn place_order_at(&mut self, side: Side, price: u64, quantity: u64, id: u64, timestamp: u128) -> (trades: Vec<Trade>)
        requires
            old(self).wf(),
        ensures
            final(self).wf(),
            ({
                let (t, r, l) = fill(old(self).queue(side.opposite()), side, price, quantity as nat, id);
                &&& trades@ == t
                &&& final(self).queue(side.opposite()) == r
                &&& final(self).levels(side) == if l == 0 {
                    old(self).levels(side)
                } else {
                    add_resting(old(self).levels(side), side, Order { id, price, quantity: l as u64, timestamp })
                }
            }),
            quantity == 0 ==> {
                &&& trades@.len() == 0
                &&& final(self).levels(Side::Buy) == old(self).levels(Side::Buy)
                &&& final(self).levels(Side::Sell) == old(self).levels(Side::Sell)
            },
    {
        let ghost opp = side.opposite();
        let ghost full = fill(self.queue(opp), side, price, quantity as nat, id);
        let mut trades: Vec<Trade> = Vec::new();
        let mut remaining = quantity;
        assert(trades@ + fill(self.queue(opp), side, price, remaining as nat, id).0 =~= full.0);
        while remaining > 0 && self.best_crosses(side, price)
            invariant
                self.wf(),
                self.levels(side) == old(self).levels(side),
                trades@ + fill(self.queue(opp), side, price, remaining as nat, id).0 == full.0,
                fill(self.queue(opp), side, price, remaining as nat, id).1 == full.1,
                fill(self.queue(opp), side, price, remaining as nat, id).2 == full.2,
                opp == side.opposite(),
                quantity == 0 ==> remaining == 0 && self.levels(opp) == old(self).levels(opp),
            decreases self.levels(opp).len() + if remaining > 0 { 1int } else { 0int },
        {
            let ghost lv = self.levels(opp);
            let ghost t0 = trades@;
            proof {
                lemma_flatten_front(lv);
                assert forall|k: int| 0 <= k < lv[0].1.len() implies crosses(side, price, (#[trigger] lv[0].1[k]).price) by {
                    assert(lv[0].1[k].price == lv[0].0);
                }
                lemma_fill_append(lv[0].1, flatten(lv.drop_first()), side, price, remaining as nat, id);
            }
            let ghost rem0 = remaining;
            let best = self.best_level_price(opp_side(side));
            remaining = self.match_at_price_level(opp_side(side), best, remaining, id, &mut trades);
            proof {
                assert(lv[0].0 == best);
                assert forall|k: int| 0 <= k < lv[0].1.len() implies crosses(side, best, (#[trigger] lv[0].1[k]).price) && crosses(side, price, lv[0].1[k].price) by {
                    assert(lv[0].1[k].price == lv[0].0);
                }
                lemma_fill_limits(lv[0].1, side, best, price, rem0 as nat, id);
                let (t1, r1, l1) = fill(lv[0].1, side, price, rem0 as nat, id);
                if r1.len() == 0 {
                    assert(lv.remove(0) =~= lv.drop_first());
                    assert(self.levels(opp) == lv.drop_first());
                    let f2 = fill(flatten(lv.drop_first()), side, price, l1, id);
                    assert(t0 + (t1 + f2.0) =~= (t0 + t1) + f2.0);
                } else {
                    let nl = lv.update(0, (lv[0].0, r1));
                    assert(self.levels(opp) == nl);
                    assert(nl.drop_first() =~= lv.drop_first());
                    assert(flatten(nl) == r1 + flatten(lv.drop_first()));
                    assert(trades@ + Seq::<Trade>::empty() =~= trades@);
                }
            }
        }
        proof {
            let lv = self.levels(opp);
            if remaining > 0 && lv.len() > 0 {
                lemma_flatten_front(lv);
            }
            assert(trades@ + Seq::<Trade>::empty() =~= trades@);
        }
        if remaining > 0 {
            self.add_to_book(side, Order { id, price, quantity: remaining, timestamp });
        }
        trades
    }

    /// Whether the best level of the side opposite to `side` crosses `price`.
    fn best_crosses(&self, side: Side, price: u64) -> (r: bool)
        requires
            self.wf(),
        ensures
            r == (self.levels(side.opposite()).len() > 0 && crosses(side, price, self.levels(side.opposite())[0].0)),
    {
        match side {
            Side::Buy => self.sell_side.len() > 0 && price >= self.sell_side[0].price,
            Side::Sell => self.buy_side.len() > 0 && price <= self.buy_side[0].price,
        }
    }

    /// Matches an incoming order against the level at `price` of `book_side`, oldest order
    /// first, and removes that level once it is empty. Returns what is left of the incoming
    /// quantity: all of it when there is no such level.
    fn match_at_price_level(
        &mut self,
        book_side: Side,
        price: u64,
        qty: u64,
        taker_id: u64,
        trades: &mut Vec<Trade>,
    ) -> (left: u64)
        requires
            old(self).wf(),
        ensures
            final(self).wf(),
            final(self).levels(book_side.opposite()) == old(self).levels(book_side.opposite()),
            level_matched(
                old(self).levels(book_side),
                final(self).levels(book_side),
                book_side,
                price,
                qty,
                taker_id,
                old(trades)@,
                final(trades)@,
                left,
            ),
    {
        match book_side {
            Side::Buy => match_level(&mut self.buy_side, book_side, price, qty, taker_id, trades),
            Side::Sell => match_level(&mut self.sell_side, book_side, price, qty, taker_id, trades),
        }
    }

    /// Price of the best level of `side`.
    fn best_level_price(&self, side: Side) -> (r: u64)
        requires
            self.levels(side).len() > 0,
        ensures
            r == self.levels(side)[0].0,
    {
        match side {
            Side::Buy => self.buy_side[0].price,
            Side::Sell => self.sell_side[0].price,
        }
    }

    /// Rests `order` at the back of its price level on `side`.
    fn add_to_book(&mut self, side: Side, order: Order)
        requires
            old(self).wf(),
            order.quantity > 0,
        ensures
            final(self).wf(),
            final(self).levels(side) == add_resting(old(self).levels(side), side, order),
            final(self).levels(side.opposite()) == old(self).levels(side.opposite()),
    {
        match side {
            Side::Buy => add_resting_order(&mut self.buy_side, side, order),
            Side::Sell => add_resting_order(&mut self.sell_side, side, order),
        }
    }
}

/// The side that an order of side `side` trades against.
fn opp_side(side: Side) -> (r: Side)
    ensures
        r == side.opposite(),
{
    match side {
        Side::Buy => Side::Sell,
        Side::Sell => Side::Buy,
    }
}

proof fn lemma_total_prefix(s: Seq<Order>, i: int, j: int)
    requires
        0 <= i <= j <= s.len(),
    ensures
        total_quantity(s.take(i)) <= total_quantity(s.take(j)),
    decreases j - i,
{
    if i < j {
        lemma_total_prefix(s, i, j - 1);
        assert(s.take(j).drop_last() =~= s.take(j - 1));
    }
}

/// Sum of the open quantities of one level's orders.
fn level_total(orders: &VecDeque<Order>) -> (r: u64)
    requires
        total_quantity(orders@) <= u64::MAX,
    ensures
        r == total_quantity(orders@),
{
    let mut sum: u64 = 0;
    let mut i: usize = 0;
    while i < orders.len()
        invariant
            0 <= i <= orders@.len(),
            sum == total_quantity(orders@.take(i as int)),
            total_quantity(orders@) <= u64::MAX,
        decreases orders@.len() - i,
    {
        proof {
            assert(orders@.take(i + 1).drop_last() =~= orders@.take(i as int));
            lemma_total_prefix(orders@, i + 1, orders@.len() as int);
            assert(orders@.take(orders@.len() as int) =~= orders@);
        }
        sum = sum + orders[i].quantity;
        i = i + 1;
    }
    assert(orders@.take(i as int) =~= orders@);
    sum
}

/// Price and total open quantity of the best level of a book side.
fn best_of(levels: &Vec<Level>) -> (r: Option<(u64, u64)>)
    requires
        levels@.len() > 0 ==> total_quantity(levels@[0].orders@) <= u64::MAX,
    ensures
        r == if levels@.len() == 0 {
            None
        } else {
            Some((levels@[0].price, total_quantity(levels@[0].orders@) as u64))
        },
{
    if levels.len() == 0 {
        None
    } else {
        Some((levels[0].price, level_total(&levels[0].orders)))
    }
}

/// The orders of the level at `price` on a book side, if there is one.
fn level_at(levels: &Vec<Level>, price: u64) -> (r: Option<&VecDeque<Order>>)
    ensures
        match r {
            Some(q) => exists|i: int| 0 <= i < levels@.len() && (#[trigger] levels@[i]).price == price && q@ == levels@[i].orders@,
            None => forall|i: int| 0 <= i < levels@.len() ==> (#[trigger] levels@[i]).price != price,
        },
{
    match find_level(levels, price) {
        Some(i) => Some(&levels[i].orders),
        None => None,
    }
}

impl OrderBook {
    /// Best (highest) bid price and the total open quantity resting at it.
    pub fn best_buy(&self) -> (r: Option<(u64, u64)>)
        requires
            self.wf(),
            self.levels(Side::Buy).len() > 0 ==> total_quantity(self.levels(Side::Buy)[0].1) <= u64::MAX,
        ensures
            r == if self.levels(Side::Buy).len() == 0 {
                None
            } else {
                Some((self.levels(Side::Buy)[0].0, total_quantity(self.levels(Side::Buy)[0].1) as u64))
            },
    {
        best_of(&self.buy_side)
    }

    /// Best (lowest) ask price and the total open quantity resting at it.
    pub fn best_sell(&self) -> (r: Option<(u64, u64)>)
        requires
            self.wf(),
            self.levels(Side::Sell).len() > 0 ==> total_quantity(self.levels(Side::Sell)[0].1) <= u64::MAX,
        ensures
            r == if self.levels(Side::Sell).len() == 0 {
                None
            } else {
                Some((self.levels(Side::Sell)[0].0, total_quantity(self.levels(Side::Sell)[0].1) as u64))
            },
    {
        best_of(&self.sell_side)
    }

    /// The orders resting at `price_key`, oldest first, if that level exists.
    pub fn get_orders(&self, price_key: &PriceLevel) -> (r: Option<&VecDeque<Order>>)
        requires
            self.wf(),
        ensures
            match r {
                Some(q) => exists|i: int|
                    0 <= i < self.levels(price_key@.1).len() && (#[trigger] self.levels(price_key@.1)[i]).0 == price_key@.0
                        && q@ == self.levels(price_key@.1)[i].1,
                None => forall|i: int|
                    0 <= i < self.levels(price_key@.1).len() ==> (#[trigger] self.levels(price_key@.1)[i]).0 != price_key@.0,
            },
            match r {
                Some(q) => q@ == queue_at(self.levels(price_key@.1), price_key@.0) && q@.len() > 0,
                None => queue_at(self.levels(price_key@.1), price_key@.0) == Seq::<Order>::empty(),
            },
    {
        let r = match price_key.side {
            Side::Buy => level_at(&self.buy_side, price_key.price),
            Side::Sell => level_at(&self.sell_side, price_key.price),
        };
        proof {
            let v = match price_key.side {
                Side::Buy => self.buy_side@,
                Side::Sell => self.sell_side@,
            };
            assert(self.levels(price_key@.1) == view_levels(v));
            match r {
                Some(q) => {
                    let i = choose|i: int| 0 <= i < v.len() && (#[trigger] v[i]).price == price_key.price && q@ == v[i].orders@;
                    assert(self.levels(price_key@.1)[i] == v[i]@);
                    lemma_queue_at_index(self.levels(price_key@.1), price_key@.1, i);
                },
                None => {
                    assert forall|i: int| 0 <= i < self.levels(price_key@.1).len() implies (#[trigger] self.levels(price_key@.1)[i]).0 != price_key@.0 by {
                        assert(self.levels(price_key@.1)[i] == v[i]@);
                    }
                    lemma_queue_at_absent(self.levels(price_key@.1), price_key@.0);
                },
            }
        }
        r
    }

    pub fn is_buy_side_empty(&self) -> (r: bool)
        ensures
            r == (self.levels(Side::Buy).len() == 0),
    {
        self.buy_side.len() == 0
    }

    pub fn is_sell_side_empty(&self) -> (r: bool)
        ensures
            r == (self.levels(Side::Sell).len() == 0),
    {
        self.sell_side.len() == 0
    }
}

} // verus!
