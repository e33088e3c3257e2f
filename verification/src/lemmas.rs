//! Supporting proofs about the matching model: what one level walk and
//! one book walk do to the resting orders, the trades, and the fill
//! accounting. The invariant-preservation proofs build on these.

use vstd::prelude::*;
use crate::order::{Order, OrderSide, Trade};
use crate::level::has_order;
use crate::model::{
    crosses, fill_maker, flat, ids_of, ids_unique, level_ok, level_price_at, maker_id,
    match_book, match_level, mk_trade, order_ok, same_terms, side_ok, traded_qty,
    trades_qty_sum, LevelSnap,
};

verus! {

/// Unfolding of `traded_qty` over a front extension.
pub proof fn lemma_traded_qty_cons(t: Trade, ts: Seq<Trade>, id: u64)
    ensures
        traded_qty(seq![t] + ts, id) == (if t.buy_order_id == id || t.sell_order_id == id {
            t.quantity as int
        } else {
            0
        }) + traded_qty(ts, id),
{
    assert((seq![t] + ts)[0] == t);
    assert((seq![t] + ts).drop_first() =~= ts);
}

/// Unfolding of `trades_qty_sum` over a front extension.
pub proof fn lemma_qty_sum_cons(t: Trade, ts: Seq<Trade>)
    ensures
        trades_qty_sum(seq![t] + ts) == t.quantity + trades_qty_sum(ts),
{
    assert((seq![t] + ts)[0] == t);
    assert((seq![t] + ts).drop_first() =~= ts);
}

/// The hypotheses every level-walk lemma shares: well-formed makers with
/// distinct ids, none of them the taker's.
pub open spec fn level_walk_pre(
    taker: Order,
    rem: int,
    tid: int,
    price: u64,
    orders: Seq<Order>,
    ms: OrderSide,
) -> bool {
    &&& 0 <= rem
    &&& 0 <= tid
    &&& tid + rem <= u64::MAX
    &&& (forall|i: int| 0 <= i < orders.len() ==> order_ok(#[trigger] orders[i], ms, price))
    &&& ids_unique(orders)
    &&& (forall|i: int| 0 <= i < orders.len() ==> (#[trigger] orders[i]).id != taker.id)
}

/// The recursion hypotheses carry over to the tail of the queue.
proof fn lemma_level_walk_pre_step(
    taker: Order,
    rem: int,
    tid: int,
    price: u64,
    orders: Seq<Order>,
    ms: OrderSide,
)
    requires
        level_walk_pre(taker, rem, tid, price, orders, ms),
        rem > 0,
        orders.len() > 0,
    ensures
        ({
            let maker = orders[0];
            let q = if rem <= maker.remaining_quantity {
                rem
            } else {
                maker.remaining_quantity as int
            };
            &&& 1 <= q <= rem
            &&& level_walk_pre(taker, rem - q, tid + 1, price, orders.drop_first(), ms)
        }),
{
    let rest = orders.drop_first();
    assert(order_ok(orders[0], ms, price));
    assert(forall|i: int| 0 <= i < rest.len() ==> rest[i] == orders[i + 1]);
    assert(forall|i: int| 0 <= i < rest.len() ==> order_ok(#[trigger] rest[i], ms, price));
    assert(forall|i: int| 0 <= i < rest.len() ==> (#[trigger] rest[i]).id != taker.id);
    assert(ids_unique(rest));
}

/// Shape of a level walk: the taker never overfills, makers leave from
/// the front, the survivors keep their order, and a taker with residue
/// has emptied the queue.
pub proof fn lemma_match_level_shape(
    taker: Order,
    rem: int,
    tid: int,
    price: u64,
    orders: Seq<Order>,
    ms: OrderSide,
)
    requires
        level_walk_pre(taker, rem, tid, price, orders, ms),
    ensures
        ({
            let lm = match_level(taker, rem, tid, price, orders);
            let d = lm.removed.len() as int;
            &&& 0 <= lm.rem <= rem
            &&& lm.trades.len() <= rem - lm.rem
            &&& lm.trades.len() <= orders.len()
            &&& d <= lm.trades.len()
            &&& lm.kept.len() == orders.len() - d
            &&& (lm.rem > 0 ==> lm.kept.len() == 0)
            &&& (forall|i: int|
                0 <= i < lm.kept.len() ==> order_ok(#[trigger] lm.kept[i], ms, price))
            &&& lm.removed == ids_of(orders).take(d)
            &&& ids_of(lm.kept) == ids_of(orders).skip(d)
        }),
    decreases orders.len(),
{
    let lm = match_level(taker, rem, tid, price, orders);
    let d = lm.removed.len() as int;
    assert(forall|i: int| 0 <= i < orders.len() ==> ids_of(orders)[i] == orders[i].id);
    if rem <= 0 || orders.len() == 0 {
        assert(lm.removed =~= ids_of(orders).take(0));
        assert(ids_of(lm.kept) =~= ids_of(orders).skip(0));
    } else {
        let maker = orders[0];
        let q = if rem <= maker.remaining_quantity {
            rem
        } else {
            maker.remaining_quantity as int
        };
        let rest = orders.drop_first();
        lemma_level_walk_pre_step(taker, rem, tid, price, orders, ms);
        let sub = match_level(taker, rem - q, tid + 1, price, rest);
        lemma_match_level_shape(taker, rem - q, tid + 1, price, rest, ms);
        let sd = sub.removed.len() as int;
        assert(forall|i: int| 0 <= i < rest.len() ==> ids_of(rest)[i] == rest[i].id);
        if maker.remaining_quantity <= q {
            assert(lm.removed =~= ids_of(orders).take(d));
            assert(ids_of(lm.kept) =~= ids_of(orders).skip(d));
        } else {
            let m2 = fill_maker(maker, q);
            assert(order_ok(m2, ms, price));
            assert(sub.kept == rest);
            assert(sub.removed =~= Seq::<u64>::empty());
            assert(d == 0);
            assert(lm.kept =~= seq![m2] + rest);
            assert(forall|i: int|
                0 <= i < lm.kept.len() ==> (#[trigger] lm.kept[i]) == if i == 0 {
                    m2
                } else {
                    orders[i]
                });
            assert(lm.removed =~= ids_of(orders).take(0));
            assert(ids_of(lm.kept) =~= ids_of(orders).skip(0));
        }
    }
}

/// The trades of a level walk: the `k`-th trade carries id `tid + k`,
/// executes at the level's price, and its maker is the `k`-th order of
/// the queue; the taker is on its own side of every trade.
pub proof fn lemma_match_level_trades(
    taker: Order,
    rem: int,
    tid: int,
    price: u64,
    orders: Seq<Order>,
    ms: OrderSide,
)
    requires
        level_walk_pre(taker, rem, tid, price, orders, ms),
    ensures
        ({
            let lm = match_level(taker, rem, tid, price, orders);
            forall|k: int|
                0 <= k < lm.trades.len() ==> {
                    let t = #[trigger] lm.trades[k];
                    &&& t.id == tid + k
                    &&& t.price == price
                    &&& 1 <= t.quantity
                    &&& t.quantity <= orders[k].remaining_quantity
                    &&& maker_id(t, taker.side) == orders[k].id
                    &&& (taker.side == OrderSide::Buy ==> t.buy_order_id == taker.id)
                    &&& (taker.side == OrderSide::Sell ==> t.sell_order_id == taker.id)
                }
        }),
    decreases orders.len(),
{
    let lm = match_level(taker, rem, tid, price, orders);
    if rem <= 0 || orders.len() == 0 {
    } else {
        let maker = orders[0];
        let q = if rem <= maker.remaining_quantity {
            rem
        } else {
            maker.remaining_quantity as int
        };
        let rest = orders.drop_first();
        lemma_level_walk_pre_step(taker, rem, tid, price, orders, ms);
        let t = mk_trade(tid, taker, maker, price, q);
        let sub = match_level(taker, rem - q, tid + 1, price, rest);
        lemma_match_level_trades(taker, rem - q, tid + 1, price, rest, ms);
        lemma_match_level_shape(taker, rem - q, tid + 1, price, rest, ms);
        assert(lm.trades == seq![t] + sub.trades);
        assert(forall|k: int|
            0 <= k < lm.trades.len() ==> (#[trigger] lm.trades[k]) == if k == 0 {
                t
            } else {
                sub.trades[k - 1]
            });
        assert(forall|k: int| 1 <= k < lm.trades.len() ==> orders[k] == rest[k - 1]);
    }
}

/// Conservation in a level walk: what the taker filled is exactly the
/// total quantity of the emitted trades, and every one of those trades
/// names the taker.
pub proof fn lemma_match_level_sums(
    taker: Order,
    rem: int,
    tid: int,
    price: u64,
    orders: Seq<Order>,
    ms: OrderSide,
)
    requires
        level_walk_pre(taker, rem, tid, price, orders, ms),
    ensures
        ({
            let lm = match_level(taker, rem, tid, price, orders);
            &&& trades_qty_sum(lm.trades) == rem - lm.rem
            &&& traded_qty(lm.trades, taker.id) == rem - lm.rem
        }),
    decreases orders.len(),
{
    let lm = match_level(taker, rem, tid, price, orders);
    if rem <= 0 || orders.len() == 0 {
    } else {
        let maker = orders[0];
        let q = if rem <= maker.remaining_quantity {
            rem
        } else {
            maker.remaining_quantity as int
        };
        let rest = orders.drop_first();
        lemma_level_walk_pre_step(taker, rem, tid, price, orders, ms);
        let t = mk_trade(tid, taker, maker, price, q);
        let sub = match_level(taker, rem - q, tid + 1, price, rest);
        lemma_match_level_sums(taker, rem - q, tid + 1, price, rest, ms);
        lemma_match_level_shape(taker, rem - q, tid + 1, price, rest, ms);
        assert(lm.trades == seq![t] + sub.trades);
        lemma_qty_sum_cons(t, sub.trades);
        lemma_traded_qty_cons(t, sub.trades, taker.id);
        assert(t.buy_order_id == taker.id || t.sell_order_id == taker.id);
    }
}

/// A level walk's trades reference no id outside the queue and the
/// taker.
pub proof fn lemma_match_level_untouched(
    taker: Order,
    rem: int,
    tid: int,
    price: u64,
    orders: Seq<Order>,
    ms: OrderSide,
    id: u64,
)
    requires
        level_walk_pre(taker, rem, tid, price, orders, ms),
        id != taker.id,
        !has_order(orders, id),
    ensures
        traded_qty(match_level(taker, rem, tid, price, orders).trades, id) == 0,
    decreases orders.len(),
{
    let lm = match_level(taker, rem, tid, price, orders);
    if rem <= 0 || orders.len() == 0 {
    } else {
        let maker = orders[0];
        let q = if rem <= maker.remaining_quantity {
            rem
        } else {
            maker.remaining_quantity as int
        };
        let rest = orders.drop_first();
        lemma_level_walk_pre_step(taker, rem, tid, price, orders, ms);
        let t = mk_trade(tid, taker, maker, price, q);
        let sub = match_level(taker, rem - q, tid + 1, price, rest);
        assert(!has_order(rest, id)) by {
            if has_order(rest, id) {
                let w = choose|i: int| 0 <= i < rest.len() && rest[i].id == id;
                assert(orders[w + 1].id == id);
            }
        }
        lemma_match_level_untouched(taker, rem - q, tid + 1, price, rest, ms, id);
        assert(maker.id != id) by {
            if maker.id == id {
                assert(orders[0].id == id);
            }
        }
        assert(lm.trades == seq![t] + sub.trades);
        lemma_traded_qty_cons(t, sub.trades, id);
    }
}

/// Accounting of a level walk at one surviving position: the maker
/// keeps its terms and its fill grows by exactly what the walk's trades
/// matched against it.
proof fn lemma_match_level_accounting_at(
    taker: Order,
    rem: int,
    tid: int,
    price: u64,
    orders: Seq<Order>,
    ms: OrderSide,
    k: int,
)
    requires
        level_walk_pre(taker, rem, tid, price, orders, ms),
        0 <= k < match_level(taker, rem, tid, price, orders).kept.len(),
    ensures
        ({
            let lm = match_level(taker, rem, tid, price, orders);
            let d = lm.removed.len() as int;
            let o = lm.kept[k];
            &&& k + d < orders.len()
            &&& same_terms(o, orders[k + d])
            &&& o.filled_quantity == orders[k + d].filled_quantity + traded_qty(lm.trades, o.id)
            &&& o.remaining_quantity <= orders[k + d].remaining_quantity
        }),
    decreases orders.len(),
{
    let lm = match_level(taker, rem, tid, price, orders);
    let d = lm.removed.len() as int;
    if rem <= 0 || orders.len() == 0 {
        assert(lm.kept == orders && d == 0);
        assert(traded_qty(lm.trades, lm.kept[k].id) == 0);
    } else {
        let maker = orders[0];
        let q = if rem <= maker.remaining_quantity {
            rem
        } else {
            maker.remaining_quantity as int
        };
        let rest = orders.drop_first();
        lemma_level_walk_pre_step(taker, rem, tid, price, orders, ms);
        let t = mk_trade(tid, taker, maker, price, q);
        let sub = match_level(taker, rem - q, tid + 1, price, rest);
        let sd = sub.removed.len() as int;
        if maker.remaining_quantity <= q {
            assert(lm.kept == sub.kept);
            assert(lm.trades == seq![t] + sub.trades);
            assert(d == sd + 1);
            lemma_match_level_accounting_at(taker, rem - q, tid + 1, price, rest, ms, k);
            let o = sub.kept[k];
            assert(orders[k + d] == rest[k + sd]);
            assert(o.id == rest[k + sd].id);
            assert(o.id != maker.id) by {
                assert(orders[0].id != orders[k + d].id);
            }
            assert(o.id != taker.id);
            lemma_traded_qty_cons(t, sub.trades, o.id);
            assert(traded_qty(lm.trades, o.id) == traded_qty(sub.trades, o.id));
        } else {
            let m2 = fill_maker(maker, q);
            assert(sub.kept == rest);
            assert(sub.trades =~= Seq::<Trade>::empty());
            assert(lm.kept == seq![m2] + rest);
            assert(lm.trades == seq![t] + sub.trades);
            assert(d == 0);
            let o = lm.kept[k];
            lemma_traded_qty_cons(t, sub.trades, o.id);
            if k == 0 {
                assert(o == m2);
                assert(t.buy_order_id == o.id || t.sell_order_id == o.id);
                assert(traded_qty(lm.trades, o.id) == q);
            } else {
                assert(o == orders[k]);
                assert(o.id != maker.id) by {
                    assert(orders[0].id != orders[k].id);
                }
                assert(o.id != taker.id);
                assert(traded_qty(lm.trades, o.id) == 0);
            }
        }
    }
}

/// Accounting of a level walk, over all surviving positions.
pub proof fn lemma_match_level_accounting(
    taker: Order,
    rem: int,
    tid: int,
    price: u64,
    orders: Seq<Order>,
    ms: OrderSide,
)
    requires
        level_walk_pre(taker, rem, tid, price, orders, ms),
    ensures
        ({
            let lm = match_level(taker, rem, tid, price, orders);
            let d = lm.removed.len() as int;
            forall|k: int|
                0 <= k < lm.kept.len() ==> {
                    let o = #[trigger] lm.kept[k];
                    &&& k + d < orders.len()
                    &&& same_terms(o, orders[k + d])
                    &&& o.filled_quantity == orders[k + d].filled_quantity + traded_qty(
                        lm.trades,
                        o.id,
                    )
                    &&& o.remaining_quantity <= orders[k + d].remaining_quantity
                }
        }),
{
    let lm = match_level(taker, rem, tid, price, orders);
    let d = lm.removed.len() as int;
    assert forall|k: int| 0 <= k < lm.kept.len() implies {
        let o = #[trigger] lm.kept[k];
        &&& k + d < orders.len()
        &&& same_terms(o, orders[k + d])
        &&& o.filled_quantity == orders[k + d].filled_quantity + traded_qty(lm.trades, o.id)
        &&& o.remaining_quantity <= orders[k + d].remaining_quantity
    } by {
        lemma_match_level_accounting_at(taker, rem, tid, price, orders, ms, k);
    }
}

/// `traded_qty` distributes over concatenation.
pub proof fn lemma_traded_qty_concat(a: Seq<Trade>, b: Seq<Trade>, id: u64)
    ensures
        traded_qty(a + b, id) == traded_qty(a, id) + traded_qty(b, id),
    decreases a.len(),
{
    if a.len() == 0 {
        assert(a + b =~= b);
    } else {
        assert((a + b)[0] == a[0]);
        assert((a + b).drop_first() =~= a.drop_first() + b);
        lemma_traded_qty_concat(a.drop_first(), b, id);
    }
}

/// `trades_qty_sum` distributes over concatenation.
pub proof fn lemma_qty_sum_concat(a: Seq<Trade>, b: Seq<Trade>)
    ensures
        trades_qty_sum(a + b) == trades_qty_sum(a) + trades_qty_sum(b),
    decreases a.len(),
{
    if a.len() == 0 {
        assert(a + b =~= b);
    } else {
        assert((a + b)[0] == a[0]);
        assert((a + b).drop_first() =~= a.drop_first() + b);
        lemma_qty_sum_concat(a.drop_first(), b);
    }
}

/// Unfolding of the flattening of a non-empty side book.
pub proof fn lemma_flat_unfold(ls: Seq<LevelSnap>)
    requires
        ls.len() > 0,
    ensures
        flat(ls) == ls[0].orders + flat(ls.drop_first()),
{
}

/// The hypotheses every book-walk lemma shares.
pub open spec fn book_walk_pre(
    taker: Order,
    rem: int,
    tid: int,
    levels: Seq<LevelSnap>,
    ms: OrderSide,
) -> bool {
    &&& 0 <= rem
    &&& 0 <= tid
    &&& tid + rem <= u64::MAX
    &&& side_ok(levels, ms)
    &&& ids_unique(flat(levels))
    &&& (forall|i: int|
        0 <= i < flat(levels).len() ==> (#[trigger] flat(levels)[i]).id != taker.id)
}

/// Stepping into the front level: the hypotheses hold of its queue, and
/// of the remaining book after the level walk.
proof fn lemma_book_walk_pre_step(
    taker: Order,
    rem: int,
    tid: int,
    levels: Seq<LevelSnap>,
    ms: OrderSide,
)
    requires
        book_walk_pre(taker, rem, tid, levels, ms),
        rem > 0,
        levels.len() > 0,
    ensures
        level_walk_pre(taker, rem, tid, levels[0].price, levels[0].orders, ms),
        ({
            let lm = match_level(taker, rem, tid, levels[0].price, levels[0].orders);
            &&& 0 <= lm.rem <= rem
            &&& lm.trades.len() <= rem - lm.rem
            &&& lm.trades.len() <= levels[0].orders.len()
            &&& book_walk_pre(
                taker,
                lm.rem,
                tid + lm.trades.len(),
                levels.drop_first(),
                ms,
            )
        }),
{
    let l0 = levels[0].orders;
    let f = flat(levels.drop_first());
    lemma_flat_unfold(levels);
    assert(level_ok(levels[0], ms));
    assert(forall|i: int| 0 <= i < l0.len() ==> flat(levels)[i] == l0[i]);
    assert(forall|i: int|
        0 <= i < f.len() ==> flat(levels)[l0.len() + i] == f[i]);
    assert(forall|i: int| 0 <= i < l0.len() ==> order_ok(#[trigger] l0[i], ms, levels[0].price));
    assert(ids_unique(l0));
    assert(forall|i: int| 0 <= i < l0.len() ==> (#[trigger] l0[i]).id != taker.id);
    assert(level_walk_pre(taker, rem, tid, levels[0].price, l0, ms));
    let lm = match_level(taker, rem, tid, levels[0].price, l0);
    lemma_match_level_shape(taker, rem, tid, levels[0].price, l0, ms);
    assert(forall|i: int, j: int|
        0 <= i < j < levels.drop_first().len() ==> crate::model::better(
            ms,
            (#[trigger] levels.drop_first()[i]).price,
            (#[trigger] levels.drop_first()[j]).price,
        ));
    assert(forall|i: int|
        0 <= i < levels.drop_first().len() ==> level_ok(#[trigger] levels.drop_first()[i], ms));
    assert(ids_unique(f));
    assert(forall|i: int| 0 <= i < f.len() ==> (#[trigger] f[i]).id != taker.id);
}

/// Shape of a book walk: levels leave from the front (best first), the
/// survivors keep their prices and order, and a taker with residue has
/// either emptied the book or reached a level that no longer crosses.
pub proof fn lemma_match_book_shape(
    taker: Order,
    rem: int,
    tid: int,
    levels: Seq<LevelSnap>,
    limit: Option<u64>,
    ms: OrderSide,
)
    requires
        book_walk_pre(taker, rem, tid, levels, ms),
    ensures
        ({
            let bm = match_book(taker, rem, tid, levels, limit);
            &&& 0 <= bm.rem <= rem
            &&& bm.trades.len() <= rem - bm.rem
            &&& bm.trades.len() <= flat(levels).len()
            &&& side_ok(bm.levels, ms)
            &&& bm.levels.len() <= levels.len()
            &&& (forall|k: int|
                0 <= k < bm.levels.len() ==> (#[trigger] bm.levels[k]).price == levels[
                    k + (levels.len() - bm.levels.len())
                ].price)
            &&& (bm.rem > 0 ==> bm.levels.len() == 0 || !crosses(
                taker.side,
                bm.levels[0].price,
                limit,
            ))
        }),
    decreases levels.len(),
{
    let bm = match_book(taker, rem, tid, levels, limit);
    if rem <= 0 || levels.len() == 0 || !crosses(taker.side, levels[0].price, limit) {
    } else {
        let l0 = levels[0].orders;
        let lm = match_level(taker, rem, tid, levels[0].price, l0);
        lemma_book_walk_pre_step(taker, rem, tid, levels, ms);
        lemma_match_level_shape(taker, rem, tid, levels[0].price, l0, ms);
        lemma_flat_unfold(levels);
        let sub = match_book(taker, lm.rem, tid + lm.trades.len(), levels.drop_first(), limit);
        lemma_match_book_shape(
            taker,
            lm.rem,
            tid + lm.trades.len(),
            levels.drop_first(),
            limit,
            ms,
        );
        if lm.kept.len() > 0 {
            assert(lm.rem == 0);
            assert(sub.levels == levels.drop_first());
            assert(sub.trades =~= Seq::<Trade>::empty());
            assert(bm.levels =~= seq![LevelSnap { price: levels[0].price, orders: lm.kept }]
                + levels.drop_first());
            assert(bm.levels.len() == levels.len());
            assert(level_ok(bm.levels[0], ms));
            assert(forall|k: int|
                1 <= k < bm.levels.len() ==> (#[trigger] bm.levels[k]) == levels[k]);
            assert(forall|i: int, j: int|
                0 <= i < j < bm.levels.len() ==> crate::model::better(
                    ms,
                    (#[trigger] bm.levels[i]).price,
                    (#[trigger] bm.levels[j]).price,
                ));
        } else {
            assert(bm.levels == sub.levels);
            assert(bm.trades == lm.trades + sub.trades);
            assert(bm.trades.len() == lm.trades.len() + sub.trades.len());
            assert(flat(levels).len() == l0.len() + flat(levels.drop_first()).len());
            assert(forall|k: int|
                0 <= k < bm.levels.len() ==> (#[trigger] bm.levels[k]).price == levels[
                    k + (levels.len() - bm.levels.len())
                ].price);
        }
    }
}

/// Ids in a book walk: the removed ids are the front of the best-first
/// flattening, and the survivors are the rest, in order.
pub proof fn lemma_match_book_ids(
    taker: Order,
    rem: int,
    tid: int,
    levels: Seq<LevelSnap>,
    limit: Option<u64>,
    ms: OrderSide,
)
    requires
        book_walk_pre(taker, rem, tid, levels, ms),
    ensures
        ({
            let bm = match_book(taker, rem, tid, levels, limit);
            let d = bm.removed.len() as int;
            &&& d <= flat(levels).len()
            &&& flat(bm.levels).len() == flat(levels).len() - d
            &&& bm.removed == ids_of(flat(levels)).take(d)
            &&& ids_of(flat(bm.levels)) == ids_of(flat(levels)).skip(d)
        }),
    decreases levels.len(),
{
    let bm = match_book(taker, rem, tid, levels, limit);
    let d = bm.removed.len() as int;
    if rem <= 0 || levels.len() == 0 || !crosses(taker.side, levels[0].price, limit) {
        assert(bm.removed =~= ids_of(flat(levels)).take(0));
        assert(ids_of(flat(bm.levels)) =~= ids_of(flat(levels)).skip(0));
    } else {
        let l0 = levels[0].orders;
        let f = flat(levels.drop_first());
        let lm = match_level(taker, rem, tid, levels[0].price, l0);
        lemma_book_walk_pre_step(taker, rem, tid, levels, ms);
        lemma_match_level_shape(taker, rem, tid, levels[0].price, l0, ms);
        lemma_flat_unfold(levels);
        assert(forall|i: int| 0 <= i < l0.len() ==> flat(levels)[i] == l0[i]);
        assert(forall|i: int| 0 <= i < f.len() ==> flat(levels)[l0.len() + i] == f[i]);
        assert(forall|i: int|
            0 <= i < flat(levels).len() ==> ids_of(flat(levels))[i] == flat(levels)[i].id);
        assert(forall|i: int| 0 <= i < l0.len() ==> ids_of(l0)[i] == l0[i].id);
        assert(forall|i: int| 0 <= i < f.len() ==> ids_of(f)[i] == f[i].id);
        let sub = match_book(taker, lm.rem, tid + lm.trades.len(), levels.drop_first(), limit);
        lemma_match_book_ids(
            taker,
            lm.rem,
            tid + lm.trades.len(),
            levels.drop_first(),
            limit,
            ms,
        );
        let ld = lm.removed.len() as int;
        let sd = sub.removed.len() as int;
        assert(forall|i: int| 0 <= i < lm.kept.len() ==> ids_of(lm.kept)[i] == lm.kept[i].id);
        if lm.kept.len() > 0 {
            assert(lm.rem == 0);
            assert(sub.levels == levels.drop_first());
            assert(sub.removed =~= Seq::<u64>::empty());
            assert(sd == 0);
            assert(d == ld);
            assert(bm.removed =~= lm.removed);
            assert(bm.removed =~= ids_of(flat(levels)).take(d));
            assert(bm.levels =~= seq![LevelSnap { price: levels[0].price, orders: lm.kept }]
                + levels.drop_first());
            lemma_flat_unfold(bm.levels);
            assert(bm.levels.drop_first() =~= levels.drop_first());
            assert(flat(bm.levels) =~= lm.kept + f);
            assert(forall|i: int|
                0 <= i < flat(bm.levels).len() ==> ids_of(flat(bm.levels))[i] == flat(
                    bm.levels,
                )[i].id);
            assert(flat(bm.levels).len() == flat(levels).len() - d);
            assert forall|i: int| 0 <= i < flat(bm.levels).len() implies ids_of(
                flat(bm.levels),
            )[i] == ids_of(flat(levels)).skip(d)[i] by {
                if i < lm.kept.len() {
                    assert(flat(bm.levels)[i] == lm.kept[i]);
                    assert(ids_of(lm.kept)[i] == ids_of(l0).skip(ld)[i]);
                    assert(lm.kept[i].id == l0[i + ld].id);
                    assert(flat(levels)[i + d] == l0[i + ld]);
                } else {
                    assert(flat(bm.levels)[i] == f[i - lm.kept.len()]);
                    assert(flat(levels)[i + d] == f[i + d - l0.len()]);
                }
            }
            assert(ids_of(flat(bm.levels)) =~= ids_of(flat(levels)).skip(d));
        } else {
            assert(ld == l0.len());
            assert(d == ld + sd);
            assert(bm.levels == sub.levels);
            assert(bm.removed == lm.removed + sub.removed);
            assert(forall|i: int|
                0 <= i < bm.removed.len() ==> (#[trigger] bm.removed[i]) == if i < ld {
                    lm.removed[i]
                } else {
                    sub.removed[i - ld]
                });
            assert(bm.removed =~= ids_of(flat(levels)).take(d));
            assert(forall|i: int|
                0 <= i < flat(sub.levels).len() ==> ids_of(flat(sub.levels))[i] == flat(
                    sub.levels,
                )[i].id);
            assert(forall|i: int|
                0 <= i < ids_of(flat(bm.levels)).len() ==> ids_of(flat(bm.levels))[i] == ids_of(
                    f,
                ).skip(sd)[i]);
            assert(ids_of(flat(bm.levels)) =~= ids_of(flat(levels)).skip(d));
        }
    }
}

/// The trades of a book walk, position by position: consecutive ids,
/// crossing maker prices, and makers consumed exactly in best-first,
/// FIFO-within-level order.
pub proof fn lemma_match_book_trades_at(
    taker: Order,
    rem: int,
    tid: int,
    levels: Seq<LevelSnap>,
    limit: Option<u64>,
    ms: OrderSide,
    k: int,
)
    requires
        book_walk_pre(taker, rem, tid, levels, ms),
        0 <= k < match_book(taker, rem, tid, levels, limit).trades.len(),
    ensures
        ({
            let bm = match_book(taker, rem, tid, levels, limit);
            let t = bm.trades[k];
            &&& k < flat(levels).len()
            &&& t.id == tid + k
            &&& 1 <= t.quantity
            &&& t.quantity <= flat(levels)[k].remaining_quantity
            &&& maker_id(t, taker.side) == flat(levels)[k].id
            &&& t.price == level_price_at(levels, k)
            &&& crosses(taker.side, t.price, limit)
            &&& (taker.side == OrderSide::Buy ==> t.buy_order_id == taker.id)
            &&& (taker.side == OrderSide::Sell ==> t.sell_order_id == taker.id)
        }),
    decreases levels.len(),
{
    let bm = match_book(taker, rem, tid, levels, limit);
    if rem <= 0 || levels.len() == 0 || !crosses(taker.side, levels[0].price, limit) {
    } else {
        let l0 = levels[0].orders;
        let f = flat(levels.drop_first());
        let lm = match_level(taker, rem, tid, levels[0].price, l0);
        lemma_book_walk_pre_step(taker, rem, tid, levels, ms);
        lemma_match_level_shape(taker, rem, tid, levels[0].price, l0, ms);
        lemma_match_level_trades(taker, rem, tid, levels[0].price, l0, ms);
        lemma_flat_unfold(levels);
        assert(forall|i: int| 0 <= i < l0.len() ==> flat(levels)[i] == l0[i]);
        assert(forall|i: int| 0 <= i < f.len() ==> flat(levels)[l0.len() + i] == f[i]);
        let sub = match_book(taker, lm.rem, tid + lm.trades.len(), levels.drop_first(), limit);
        assert(bm.trades == lm.trades + sub.trades);
        if k < lm.trades.len() {
            assert(bm.trades[k] == lm.trades[k]);
            assert(k < l0.len());
            assert(level_price_at(levels, k) == levels[0].price);
        } else {
            assert(sub.trades.len() > 0);
            assert(lm.rem > 0);
            assert(lm.kept.len() == 0);
            assert(lm.removed.len() == l0.len());
            assert(lm.trades.len() == l0.len());
            lemma_match_book_trades_at(
                taker,
                lm.rem,
                tid + lm.trades.len(),
                levels.drop_first(),
                limit,
                ms,
                k - lm.trades.len(),
            );
            assert(bm.trades[k] == sub.trades[k - lm.trades.len()]);
            assert(flat(levels)[k] == f[k - l0.len()]);
            assert(level_price_at(levels, k) == level_price_at(
                levels.drop_first(),
                k - l0.len(),
            ));
        }
    }
}

/// Conservation in a book walk: the taker's fill equals the total
/// quantity of the emitted trades, every one of which names the taker.
pub proof fn lemma_match_book_sums(
    taker: Order,
    rem: int,
    tid: int,
    levels: Seq<LevelSnap>,
    limit: Option<u64>,
    ms: OrderSide,
)
    requires
        book_walk_pre(taker, rem, tid, levels, ms),
    ensures
        ({
            let bm = match_book(taker, rem, tid, levels, limit);
            &&& trades_qty_sum(bm.trades) == rem - bm.rem
            &&& traded_qty(bm.trades, taker.id) == rem - bm.rem
        }),
    decreases levels.len(),
{
    let bm = match_book(taker, rem, tid, levels, limit);
    if rem <= 0 || levels.len() == 0 || !crosses(taker.side, levels[0].price, limit) {
    } else {
        let l0 = levels[0].orders;
        let lm = match_level(taker, rem, tid, levels[0].price, l0);
        lemma_book_walk_pre_step(taker, rem, tid, levels, ms);
        lemma_match_level_sums(taker, rem, tid, levels[0].price, l0, ms);
        let sub = match_book(taker, lm.rem, tid + lm.trades.len(), levels.drop_first(), limit);
        lemma_match_book_sums(
            taker,
            lm.rem,
            tid + lm.trades.len(),
            levels.drop_first(),
            limit,
            ms,
        );
        lemma_qty_sum_concat(lm.trades, sub.trades);
        lemma_traded_qty_concat(lm.trades, sub.trades, taker.id);
    }
}

/// A book walk's trades reference no id outside the flattened book and
/// the taker.
pub proof fn lemma_match_book_untouched(
    taker: Order,
    rem: int,
    tid: int,
    levels: Seq<LevelSnap>,
    limit: Option<u64>,
    ms: OrderSide,
    id: u64,
)
    requires
        book_walk_pre(taker, rem, tid, levels, ms),
        id != taker.id,
        !has_order(flat(levels), id),
    ensures
        traded_qty(match_book(taker, rem, tid, levels, limit).trades, id) == 0,
    decreases levels.len(),
{
    let bm = match_book(taker, rem, tid, levels, limit);
    if rem <= 0 || levels.len() == 0 || !crosses(taker.side, levels[0].price, limit) {
    } else {
        let l0 = levels[0].orders;
        let f = flat(levels.drop_first());
        let lm = match_level(taker, rem, tid, levels[0].price, l0);
        lemma_book_walk_pre_step(taker, rem, tid, levels, ms);
        lemma_flat_unfold(levels);
        assert(forall|i: int| 0 <= i < l0.len() ==> flat(levels)[i] == l0[i]);
        assert(forall|i: int| 0 <= i < f.len() ==> flat(levels)[l0.len() + i] == f[i]);
        assert(!has_order(l0, id)) by {
            if has_order(l0, id) {
                let w = choose|i: int| 0 <= i < l0.len() && l0[i].id == id;
                assert(flat(levels)[w].id == id);
            }
        }
        assert(!has_order(f, id)) by {
            if has_order(f, id) {
                let w = choose|i: int| 0 <= i < f.len() && f[i].id == id;
                assert(flat(levels)[l0.len() + w].id == id);
            }
        }
        lemma_match_level_untouched(taker, rem, tid, levels[0].price, l0, ms, id);
        let sub = match_book(taker, lm.rem, tid + lm.trades.len(), levels.drop_first(), limit);
        lemma_match_book_untouched(
            taker,
            lm.rem,
            tid + lm.trades.len(),
            levels.drop_first(),
            limit,
            ms,
            id,
        );
        lemma_traded_qty_concat(lm.trades, sub.trades, id);
    }
}

/// Accounting of a book walk at one surviving position: the resting
/// order keeps its terms and its fill grows by exactly what the walk's
/// trades matched against it.
pub proof fn lemma_match_book_accounting_at(
    taker: Order,
    rem: int,
    tid: int,
    levels: Seq<LevelSnap>,
    limit: Option<u64>,
    ms: OrderSide,
    k: int,
)
    requires
        book_walk_pre(taker, rem, tid, levels, ms),
        0 <= k < flat(match_book(taker, rem, tid, levels, limit).levels).len(),
    ensures
        ({
            let bm = match_book(taker, rem, tid, levels, limit);
            let d = bm.removed.len() as int;
            let o = flat(bm.levels)[k];
            &&& k + d < flat(levels).len()
            &&& same_terms(o, flat(levels)[k + d])
            &&& o.filled_quantity == flat(levels)[k + d].filled_quantity + traded_qty(
                bm.trades,
                o.id,
            )
            &&& o.remaining_quantity <= flat(levels)[k + d].remaining_quantity
        }),
    decreases levels.len(),
{
    let bm = match_book(taker, rem, tid, levels, limit);
    let d = bm.removed.len() as int;
    if rem <= 0 || levels.len() == 0 || !crosses(taker.side, levels[0].price, limit) {
        assert(bm.levels == levels && d == 0);
        assert(traded_qty(bm.trades, flat(bm.levels)[k].id) == 0);
    } else {
        let l0 = levels[0].orders;
        let f = flat(levels.drop_first());
        let lm = match_level(taker, rem, tid, levels[0].price, l0);
        lemma_book_walk_pre_step(taker, rem, tid, levels, ms);
        lemma_match_level_shape(taker, rem, tid, levels[0].price, l0, ms);
        lemma_flat_unfold(levels);
        assert(forall|i: int| 0 <= i < l0.len() ==> flat(levels)[i] == l0[i]);
        assert(forall|i: int| 0 <= i < f.len() ==> flat(levels)[l0.len() + i] == f[i]);
        let sub = match_book(taker, lm.rem, tid + lm.trades.len(), levels.drop_first(), limit);
        let ld = lm.removed.len() as int;
        assert(bm.trades == lm.trades + sub.trades);
        if lm.kept.len() > 0 {
            assert(lm.rem == 0);
            assert(sub.levels == levels.drop_first());
            assert(sub.trades =~= Seq::<Trade>::empty());
            assert(sub.removed =~= Seq::<u64>::empty());
            assert(d == ld);
            assert(bm.trades =~= lm.trades);
            lemma_flat_unfold(bm.levels);
            assert(bm.levels.drop_first() =~= levels.drop_first());
            assert(flat(bm.levels) =~= lm.kept + f);
            let o = flat(bm.levels)[k];
            if k < lm.kept.len() {
                assert(o == lm.kept[k]);
                lemma_match_level_accounting(taker, rem, tid, levels[0].price, l0, ms);
                assert(flat(levels)[k + d] == l0[k + ld]);
                lemma_traded_qty_concat(lm.trades, sub.trades, o.id);
            } else {
                assert(o == f[k - lm.kept.len()]);
                assert(k + d == l0.len() + (k - lm.kept.len()));
                assert(flat(levels)[k + d] == o);
                assert(!has_order(l0, o.id)) by {
                    if has_order(l0, o.id) {
                        let w = choose|i: int| 0 <= i < l0.len() && l0[i].id == o.id;
                        assert(flat(levels)[w].id == flat(levels)[k + d].id);
                        assert(ids_unique(flat(levels)));
                    }
                }
                assert(o.id != taker.id) by {
                    assert(flat(levels)[k + d].id != taker.id);
                }
                lemma_match_level_untouched(taker, rem, tid, levels[0].price, l0, ms, o.id);
                lemma_traded_qty_concat(lm.trades, sub.trades, o.id);
            }
        } else {
            assert(ld == l0.len());
            assert(bm.levels == sub.levels);
            let sd = sub.removed.len() as int;
            assert(d == ld + sd);
            lemma_match_book_accounting_at(
                taker,
                lm.rem,
                tid + lm.trades.len(),
                levels.drop_first(),
                limit,
                ms,
                k,
            );
            let o = flat(bm.levels)[k];
            assert(same_terms(o, f[k + sd]));
            assert(flat(levels)[k + d] == f[k + sd]);
            assert(!has_order(l0, o.id)) by {
                if has_order(l0, o.id) {
                    let w = choose|i: int| 0 <= i < l0.len() && l0[i].id == o.id;
                    assert(flat(levels)[w].id == flat(levels)[l0.len() + k + sd].id);
                    assert(ids_unique(flat(levels)));
                }
            }
            assert(o.id != taker.id) by {
                assert(flat(levels)[k + d].id != taker.id);
            }
            lemma_match_level_untouched(taker, rem, tid, levels[0].price, l0, ms, o.id);
            lemma_traded_qty_concat(lm.trades, sub.trades, o.id);
        }
    }
}

} // verus!
