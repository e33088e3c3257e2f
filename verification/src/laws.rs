//! The book's laws, stated and proved over the model: conservation of
//! quantity, the uncrossed book, monotone ids, the exact index, no empty
//! levels, aggregate consistency, price-time priority, maker pricing,
//! market orders never resting, and cancel idempotence.

use vstd::prelude::*;
use crate::order::{Order, OrderSide, OrderType};
use crate::level::{has_order, sum_remaining};
use crate::model::{
    all_resting, book_cancel, book_submit, empty_book, flat, inv, level_price_at, limit_price,
    maker_id, side_levels, opposite, traded_qty, trades_qty_sum, BookView,
};
use crate::preserve::{fresh_taker, lemma_flat_order_ok, taker_out};
use crate::book::{caches_ok, OrderBook};

verus! {

/// Conservation of quantity for the standing book: every resting order's
/// cumulative fill and remaining quantity add up to its submitted
/// quantity, and the fill equals the total quantity of the trades in the
/// log that reference its id.
pub proof fn lemma_conservation_resting(b: BookView)
    requires
        inv(b),
    ensures
        forall|i: int|
            0 <= i < all_resting(b).len() ==> {
                let o = #[trigger] all_resting(b)[i];
                &&& o.filled_quantity + o.remaining_quantity == o.quantity
                &&& traded_qty(b.trades, o.id) == o.filled_quantity
            },
{
    crate::preserve::lemma_all_resting_parts(b);
    lemma_flat_order_ok(b.buys, OrderSide::Buy);
    lemma_flat_order_ok(b.sells, OrderSide::Sell);
    assert forall|i: int| 0 <= i < all_resting(b).len() implies {
        let o = #[trigger] all_resting(b)[i];
        o.filled_quantity + o.remaining_quantity == o.quantity
    } by {
        if i < flat(b.buys).len() {
            assert(all_resting(b)[i] == flat(b.buys)[i]);
        } else {
            assert(all_resting(b)[i] == flat(b.sells)[i - flat(b.buys).len()]);
        }
    }
}

/// Conservation of quantity for a submit: the incoming order's fill is
/// exactly the total quantity of the trades the submit emits, every one
/// of which references the order's id.
pub proof fn lemma_conservation_taker(b: BookView, o: Order, limit: Option<u64>)
    requires
        inv(b),
        fresh_taker(b, o),
    ensures
        ({
            let out = taker_out(b, o, limit);
            &&& trades_qty_sum(out.trades) == o.quantity - out.rem
            &&& traded_qty(out.trades, o.id) == o.quantity - out.rem
            &&& 0 <= out.rem <= o.quantity
        }),
{
    crate::preserve::lemma_taker_walk_pre(b, o);
    crate::lemmas::lemma_match_book_shape(
        o,
        o.remaining_quantity as int,
        b.next_trade_id,
        side_levels(b, opposite(o.side)),
        limit,
        opposite(o.side),
    );
    crate::lemmas::lemma_match_book_sums(
        o,
        o.remaining_quantity as int,
        b.next_trade_id,
        side_levels(b, opposite(o.side)),
        limit,
        opposite(o.side),
    );
}

/// The book never crosses: every bid price is strictly below every ask
/// price.
pub proof fn lemma_non_crossed(b: BookView)
    requires
        inv(b),
    ensures
        forall|i: int, j: int|
            0 <= i < b.buys.len() && 0 <= j < b.sells.len() ==> (#[trigger] b.buys[i]).price < (
            #[trigger] b.sells[j]).price,
{
    assert forall|i: int, j: int|
        0 <= i < b.buys.len() && 0 <= j < b.sells.len() implies (#[trigger] b.buys[i]).price < (
    #[trigger] b.sells[j]).price by {
        assert(b.buys[0].price < b.sells[0].price);
        if i > 0 {
            assert(crate::model::better(OrderSide::Buy, b.buys[0].price, b.buys[i].price));
        }
        if j > 0 {
            assert(crate::model::better(OrderSide::Sell, b.sells[0].price, b.sells[j].price));
        }
    }
}

/// Trade ids are strictly increasing in the log, starting at 1.
pub proof fn lemma_trade_ids_monotone(b: BookView)
    requires
        inv(b),
    ensures
        forall|i: int| 0 <= i < b.trades.len() ==> (#[trigger] b.trades[i]).id == i + 1,
        forall|i: int, j: int|
            0 <= i < j < b.trades.len() ==> (#[trigger] b.trades[i]).id < (
            #[trigger] b.trades[j]).id,
        b.trades.len() > 0 ==> b.trades[0].id == 1,
{
}

/// Order ids are assigned strictly increasing, starting at 1: a submit
/// returns the current counter and advances it by one, so consecutive
/// submits receive consecutive ids.
pub proof fn lemma_order_ids_monotone(
    b: BookView,
    side1: OrderSide,
    order_type1: OrderType,
    price1: Option<u64>,
    quantity1: u64,
    timestamp1: u64,
    symbol1: Option<String>,
)
    requires
        inv(b),
    ensures
        1 <= b.next_order_id,
        book_submit(b, side1, order_type1, price1, quantity1, timestamp1, symbol1).next_order_id
            == b.next_order_id + 1,
        empty_book().next_order_id == 1,
{
    let b1 = BookView {
        next_order_id: b.next_order_id + 1,
        orders_processed: b.orders_processed + 1,
        ..b
    };
    let o = crate::model::make_order(
        (b.next_order_id as u64),
        side1,
        order_type1,
        price1,
        quantity1,
        timestamp1,
        symbol1,
    );
    assert(crate::model::apply_order(b1, o).next_order_id == b1.next_order_id);
}

/// The index is exact: an id is indexed iff an order with that id — and
/// it has positive remaining quantity — rests in the book, and the entry
/// names its side and its level's price.
pub proof fn lemma_index_exact(b: BookView)
    requires
        inv(b),
    ensures
        forall|id: u64| b.index.contains_key(id) <==> has_order(all_resting(b), id),
        forall|i: int|
            0 <= i < all_resting(b).len() ==> {
                let o = #[trigger] all_resting(b)[i];
                &&& 0 < o.remaining_quantity
                &&& b.index.contains_key(o.id)
                &&& b.index[o.id] == (o.side, limit_price(o))
            },
{
    crate::preserve::lemma_all_resting_parts(b);
    lemma_flat_order_ok(b.buys, OrderSide::Buy);
    lemma_flat_order_ok(b.sells, OrderSide::Sell);
    assert forall|i: int| 0 <= i < all_resting(b).len() implies 0 < (
    #[trigger] all_resting(b)[i]).remaining_quantity by {
        if i < flat(b.buys).len() {
            assert(all_resting(b)[i] == flat(b.buys)[i]);
        } else {
            assert(all_resting(b)[i] == flat(b.sells)[i - flat(b.buys).len()]);
        }
    }
}

/// No empty levels: every retained level holds at least one order, and
/// every resting order has positive remaining quantity.
pub proof fn lemma_no_empty_levels(b: BookView)
    requires
        inv(b),
    ensures
        forall|i: int| 0 <= i < b.buys.len() ==> 0 < (#[trigger] b.buys[i]).orders.len(),
        forall|i: int| 0 <= i < b.sells.len() ==> 0 < (#[trigger] b.sells[i]).orders.len(),
        forall|i: int, j: int|
            0 <= i < b.buys.len() && 0 <= j < (#[trigger] b.buys[i]).orders.len() ==> 0 < (
            #[trigger] b.buys[i].orders[j]).remaining_quantity,
        forall|i: int, j: int|
            0 <= i < b.sells.len() && 0 <= j < (#[trigger] b.sells[i]).orders.len() ==> 0 < (
            #[trigger] b.sells[i].orders[j]).remaining_quantity,
{
    assert(forall|i: int|
        0 <= i < b.buys.len() ==> crate::model::level_ok(#[trigger] b.buys[i], OrderSide::Buy));
    assert(forall|i: int|
        0 <= i < b.sells.len() ==> crate::model::level_ok(
            #[trigger] b.sells[i],
            OrderSide::Sell,
        ));
}

/// Aggregate consistency: every level's cached aggregate equals the sum
/// of its orders' remaining quantities.
pub proof fn lemma_aggregate_consistency(book: &OrderBook)
    requires
        book.wf(),
    ensures
        forall|i: int|
            0 <= i < book.buy_price_levels@.len() ==> (
            #[trigger] book.buy_price_levels@[i]).total_quantity_cache == sum_remaining(
                book.buy_price_levels@[i].orders@,
            ),
        forall|i: int|
            0 <= i < book.sell_price_levels@.len() ==> (
            #[trigger] book.sell_price_levels@[i]).total_quantity_cache == sum_remaining(
                book.sell_price_levels@[i].orders@,
            ),
{
    assert(caches_ok(book.buy_price_levels@));
    assert(caches_ok(book.sell_price_levels@));
}

/// Price-time priority and maker pricing: the `k`-th trade a submit
/// emits consumes exactly the `k`-th resting order of the opposite
/// side's best-first, FIFO-within-level flattening, executes at that
/// order's level price, and carries the `k`-th consecutive trade id.
pub proof fn lemma_price_time_priority(b: BookView, o: Order, limit: Option<u64>)
    requires
        inv(b),
        fresh_taker(b, o),
    ensures
        ({
            let opp = side_levels(b, opposite(o.side));
            let out = taker_out(b, o, limit);
            forall|k: int|
                0 <= k < out.trades.len() ==> {
                    let t = #[trigger] out.trades[k];
                    &&& k < flat(opp).len()
                    &&& maker_id(t, o.side) == flat(opp)[k].id
                    &&& t.price == level_price_at(opp, k)
                    &&& t.id == b.next_trade_id + k
                    &&& 0 < t.quantity
                    &&& crate::model::crosses(o.side, t.price, limit)
                }
        }),
{
    let opp = side_levels(b, opposite(o.side));
    let out = taker_out(b, o, limit);
    crate::preserve::lemma_taker_walk_pre(b, o);
    assert forall|k: int| 0 <= k < out.trades.len() implies {
        let t = #[trigger] out.trades[k];
        &&& k < flat(opp).len()
        &&& maker_id(t, o.side) == flat(opp)[k].id
        &&& t.price == level_price_at(opp, k)
        &&& t.id == b.next_trade_id + k
        &&& 0 < t.quantity
        &&& crate::model::crosses(o.side, t.price, limit)
    } by {
        crate::lemmas::lemma_match_book_trades_at(
            o,
            o.remaining_quantity as int,
            b.next_trade_id,
            opp,
            limit,
            opposite(o.side),
            k,
        );
    }
}

/// Market orders never rest: every order standing in either side book is
/// a limit order.
pub proof fn lemma_no_market_rests(b: BookView)
    requires
        inv(b),
    ensures
        forall|i: int|
            0 <= i < all_resting(b).len() ==> (#[trigger] all_resting(b)[i]).order_type
                == OrderType::Limit,
{
    crate::preserve::lemma_all_resting_parts(b);
    lemma_flat_order_ok(b.buys, OrderSide::Buy);
    lemma_flat_order_ok(b.sells, OrderSide::Sell);
    assert forall|i: int| 0 <= i < all_resting(b).len() implies (
    #[trigger] all_resting(b)[i]).order_type == OrderType::Limit by {
        if i < flat(b.buys).len() {
            assert(all_resting(b)[i] == flat(b.buys)[i]);
        } else {
            assert(all_resting(b)[i] == flat(b.sells)[i - flat(b.buys).len()]);
        }
    }
}

/// Cancel idempotence: a cancel unindexes the id, so a second cancel of
/// the same id finds nothing and leaves the book exactly as it was.
pub proof fn lemma_cancel_idempotent(b: BookView, id: u64)
    requires
        inv(b),
    ensures
        !book_cancel(b, id).index.contains_key(id),
        book_cancel(book_cancel(b, id), id) == book_cancel(b, id),
{
    let b2 = book_cancel(b, id);
    if b.index.contains_key(id) {
        let (side, price) = b.index[id];
        assert(b2.index == b.index.remove(id));
    }
    assert(!b2.index.contains_key(id));
}

} // verus!
