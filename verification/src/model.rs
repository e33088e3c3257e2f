//! The mathematical model of the order book and of matching.
//!
//! The executable engine's contracts say that each call turns the
//! abstract book state (`BookView`) into exactly what the functions here
//! compute. All book-level properties are proved about this model.

use vstd::prelude::*;
use crate::order::{Order, OrderSide, OrderStatus, OrderType, Trade};
use crate::level::sum_remaining;

verus! {

/// Abstract state of one price level: its price and its FIFO queue.
#[verifier::ext_equal]
pub ghost struct LevelSnap {
    pub price: u64,
    pub orders: Seq<Order>,
}

/// Abstract state of the whole engine.
#[verifier::ext_equal]
pub ghost struct BookView {
    /// Buy levels, best (highest price) first.
    pub buys: Seq<LevelSnap>,
    /// Sell levels, best (lowest price) first.
    pub sells: Seq<LevelSnap>,
    /// Order id -> (side, price) for every resting order.
    pub index: Map<u64, (OrderSide, u64)>,
    pub next_order_id: int,
    pub next_trade_id: int,
    /// The trade log, in emission order.
    pub trades: Seq<Trade>,
    pub orders_processed: int,
    pub trades_executed: int,
}

/// The side a taker matches against.
pub open spec fn opposite(side: OrderSide) -> OrderSide {
    match side {
        OrderSide::Buy => OrderSide::Sell,
        OrderSide::Sell => OrderSide::Buy,
    }
}

/// Strictly better price from the point of view of the given side's book:
/// buys iterate descending, sells ascending.
pub open spec fn better(side: OrderSide, a: u64, b: u64) -> bool {
    match side {
        OrderSide::Buy => a > b,
        OrderSide::Sell => a < b,
    }
}

/// Whether a resting level at `level_price` crosses a taker bounded by
/// `limit` (`None` for a market order, which crosses everything).
/// Equality crosses.
pub open spec fn crosses(taker_side: OrderSide, level_price: u64, limit: Option<u64>) -> bool {
    match limit {
        Option::None => true,
        Option::Some(p) => match taker_side {
            OrderSide::Buy => level_price <= p,
            OrderSide::Sell => level_price >= p,
        },
    }
}

/// The limit price of an order, defaulting to 0 for a market order.
pub open spec fn limit_price(o: Order) -> u64 {
    match o.price {
        Option::Some(p) => p,
        Option::None => 0,
    }
}

/// The status an order has after its cumulative fill reaches `filled`
/// out of `quantity`, per the fill transitions.
pub open spec fn fill_status(filled: int, quantity: int, prev: OrderStatus) -> OrderStatus {
    if filled >= quantity {
        OrderStatus::Filled
    } else if filled > 0 {
        OrderStatus::PartiallyFilled
    } else {
        prev
    }
}

/// A maker after `q` more ticks of it have been filled.
pub open spec fn fill_maker(o: Order, q: int) -> Order {
    Order {
        filled_quantity: (o.filled_quantity + q) as u64,
        remaining_quantity: (o.remaining_quantity - q) as u64,
        status: fill_status(o.filled_quantity + q, o.quantity as int, o.status),
        ..o
    }
}

/// First non-empty symbol of (taker, maker).
pub open spec fn trade_symbol(taker: Option<String>, maker: Option<String>) -> Option<String> {
    if taker is Some {
        taker
    } else {
        maker
    }
}

/// The trade emitted when `taker` consumes `q` ticks of `maker` at the
/// maker's level price.
pub open spec fn mk_trade(tid: int, taker: Order, maker: Order, price: u64, q: int) -> Trade {
    Trade {
        id: tid as u64,
        buy_order_id: if taker.side == OrderSide::Buy {
            taker.id
        } else {
            maker.id
        },
        sell_order_id: if taker.side == OrderSide::Buy {
            maker.id
        } else {
            taker.id
        },
        price,
        quantity: q as u64,
        timestamp: if taker.timestamp >= maker.timestamp {
            taker.timestamp
        } else {
            maker.timestamp
        },
        symbol: trade_symbol(taker.symbol, maker.symbol),
    }
}

/// Outcome of walking one level's FIFO queue.
#[verifier::ext_equal]
pub ghost struct LevelMatch {
    /// The orders still resting at the level afterwards.
    pub kept: Seq<Order>,
    /// The trades emitted, in emission order.
    pub trades: Seq<Trade>,
    /// Ids of makers filled to zero, in removal order.
    pub removed: Seq<u64>,
    /// The taker's remaining quantity afterwards.
    pub rem: int,
}

/// Outcome of walking a side book best-first.
#[verifier::ext_equal]
pub ghost struct BookMatch {
    /// The side book afterwards (empty levels dropped).
    pub levels: Seq<LevelSnap>,
    pub trades: Seq<Trade>,
    pub removed: Seq<u64>,
    pub rem: int,
}

/// Match a taker holding `rem` ticks against one level's queue in FIFO
/// order. `tid` is the id the next emitted trade gets.
pub open spec fn match_level(taker: Order, rem: int, tid: int, price: u64, orders: Seq<Order>)
    -> LevelMatch
    decreases orders.len(),
{
    if rem <= 0 || orders.len() == 0 {
        LevelMatch { kept: orders, trades: Seq::empty(), removed: Seq::empty(), rem }
    } else {
        let maker = orders[0];
        let q = if rem <= maker.remaining_quantity {
            rem
        } else {
            maker.remaining_quantity as int
        };
        let t = mk_trade(tid, taker, maker, price, q);
        let sub = match_level(taker, rem - q, tid + 1, price, orders.drop_first());
        if maker.remaining_quantity <= q {
            LevelMatch {
                kept: sub.kept,
                trades: seq![t] + sub.trades,
                removed: seq![maker.id] + sub.removed,
                rem: sub.rem,
            }
        } else {
            LevelMatch {
                kept: seq![fill_maker(maker, q)] + sub.kept,
                trades: seq![t] + sub.trades,
                removed: sub.removed,
                rem: sub.rem,
            }
        }
    }
}

/// Match a taker against a side book, best level first, stopping when the
/// taker is exhausted or the next level no longer crosses.
pub open spec fn match_book(
    taker: Order,
    rem: int,
    tid: int,
    levels: Seq<LevelSnap>,
    limit: Option<u64>,
) -> BookMatch
    decreases levels.len(),
{
    if rem <= 0 || levels.len() == 0 || !crosses(taker.side, levels[0].price, limit) {
        BookMatch { levels, trades: Seq::empty(), removed: Seq::empty(), rem }
    } else {
        let lm = match_level(taker, rem, tid, levels[0].price, levels[0].orders);
        let sub = match_book(
            taker,
            lm.rem,
            tid + lm.trades.len(),
            levels.drop_first(),
            limit,
        );
        BookMatch {
            levels: if lm.kept.len() > 0 {
                seq![LevelSnap { price: levels[0].price, orders: lm.kept }] + sub.levels
            } else {
                sub.levels
            },
            trades: lm.trades + sub.trades,
            removed: lm.removed + sub.removed,
            rem: sub.rem,
        }
    }
}

/// Insert a residual limit order into its own side book: append to the
/// FIFO tail of its price's level, creating the level in (best-first)
/// price position when absent.
pub open spec fn insert_resting(levels: Seq<LevelSnap>, side: OrderSide, o: Order)
    -> Seq<LevelSnap>
    decreases levels.len(),
{
    let p = limit_price(o);
    if levels.len() == 0 {
        seq![LevelSnap { price: p, orders: seq![o] }]
    } else if levels[0].price == p {
        seq![LevelSnap { price: p, orders: levels[0].orders.push(o) }] + levels.drop_first()
    } else if better(side, p, levels[0].price) {
        seq![LevelSnap { price: p, orders: seq![o] }] + levels
    } else {
        seq![levels[0]] + insert_resting(levels.drop_first(), side, o)
    }
}

/// Remove a set of keys from the index, in order.
pub open spec fn remove_ids(m: Map<u64, (OrderSide, u64)>, ids: Seq<u64>)
    -> Map<u64, (OrderSide, u64)>
    decreases ids.len(),
{
    if ids.len() == 0 {
        m
    } else {
        remove_ids(m.remove(ids[0]), ids.drop_first())
    }
}

/// The levels of the given side of the book.
pub open spec fn side_levels(b: BookView, side: OrderSide) -> Seq<LevelSnap> {
    match side {
        OrderSide::Buy => b.buys,
        OrderSide::Sell => b.sells,
    }
}

/// Replace the levels of the given side.
pub open spec fn with_side_levels(b: BookView, side: OrderSide, ls: Seq<LevelSnap>) -> BookView {
    match side {
        OrderSide::Buy => BookView { buys: ls, ..b },
        OrderSide::Sell => BookView { sells: ls, ..b },
    }
}

/// The book after a taker on `taker_side` matched with outcome `out`.
pub open spec fn book_after_match(b: BookView, taker_side: OrderSide, out: BookMatch)
    -> BookView {
    let b1 = with_side_levels(b, opposite(taker_side), out.levels);
    BookView {
        index: remove_ids(b.index, out.removed),
        next_trade_id: b.next_trade_id + out.trades.len(),
        trades: b.trades + out.trades,
        trades_executed: b.trades_executed + out.trades.len(),
        ..b1
    }
}

/// Process a market order against the book. The order never rests: any
/// residue is discarded.
pub open spec fn apply_market(b: BookView, o: Order) -> BookView {
    let out = match_book(
        o,
        o.remaining_quantity as int,
        b.next_trade_id,
        side_levels(b, opposite(o.side)),
        Option::None,
    );
    book_after_match(b, o.side, out)
}

/// The residual resting form of a limit order that matched down to `rem`.
pub open spec fn resting_residue(o: Order, rem: int) -> Order {
    Order {
        filled_quantity: (o.quantity - rem) as u64,
        remaining_quantity: rem as u64,
        status: if o.quantity - rem > 0 {
            OrderStatus::PartiallyFilled
        } else {
            OrderStatus::New
        },
        ..o
    }
}

/// Process a limit order: match against the opposite side up to the limit
/// price, then rest any residue in the own side book and index it.
pub open spec fn apply_limit(b: BookView, o: Order) -> BookView {
    let p = limit_price(o);
    let out = match_book(
        o,
        o.remaining_quantity as int,
        b.next_trade_id,
        side_levels(b, opposite(o.side)),
        Option::Some(p),
    );
    let b1 = book_after_match(b, o.side, out);
    if out.rem > 0 {
        let r = resting_residue(o, out.rem);
        let b2 = with_side_levels(b1, o.side, insert_resting(side_levels(b1, o.side), o.side, r));
        BookView { index: b2.index.insert(o.id, (o.side, p)), ..b2 }
    } else {
        b1
    }
}

/// Process one already-created order.
pub open spec fn apply_order(b: BookView, o: Order) -> BookView {
    if o.order_type == OrderType::Market {
        apply_market(b, o)
    } else {
        apply_limit(b, o)
    }
}

/// A freshly created order, before any matching.
pub open spec fn make_order(
    id: u64,
    side: OrderSide,
    order_type: OrderType,
    price: Option<u64>,
    quantity: u64,
    timestamp: u64,
    symbol: Option<String>,
) -> Order {
    Order {
        id,
        side,
        order_type,
        price,
        quantity,
        filled_quantity: 0,
        status: OrderStatus::New,
        timestamp,
        symbol,
        remaining_quantity: quantity,
    }
}

/// Whether a submission's arguments are acceptable: positive quantity, a
/// positive price exactly for limit orders.
pub open spec fn valid_submission(order_type: OrderType, price: Option<u64>, quantity: u64)
    -> bool {
    quantity > 0 && match order_type {
        OrderType::Market => price is None,
        OrderType::Limit => match price {
            Option::Some(p) => p > 0,
            Option::None => false,
        },
    }
}

/// A full submit: assign the next order id, bump the counters, then
/// process the order.
pub open spec fn book_submit(
    b: BookView,
    side: OrderSide,
    order_type: OrderType,
    price: Option<u64>,
    quantity: u64,
    timestamp: u64,
    symbol: Option<String>,
) -> BookView {
    let o = make_order((b.next_order_id as u64), side, order_type, price, quantity, timestamp,
        symbol);
    let b1 = BookView {
        next_order_id: b.next_order_id + 1,
        orders_processed: b.orders_processed + 1,
        ..b
    };
    apply_order(b1, o)
}

/// Process a run of already-created orders, in order.
pub open spec fn apply_seq(b: BookView, s: Seq<Order>) -> BookView
    decreases s.len(),
{
    if s.len() == 0 {
        b
    } else {
        apply_seq(apply_order(b, s[0]), s.drop_first())
    }
}

/// Remove the order with the given id from the level with the given
/// price, dropping the level when it empties.
pub open spec fn remove_resting(levels: Seq<LevelSnap>, price: u64, id: u64) -> Seq<LevelSnap>
    decreases levels.len(),
{
    if levels.len() == 0 {
        levels
    } else if levels[0].price == price {
        let rest = crate::level::find_order(levels[0].orders, id);
        let kept = levels[0].orders.remove(rest);
        if kept.len() == 0 {
            levels.drop_first()
        } else {
            seq![LevelSnap { price, orders: kept }] + levels.drop_first()
        }
    } else {
        seq![levels[0]] + remove_resting(levels.drop_first(), price, id)
    }
}

/// Cancel: when the id is indexed, remove the order from its level and
/// unindex it; otherwise leave the book unchanged.
pub open spec fn book_cancel(b: BookView, id: u64) -> BookView {
    if b.index.contains_key(id) {
        let (side, price) = b.index[id];
        let b1 = with_side_levels(b, side, remove_resting(side_levels(b, side), price, id));
        BookView { index: b1.index.remove(id), ..b1 }
    } else {
        b
    }
}

// ---------------------------------------------------------------------
// The book invariant.
// ---------------------------------------------------------------------

/// What holds of every order resting on `side` at price `price`: a limit
/// order of that side and price, partially unfilled, with a consistent
/// fill accounting and a status that reflects it.
pub open spec fn order_ok(o: Order, side: OrderSide, price: u64) -> bool {
    &&& o.side == side
    &&& o.order_type == OrderType::Limit
    &&& o.price == Option::Some(price)
    &&& 1 <= o.id
    &&& 0 < o.quantity
    &&& 0 < o.remaining_quantity
    &&& o.filled_quantity + o.remaining_quantity == o.quantity
    &&& o.status == (if o.filled_quantity == 0 {
        OrderStatus::New
    } else {
        OrderStatus::PartiallyFilled
    })
}

/// A retained level has a positive price and at least one resting order,
/// all of them fitting the level.
pub open spec fn level_ok(l: LevelSnap, side: OrderSide) -> bool {
    &&& 0 < l.price
    &&& 0 < l.orders.len()
    &&& forall|i: int| 0 <= i < l.orders.len() ==> order_ok(#[trigger] l.orders[i], side, l.price)
}

/// A side book: retained levels only, strictly best-first.
pub open spec fn side_ok(ls: Seq<LevelSnap>, side: OrderSide) -> bool {
    &&& forall|i: int| 0 <= i < ls.len() ==> level_ok(#[trigger] ls[i], side)
    &&& forall|i: int, j: int|
        0 <= i < j < ls.len() ==> better(side, (#[trigger] ls[i]).price, (#[trigger] ls[j]).price)
}

/// The book never crosses: best bid strictly below best ask.
pub open spec fn uncrossed(b: BookView) -> bool {
    b.buys.len() > 0 && b.sells.len() > 0 ==> b.buys[0].price < b.sells[0].price
}

/// All orders of a side book, best level first, FIFO within a level.
pub open spec fn flat(ls: Seq<LevelSnap>) -> Seq<Order>
    decreases ls.len(),
{
    if ls.len() == 0 {
        Seq::empty()
    } else {
        ls[0].orders + flat(ls.drop_first())
    }
}

/// Every order resting anywhere in the book.
pub open spec fn all_resting(b: BookView) -> Seq<Order> {
    flat(b.buys) + flat(b.sells)
}

/// No two resting orders share an id.
pub open spec fn ids_unique(s: Seq<Order>) -> bool {
    forall|i: int, j: int|
        0 <= i < j < s.len() ==> (#[trigger] s[i]).id != (#[trigger] s[j]).id
}

/// Every resting order's id was assigned by this engine.
pub open spec fn ids_fresh(b: BookView) -> bool {
    forall|i: int|
        0 <= i < all_resting(b).len() ==> (#[trigger] all_resting(b)[i]).id < b.next_order_id
}

/// The index holds exactly the resting ids, each mapped to its side and
/// its level's price.
pub open spec fn index_ok(b: BookView) -> bool {
    &&& forall|i: int|
        0 <= i < all_resting(b).len() ==> {
            let o = #[trigger] all_resting(b)[i];
            b.index.contains_key(o.id) && b.index[o.id] == (o.side, limit_price(o))
        }
    &&& forall|id: u64|
        b.index.contains_key(id) ==> crate::level::has_order(all_resting(b), id)
}

/// Trade ids are consecutive from 1 in log order; every trade is sound:
/// positive quantity, engine-assigned participant ids.
pub open spec fn trades_ok(b: BookView) -> bool {
    &&& b.next_trade_id == b.trades.len() + 1
    &&& forall|i: int|
        0 <= i < b.trades.len() ==> {
            let t = #[trigger] b.trades[i];
            &&& t.id == i + 1
            &&& 0 < t.quantity
            &&& 1 <= t.buy_order_id < b.next_order_id
            &&& 1 <= t.sell_order_id < b.next_order_id
        }
}

/// Quantity the trade log has matched against the order with this id.
pub open spec fn traded_qty(ts: Seq<Trade>, id: u64) -> int
    decreases ts.len(),
{
    if ts.len() == 0 {
        0
    } else {
        (if ts[0].buy_order_id == id || ts[0].sell_order_id == id {
            ts[0].quantity as int
        } else {
            0
        }) + traded_qty(ts.drop_first(), id)
    }
}

/// Every resting order's cumulative fill equals what the trade log has
/// matched against its id.
pub open spec fn accounting_ok(b: BookView) -> bool {
    forall|i: int|
        0 <= i < all_resting(b).len() ==> {
            let o = #[trigger] all_resting(b)[i];
            traded_qty(b.trades, o.id) == o.filled_quantity
        }
}

/// Counters agree with history.
pub open spec fn counters_ok(b: BookView) -> bool {
    &&& 1 <= b.next_order_id
    &&& b.orders_processed == b.next_order_id - 1
    &&& b.trades_executed == b.trades.len()
}

/// The whole book invariant; holds after every public call.
pub open spec fn inv(b: BookView) -> bool {
    &&& side_ok(b.buys, OrderSide::Buy)
    &&& side_ok(b.sells, OrderSide::Sell)
    &&& uncrossed(b)
    &&& ids_unique(all_resting(b))
    &&& ids_fresh(b)
    &&& index_ok(b)
    &&& trades_ok(b)
    &&& counters_ok(b)
    &&& accounting_ok(b)
}

/// Total quantity resting on one side.
pub open spec fn side_depth(ls: Seq<LevelSnap>) -> int
    decreases ls.len(),
{
    if ls.len() == 0 {
        0
    } else {
        sum_remaining(ls[0].orders) + side_depth(ls.drop_first())
    }
}

/// Total quantity resting in the whole book.
pub open spec fn book_depth(b: BookView) -> int {
    side_depth(b.buys) + side_depth(b.sells)
}

/// Two orders agreeing on everything but their fill state.
pub open spec fn same_terms(a: Order, b: Order) -> bool {
    &&& a.id == b.id
    &&& a.side == b.side
    &&& a.order_type == b.order_type
    &&& a.price == b.price
    &&& a.quantity == b.quantity
    &&& a.timestamp == b.timestamp
    &&& a.symbol == b.symbol
}

/// The ids of a queue of orders, in order.
pub open spec fn ids_of(s: Seq<Order>) -> Seq<u64> {
    s.map_values(|o: Order| o.id)
}

/// Total quantity of a run of trades.
pub open spec fn trades_qty_sum(ts: Seq<Trade>) -> int
    decreases ts.len(),
{
    if ts.len() == 0 {
        0
    } else {
        ts[0].quantity + trades_qty_sum(ts.drop_first())
    }
}

/// The price of the level that holds the `k`-th order of the side book's
/// best-first, FIFO-within-level flattening.
pub open spec fn level_price_at(ls: Seq<LevelSnap>, k: int) -> u64
    decreases ls.len(),
{
    if ls.len() == 0 {
        0
    } else if k < ls[0].orders.len() {
        ls[0].price
    } else {
        level_price_at(ls.drop_first(), k - ls[0].orders.len())
    }
}

/// The id of the maker (resting order) of a trade, given the taker side.
pub open spec fn maker_id(t: Trade, taker_side: OrderSide) -> u64 {
    match taker_side {
        OrderSide::Buy => t.sell_order_id,
        OrderSide::Sell => t.buy_order_id,
    }
}

/// The empty book.
pub open spec fn empty_book() -> BookView {
    BookView {
        buys: Seq::empty(),
        sells: Seq::empty(),
        index: Map::empty(),
        next_order_id: 1,
        next_trade_id: 1,
        trades: Seq::empty(),
        orders_processed: 0,
        trades_executed: 0,
    }
}

} // verus!
