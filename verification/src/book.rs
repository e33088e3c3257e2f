//! The matching engine: two side books, the order index, the id
//! counters, and the trade log, with the matching and cancel paths.

use vstd::prelude::*;
use std::collections::HashMap;
use crate::order::{EngineError, Order, OrderBookStats, OrderSide, OrderStatus, OrderType, Trade};
use crate::level::{sum_remaining, PriceLevel};
use crate::model::{
    all_resting, apply_market, book_after_match, book_cancel, book_submit, better, crosses,
    empty_book, flat, inv, insert_resting, limit_price, make_order, match_book, match_level,
    mk_trade, opposite, remove_ids, remove_resting, resting_residue, side_levels, same_terms,
    side_ok, valid_submission, BookView, LevelSnap,
};

verus! {

broadcast use vstd::std_specs::hash::group_hash_axioms;

/// Abstract view of a vector of price levels.
pub open spec fn levels_view(s: Seq<PriceLevel>) -> Seq<LevelSnap> {
    s.map_values(|l: PriceLevel| LevelSnap { price: l.price, orders: l.orders@ })
}

/// Every level's cached aggregate agrees with its queue.
pub open spec fn caches_ok(s: Seq<PriceLevel>) -> bool {
    forall|i: int| 0 <= i < s.len() ==> (#[trigger] s[i]).cache_ok()
}

/// The order book: price levels per side (kept sorted best-first), the
/// id index used by cancel, the id counters, and the trade log.
#[derive(Debug)]
pub struct OrderBook {
    pub buy_price_levels: Vec<PriceLevel>,
    pub sell_price_levels: Vec<PriceLevel>,
    pub orders_by_id: HashMap<u64, (OrderSide, u64)>,
    pub next_order_id: u64,
    pub next_trade_id: u64,
    pub trades: Vec<Trade>,
    pub stats: OrderBookStats,
}

impl View for OrderBook {
    type V = BookView;

    open spec fn view(&self) -> BookView {
        BookView {
            buys: levels_view(self.buy_price_levels@),
            sells: levels_view(self.sell_price_levels@),
            index: self.orders_by_id@,
            next_order_id: self.next_order_id as int,
            next_trade_id: self.next_trade_id as int,
            trades: self.trades@,
            orders_processed: self.stats.orders_processed as int,
            trades_executed: self.stats.trades_executed as int,
        }
    }
}

impl OrderBook {
    /// The engine's well-formedness: the model invariant plus exact
    /// aggregate caches.
    pub open spec fn wf(&self) -> bool {
        &&& inv(self@)
        &&& caches_ok(self.buy_price_levels@)
        &&& caches_ok(self.sell_price_levels@)
    }

    /// A new, empty engine; both id counters start at 1.
    pub fn new() -> (r: OrderBook)
        ensures
            r@ == empty_book(),
            r.wf(),
    {
        let r = OrderBook {
            buy_price_levels: Vec::new(),
            sell_price_levels: Vec::new(),
            orders_by_id: HashMap::new(),
            next_order_id: 1,
            next_trade_id: 1,
            trades: Vec::new(),
            stats: OrderBookStats { orders_processed: 0, trades_executed: 0 },
        };
        proof {
            assert(levels_view(r.buy_price_levels@) =~= Seq::<LevelSnap>::empty());
            assert(levels_view(r.sell_price_levels@) =~= Seq::<LevelSnap>::empty());
            assert(r@ =~= empty_book());
            assert(flat(Seq::<LevelSnap>::empty()) =~= Seq::<Order>::empty());
            assert(all_resting(r@) =~= Seq::<Order>::empty());
        }
        r
    }

    /// Depth snapshot: one `(price, aggregate quantity)` entry per
    /// retained level, bids best (highest) first, asks best (lowest)
    /// first.
    pub fn get_order_book_snapshot(&self) -> (r: (Vec<(u64, u64)>, Vec<(u64, u64)>))
        requires
            self.wf(),
        ensures
            r.0@.len() == self@.buys.len(),
            forall|i: int|
                0 <= i < r.0@.len() ==> #[trigger] r.0@[i] == (
                    self@.buys[i].price,
                    sum_remaining(self@.buys[i].orders) as u64,
                ),
            r.1@.len() == self@.sells.len(),
            forall|i: int|
                0 <= i < r.1@.len() ==> #[trigger] r.1@[i] == (
                    self@.sells[i].price,
                    sum_remaining(self@.sells[i].orders) as u64,
                ),
    {
        let mut bids: Vec<(u64, u64)> = Vec::new();
        let mut i: usize = 0;
        #[verifier::loop_isolation(false)]
        while i < self.buy_price_levels.len()
            invariant
                0 <= i <= self.buy_price_levels.len(),
                bids@.len() == i,
                forall|j: int|
                    0 <= j < i ==> #[trigger] bids@[j] == (
                        self@.buys[j].price,
                        sum_remaining(self@.buys[j].orders) as u64,
                    ),
            decreases self.buy_price_levels.len() - i,
        {
            let l = &self.buy_price_levels[i];
            bids.push((l.price, l.total_quantity_cache));
            i = i + 1;
        }
        let mut asks: Vec<(u64, u64)> = Vec::new();
        let mut k: usize = 0;
        #[verifier::loop_isolation(false)]
        while k < self.sell_price_levels.len()
            invariant
                0 <= k <= self.sell_price_levels.len(),
                asks@.len() == k,
                forall|j: int|
                    0 <= j < k ==> #[trigger] asks@[j] == (
                        self@.sells[j].price,
                        sum_remaining(self@.sells[j].orders) as u64,
                    ),
            decreases self.sell_price_levels.len() - k,
        {
            let l = &self.sell_price_levels[k];
            asks.push((l.price, l.total_quantity_cache));
            k = k + 1;
        }
        (bids, asks)
    }

    /// The trade log in emission order; with a limit, its last `limit`
    /// entries.
    pub fn get_trades(&self, limit: Option<usize>) -> (r: Vec<Trade>)
        ensures
            r@ == trades_suffix(self@.trades, limit),
    {
        let start: usize = match limit {
            Option::Some(l) => {
                if self.trades.len() >= l {
                    self.trades.len() - l
                } else {
                    0
                }
            },
            Option::None => 0,
        };
        let mut out: Vec<Trade> = Vec::new();
        let mut i: usize = start;
        #[verifier::loop_isolation(false)]
        while i < self.trades.len()
            invariant
                start <= i <= self.trades.len(),
                out@ =~= self.trades@.subrange(start as int, i as int),
            decreases self.trades.len() - i,
        {
            out.push(self.trades[i].clone());
            i = i + 1;
        }
        proof {
            assert(out@ =~= self@.trades.skip(start as int));
        }
        out
    }

    /// Counters: orders processed and trades executed so far.
    pub fn get_statistics(&self) -> (r: OrderBookStats)
        ensures
            r.orders_processed == self@.orders_processed,
            r.trades_executed == self@.trades_executed,
    {
        self.stats
    }
}

/// First non-empty symbol of (taker, maker), cloned for the trade.
fn first_symbol(a: &Option<String>, b: &Option<String>) -> (r: Option<String>)
    ensures
        r == crate::model::trade_symbol(*a, *b),
{
    match a {
        Option::Some(s) => Option::Some(s.clone()),
        Option::None => match b {
            Option::Some(s) => Option::Some(s.clone()),
            Option::None => Option::None,
        },
    }
}

/// Whether the front level of a side book exists and crosses the taker's
/// bound.
fn has_crossing_level(levels: &Vec<PriceLevel>, side: OrderSide, limit: Option<u64>) -> (r: bool)
    ensures
        r == (levels@.len() > 0 && crosses(side, levels_view(levels@)[0].price, limit)),
{
    if levels.len() == 0 {
        return false;
    }
    let lp = levels[0].price;
    match limit {
        Option::None => true,
        Option::Some(p) => match side {
            OrderSide::Buy => lp <= p,
            OrderSide::Sell => lp >= p,
        },
    }
}

/// Removing one more id removes it from the already-shrunk index.
proof fn lemma_remove_ids_push(m: Map<u64, (OrderSide, u64)>, s: Seq<u64>, x: u64)
    ensures
        remove_ids(m, s.push(x)) == remove_ids(m, s).remove(x),
    decreases s.len(),
{
    if s.len() == 0 {
        assert(s.push(x)[0] == x);
        assert(s.push(x).drop_first() =~= Seq::<u64>::empty());
        assert(remove_ids(m.remove(x), Seq::<u64>::empty()) == m.remove(x));
    } else {
        assert(s.push(x)[0] == s[0]);
        assert(s.push(x).drop_first() =~= s.drop_first().push(x));
        lemma_remove_ids_push(m.remove(s[0]), s.drop_first(), x);
    }
}

/// Walk the opposite side book with a taker: the body of both market and
/// limit matching. `limit` is the taker's price bound, `None` for a
/// market order. Afterwards the state is exactly what `match_book` says.
#[verifier::loop_isolation(false)]
fn match_levels(
    levels: &mut Vec<PriceLevel>,
    idx: &mut HashMap<u64, (OrderSide, u64)>,
    trades: &mut Vec<Trade>,
    next_trade_id: &mut u64,
    taker: &mut Order,
    limit: Option<u64>,
)
    requires
        side_ok(levels_view(old(levels)@), opposite(old(taker).side)),
        caches_ok(old(levels)@),
        old(taker).filled_quantity + old(taker).remaining_quantity == old(taker).quantity,
        *old(next_trade_id) + old(taker).remaining_quantity <= u64::MAX,
    ensures
        ({
            let out = match_book(
                *old(taker),
                old(taker).remaining_quantity as int,
                *old(next_trade_id) as int,
                levels_view(old(levels)@),
                limit,
            );
            &&& levels_view(final(levels)@) == out.levels
            &&& final(trades)@ == old(trades)@ + out.trades
            &&& final(idx)@ == remove_ids(old(idx)@, out.removed)
            &&& *final(next_trade_id) == *old(next_trade_id) + out.trades.len()
            &&& same_terms(*final(taker), *old(taker))
            &&& final(taker).remaining_quantity == out.rem
            &&& final(taker).filled_quantity == old(taker).quantity - out.rem
            &&& final(taker).status == old(taker).status
            &&& caches_ok(final(levels)@)
        }),
{
    let ghost taker0 = *old(taker);
    let ghost rem0 = old(taker).remaining_quantity as int;
    let ghost tid0 = *old(next_trade_id) as int;
    let ghost levels0 = levels_view(old(levels)@);
    let ghost trades0 = old(trades)@;
    let ghost idx0 = old(idx)@;
    let ghost out = match_book(taker0, rem0, tid0, levels0, limit);
    let ghost opp = opposite(taker0.side);
    let ghost mut removed_acc: Seq<u64> = Seq::empty();
    let side = taker.side;
    while taker.remaining_quantity > 0 && has_crossing_level(levels, side, limit)
        invariant
            side_ok(levels_view(levels@), opp),
            caches_ok(levels@),
            same_terms(*taker, taker0),
            taker.status == taker0.status,
            taker.filled_quantity + taker.remaining_quantity == taker0.quantity,
            *next_trade_id + taker.remaining_quantity <= u64::MAX,
            trades@.len() >= trades0.len(),
            trades@.subrange(0, trades0.len() as int) == trades0,
            *next_trade_id == tid0 + (trades@.len() - trades0.len()),
            idx@ == remove_ids(idx0, removed_acc),
            ({
                let cur = match_book(
                    taker0,
                    taker.remaining_quantity as int,
                    *next_trade_id as int,
                    levels_view(levels@),
                    limit,
                );
                &&& out.levels == cur.levels
                &&& out.trades == trades@.skip(trades0.len() as int) + cur.trades
                &&& out.removed == removed_acc + cur.removed
                &&& out.rem == cur.rem
            }),
        decreases levels@.len(), taker.remaining_quantity,
    {
        let lp = levels[0].price;
        // Snapshot of the state at entry to this level.
        let ghost lv_levels = levels_view(levels@);
        let ghost lv_rem = taker.remaining_quantity as int;
        let ghost lv_tid = *next_trade_id as int;
        let ghost lv_trades = trades@;
        let ghost lv_removed = removed_acc;
        let ghost lv_idx = idx@;
        let ghost lm = match_level(taker0, lv_rem, lv_tid, lp, lv_levels[0].orders);
        let mut lvl = levels.remove(0);
        proof {
            assert(levels_view(levels@) =~= lv_levels.drop_first());
            assert(lv_levels[0].orders == lvl.orders@);
        }
        let ghost in_orders = lvl.orders@;
        let ghost mut removed_inner: Seq<u64> = Seq::empty();
        while taker.remaining_quantity > 0 && lvl.orders.len() > 0
            invariant
                lvl.price == lp,
                lvl.cache_ok(),
                forall|i: int|
                    0 <= i < lvl.orders@.len() ==> crate::model::order_ok(
                        #[trigger] lvl.orders@[i],
                        opp,
                        lp,
                    ),
                same_terms(*taker, taker0),
                taker.status == taker0.status,
                taker.filled_quantity + taker.remaining_quantity == taker0.quantity,
                *next_trade_id + taker.remaining_quantity <= u64::MAX,
                trades@.len() >= lv_trades.len(),
                trades@.subrange(0, lv_trades.len() as int) == lv_trades,
                *next_trade_id == lv_tid + (trades@.len() - lv_trades.len()),
                idx@ == remove_ids(lv_idx, removed_inner),
                ({
                    let c = match_level(
                        taker0,
                        taker.remaining_quantity as int,
                        *next_trade_id as int,
                        lp,
                        lvl.orders@,
                    );
                    &&& lm.kept == c.kept
                    &&& lm.trades == trades@.skip(lv_trades.len() as int) + c.trades
                    &&& lm.removed == removed_inner + c.removed
                    &&& lm.rem == c.rem
                }),
            decreases lvl.orders@.len(), taker.remaining_quantity,
        {
            let ghost it_orders = lvl.orders@;
            let ghost it_rem = taker.remaining_quantity as int;
            let ghost it_tid = *next_trade_id as int;
            let mut mk = lvl.orders.remove(0);
            let ghost mk0 = mk;
            proof {
                assert(lvl.orders@ =~= it_orders.drop_first());
            }
            let q = if taker.remaining_quantity <= mk.remaining_quantity {
                taker.remaining_quantity
            } else {
                mk.remaining_quantity
            };
            taker.filled_quantity = taker.filled_quantity + q;
            taker.remaining_quantity = taker.remaining_quantity - q;
            mk.filled_quantity = mk.filled_quantity + q;
            mk.remaining_quantity = mk.remaining_quantity - q;
            mk.status = if mk.filled_quantity >= mk.quantity {
                OrderStatus::Filled
            } else {
                OrderStatus::PartiallyFilled
            };
            let t = Trade {
                id: *next_trade_id,
                buy_order_id: if taker.side == OrderSide::Buy {
                    taker.id
                } else {
                    mk.id
                },
                sell_order_id: if taker.side == OrderSide::Buy {
                    mk.id
                } else {
                    taker.id
                },
                price: lp,
                quantity: q,
                timestamp: if taker.timestamp >= mk.timestamp {
                    taker.timestamp
                } else {
                    mk.timestamp
                },
                symbol: first_symbol(&taker.symbol, &mk.symbol),
            };
            proof {
                assert(t == mk_trade(it_tid, taker0, mk0, lp, q as int));
            }
            trades.push(t);
            *next_trade_id = *next_trade_id + 1;
            proof {
                crate::level::lemma_sum_remaining_bounds(it_orders, 0);
                assert(sum_remaining(it_orders)
                    == mk0.remaining_quantity + sum_remaining(it_orders.drop_first()));
                crate::level::lemma_sum_remaining_nonneg(it_orders.drop_first());
            }
            lvl.total_quantity_cache = lvl.total_quantity_cache - q;
            if mk.remaining_quantity == 0 {
                idx.remove(&mk.id);
                proof {
                    lemma_remove_ids_push(lv_idx, removed_inner, mk0.id);
                    removed_inner = removed_inner.push(mk0.id);
                }
            } else {
                lvl.orders.insert(0, mk);
                proof {
                    assert(mk == crate::model::fill_maker(mk0, q as int));
                    assert(lvl.orders@ =~= seq![mk] + it_orders.drop_first());
                    assert(lvl.orders@[0] == mk);
                    assert(lvl.orders@.drop_first() =~= it_orders.drop_first());
                    assert(sum_remaining(lvl.orders@)
                        == mk.remaining_quantity + sum_remaining(it_orders.drop_first()));
                }
            }
            proof {
                // One unfolding of the level recursion matches this step.
                let c_prev = match_level(taker0, it_rem, it_tid, lp, it_orders);
                let c_new = match_level(
                    taker0,
                    taker.remaining_quantity as int,
                    *next_trade_id as int,
                    lp,
                    lvl.orders@,
                );
                if mk0.remaining_quantity <= q {
                    assert(c_prev.trades =~= seq![t] + c_new.trades);
                    assert(c_prev.removed =~= seq![mk0.id] + c_new.removed);
                } else {
                    assert(lvl.orders@[0] == crate::model::fill_maker(mk0, q as int));
                    assert(taker.remaining_quantity == 0);
                    assert(c_new.kept == lvl.orders@);
                    let s2 = match_level(
                        taker0,
                        it_rem - q,
                        it_tid + 1,
                        lp,
                        it_orders.drop_first(),
                    );
                    assert(it_rem - q == 0);
                    assert(s2.kept == it_orders.drop_first());
                    assert(s2.trades =~= Seq::<Trade>::empty());
                    assert(s2.removed =~= Seq::<u64>::empty());
                    assert(c_prev.kept =~= seq![crate::model::fill_maker(mk0, q as int)]
                        + it_orders.drop_first());
                    assert(c_new.trades =~= Seq::<Trade>::empty());
                    assert(c_new.removed =~= Seq::<u64>::empty());
                    assert(c_prev.trades =~= seq![t] + c_new.trades);
                    assert(c_prev.removed =~= c_new.removed);
                }
                assert(trades@.skip(lv_trades.len() as int)
                    =~= trades@.subrange(lv_trades.len() as int, trades@.len() - 1).push(t));
                assert(trades@.subrange(lv_trades.len() as int, trades@.len() - 1)
                    + (seq![t] + c_new.trades)
                    =~= trades@.skip(lv_trades.len() as int) + c_new.trades);
                assert(trades@.subrange(0, lv_trades.len() as int) =~= lv_trades);
            }
        }
        // The level walk is finished; reconcile with one unfolding of the
        // book recursion.
        proof {
            let c_end = match_level(
                taker0,
                taker.remaining_quantity as int,
                *next_trade_id as int,
                lp,
                lvl.orders@,
            );
            assert(c_end.kept == lvl.orders@);
            assert(lm.kept == lvl.orders@);
            assert(lm.trades =~= trades@.skip(lv_trades.len() as int));
            assert(lm.removed =~= removed_inner);
            assert(lm.rem == taker.remaining_quantity as int);
        }
        if lvl.orders.len() == 0 {
            proof {
                let bm_prev = match_book(taker0, lv_rem, lv_tid, lv_levels, limit);
                let bm_new = match_book(
                    taker0,
                    taker.remaining_quantity as int,
                    *next_trade_id as int,
                    levels_view(levels@),
                    limit,
                );
                assert(bm_prev.levels == bm_new.levels);
                assert(bm_prev.trades =~= trades@.skip(lv_trades.len() as int) + bm_new.trades);
                assert(bm_prev.removed =~= removed_inner + bm_new.removed);
                removed_acc = lv_removed + removed_inner;
                assert(idx@ == remove_ids(idx0, removed_acc)) by {
                    lemma_remove_ids_concat(idx0, lv_removed, removed_inner);
                }
                assert(out.trades =~= trades@.skip(trades0.len() as int)
                    + bm_new.trades) by {
                    assert(lv_trades.skip(trades0.len() as int)
                        + (trades@.skip(lv_trades.len() as int) + bm_new.trades)
                        =~= trades@.skip(trades0.len() as int) + bm_new.trades);
                }
                assert(out.removed =~= removed_acc + bm_new.removed) by {
                    assert(lv_removed + (removed_inner + bm_new.removed)
                        =~= (lv_removed + removed_inner) + bm_new.removed);
                }
                assert(trades@.subrange(0, trades0.len() as int) =~= trades0);
            }
        } else {
            levels.insert(0, lvl);
            proof {
                assert(levels_view(levels@) =~= seq![
                    LevelSnap { price: lp, orders: lvl.orders@ },
                ] + lv_levels.drop_first());
                assert(taker.remaining_quantity == 0);
                let bm_prev = match_book(taker0, lv_rem, lv_tid, lv_levels, limit);
                let bm_new = match_book(
                    taker0,
                    taker.remaining_quantity as int,
                    *next_trade_id as int,
                    levels_view(levels@),
                    limit,
                );
                assert(bm_new.levels == levels_view(levels@));
                let sub = match_book(
                    taker0,
                    lm.rem,
                    lv_tid + lm.trades.len(),
                    lv_levels.drop_first(),
                    limit,
                );
                assert(lm.rem == 0);
                assert(sub.levels == lv_levels.drop_first());
                assert(sub.trades =~= Seq::<Trade>::empty());
                assert(sub.removed =~= Seq::<u64>::empty());
                assert(bm_prev.levels =~= seq![LevelSnap { price: lp, orders: lm.kept }]
                    + lv_levels.drop_first());
                assert(bm_prev.levels == bm_new.levels);
                assert(bm_prev.trades =~= lm.trades + sub.trades);
                assert(bm_new.trades =~= Seq::<Trade>::empty());
                assert(bm_new.removed =~= Seq::<u64>::empty());
                assert(bm_prev.trades =~= trades@.skip(lv_trades.len() as int) + bm_new.trades);
                assert(bm_prev.removed =~= removed_inner + bm_new.removed);
                removed_acc = lv_removed + removed_inner;
                assert(idx@ == remove_ids(idx0, removed_acc)) by {
                    lemma_remove_ids_concat(idx0, lv_removed, removed_inner);
                }
                assert(out.trades =~= trades@.skip(trades0.len() as int)
                    + bm_new.trades) by {
                    assert(lv_trades.skip(trades0.len() as int)
                        + (trades@.skip(lv_trades.len() as int) + bm_new.trades)
                        =~= trades@.skip(trades0.len() as int) + bm_new.trades);
                }
                assert(out.removed =~= removed_acc + bm_new.removed) by {
                    assert(lv_removed + (removed_inner + bm_new.removed)
                        =~= (lv_removed + removed_inner) + bm_new.removed);
                }
                assert(trades@.subrange(0, trades0.len() as int) =~= trades0);
            }
        }
    }
    proof {
        let cur = match_book(
            taker0,
            taker.remaining_quantity as int,
            *next_trade_id as int,
            levels_view(levels@),
            limit,
        );
        assert(cur.trades =~= Seq::<Trade>::empty());
        assert(cur.removed =~= Seq::<u64>::empty());
        assert(out.trades =~= trades@.skip(trades0.len() as int));
        assert(out.removed =~= removed_acc);
        assert(trades@ =~= trades0 + out.trades);
    }
}

/// Removing ids accumulates: a concatenation removes in two stages.
proof fn lemma_remove_ids_concat(m: Map<u64, (OrderSide, u64)>, a: Seq<u64>, b: Seq<u64>)
    ensures
        remove_ids(m, a + b) == remove_ids(remove_ids(m, a), b),
    decreases a.len(),
{
    if a.len() == 0 {
        assert(a + b =~= b);
    } else {
        assert((a + b)[0] == a[0]);
        assert((a + b).drop_first() =~= a.drop_first() + b);
        lemma_remove_ids_concat(m.remove(a[0]), a.drop_first(), b);
    }
}

/// The suffix of the trade log a `get_trades` call reports.
pub open spec fn trades_suffix(ts: Seq<Trade>, limit: Option<usize>) -> Seq<Trade> {
    match limit {
        Option::Some(l) => if ts.len() >= l {
            ts.skip(ts.len() - l)
        } else {
            ts
        },
        Option::None => ts,
    }
}


/// Rest a residual limit order in its own side book: append at its
/// price's level, creating the level in (best-first) price position when
/// absent.
#[verifier::loop_isolation(false)]
fn rest_order(levels: &mut Vec<PriceLevel>, o: Order)
    requires
        caches_ok(old(levels)@),
        forall|i: int|
            0 <= i < old(levels)@.len() ==> (#[trigger] old(levels)@[i]).total_quantity_cache
                + o.remaining_quantity <= u64::MAX,
    ensures
        levels_view(final(levels)@) == insert_resting(levels_view(old(levels)@), o.side, o),
        caches_ok(final(levels)@),
{
    let ghost orig = levels_view(old(levels)@);
    let p = match o.price {
        Option::Some(v) => v,
        Option::None => 0,
    };
    proof {
        assert(p == limit_price(o));
    }
    let side = o.side;
    let mut i: usize = 0;
    proof {
        assert(orig.take(0) =~= Seq::<LevelSnap>::empty());
        assert(orig.skip(0) =~= orig);
        assert(orig.take(0) + insert_resting(orig, side, o) =~= insert_resting(orig, side, o));
    }
    while i < levels.len()
        invariant
            *levels == *old(levels),
            0 <= i <= levels@.len(),
            forall|j: int|
                0 <= j < i ==> (#[trigger] orig[j]).price != p && !better(side, p, orig[j].price),
            insert_resting(orig, side, o) =~= orig.take(i as int) + insert_resting(
                orig.skip(i as int),
                side,
                o,
            ),
        decreases levels@.len() - i,
    {
        let lp = levels[i].price;
        let hit = lp == p;
        let ahead = match side {
            OrderSide::Buy => p > lp,
            OrderSide::Sell => p < lp,
        };
        if hit {
            let ghost pre = levels@;
            let mut lvl = levels.remove(i);
            lvl.add_order(o);
            levels.insert(i, lvl);
            proof {
                assert(levels@ =~= pre.update(i as int, lvl));
                assert(orig.skip(i as int)[0] == orig[i as int]);
                assert(orig.skip(i as int).drop_first() =~= orig.skip(i as int + 1));
                assert(insert_resting(orig.skip(i as int), side, o) =~= seq![
                    LevelSnap { price: p, orders: orig[i as int].orders.push(o) },
                ] + orig.skip(i as int + 1));
                assert(levels_view(levels@) =~= insert_resting(orig, side, o));
            }
            return;
        }
        if ahead {
            let mut nl = PriceLevel::new(p);
            nl.add_order(o);
            levels.insert(i, nl);
            proof {
                assert(better(side, p, orig[i as int].price));
                assert(orig.skip(i as int)[0] == orig[i as int]);
                assert(insert_resting(orig.skip(i as int), side, o) =~= seq![
                    LevelSnap { price: p, orders: seq![o] },
                ] + orig.skip(i as int));
                assert(levels_view(levels@) =~= insert_resting(orig, side, o));
            }
            return;
        }
        proof {
            assert(orig.skip(i as int)[0] == orig[i as int]);
            assert(orig.skip(i as int).drop_first() =~= orig.skip(i as int + 1));
            assert(insert_resting(orig.skip(i as int), side, o) =~= seq![orig[i as int]]
                + insert_resting(orig.skip(i as int + 1), side, o));
            assert(orig.take(i as int).push(orig[i as int]) =~= orig.take(i as int + 1));
            assert(orig.take(i as int) + (seq![orig[i as int]] + insert_resting(
                orig.skip(i as int + 1),
                side,
                o,
            )) =~= orig.take(i as int + 1) + insert_resting(orig.skip(i as int + 1), side, o));
        }
        i = i + 1;
    }
    let mut nl = PriceLevel::new(p);
    nl.add_order(o);
    levels.push(nl);
    proof {
        assert(orig.skip(i as int) =~= Seq::<LevelSnap>::empty());
        assert(insert_resting(Seq::<LevelSnap>::empty(), side, o) =~= seq![
            LevelSnap { price: p, orders: seq![o] },
        ]);
        assert(orig.take(i as int) =~= orig);
        assert(levels_view(levels@) =~= insert_resting(orig, side, o));
    }
}


/// Each level's queue holds at most the whole side's depth.
proof fn lemma_level_le_depth(ls: Seq<LevelSnap>, i: int)
    requires
        0 <= i < ls.len(),
    ensures
        sum_remaining(ls[i].orders) <= crate::model::side_depth(ls),
        crate::model::side_depth(ls) >= 0,
    decreases ls.len(),
{
    crate::level::lemma_sum_remaining_nonneg(ls[0].orders);
    lemma_side_depth_nonneg(ls.drop_first());
    if i > 0 {
        lemma_level_le_depth(ls.drop_first(), i - 1);
    }
}

/// A side's depth is never negative.
proof fn lemma_side_depth_nonneg(ls: Seq<LevelSnap>)
    ensures
        crate::model::side_depth(ls) >= 0,
    decreases ls.len(),
{
    if ls.len() > 0 {
        crate::level::lemma_sum_remaining_nonneg(ls[0].orders);
        lemma_side_depth_nonneg(ls.drop_first());
    }
}

impl OrderBook {
    /// Run a market order against the opposite side; the order never
    /// rests, whatever residue is left. Returns the processed order with
    /// its terminal status: `Filled`, `PartiallyFilled`, or — with no
    /// fill at all — `Rejected`.
    fn process_market_order(&mut self, order: Order) -> (r: Order)
        requires
            old(self).wf(),
            crate::preserve::fresh_taker(old(self)@, order),
            order.order_type == OrderType::Market,
        ensures
            final(self).wf(),
            final(self)@ == apply_market(old(self)@, order),
            ({
                let out = crate::preserve::taker_out(old(self)@, order, Option::<u64>::None);
                &&& same_terms(r, order)
                &&& r.remaining_quantity == out.rem
                &&& r.filled_quantity == order.quantity - out.rem
                &&& r.status == (if out.rem == 0 {
                    OrderStatus::Filled
                } else if out.rem < order.quantity {
                    OrderStatus::PartiallyFilled
                } else {
                    OrderStatus::Rejected
                })
            }),
    {
        let ghost b0 = self@;
        let ghost o0 = order;
        let mut order = order;
        match order.side {
            OrderSide::Buy => {
                match_levels(
                    &mut self.sell_price_levels,
                    &mut self.orders_by_id,
                    &mut self.trades,
                    &mut self.next_trade_id,
                    &mut order,
                    Option::None,
                );
            },
            OrderSide::Sell => {
                match_levels(
                    &mut self.buy_price_levels,
                    &mut self.orders_by_id,
                    &mut self.trades,
                    &mut self.next_trade_id,
                    &mut order,
                    Option::None,
                );
            },
        }
        self.stats.trades_executed = self.trades.len() as u64;
        if order.remaining_quantity == 0 {
            order.status = OrderStatus::Filled;
        } else if order.filled_quantity > 0 {
            order.status = OrderStatus::PartiallyFilled;
        } else {
            order.status = OrderStatus::Rejected;
        }
        proof {
            crate::preserve::lemma_after_match_inv(b0, o0, Option::None);
            assert(self@ =~= apply_market(b0, o0));
        }
        order
    }

    /// Match a limit order against the opposite side up to its price.
    /// The caller rests any residue.
    fn match_limit_order(&mut self, order: &mut Order)
        requires
            old(self).wf(),
            crate::preserve::fresh_taker(old(self)@, *old(order)),
            old(order).order_type == OrderType::Limit,
            limit_price(*old(order)) > 0,
            old(order).price == Option::Some(limit_price(*old(order))),
        ensures
            final(self).wf(),
            final(self)@ == book_after_match(
                old(self)@,
                old(order).side,
                crate::preserve::taker_out(
                    old(self)@,
                    *old(order),
                    Option::Some(limit_price(*old(order))),
                ),
            ),
            ({
                let out = crate::preserve::taker_out(
                    old(self)@,
                    *old(order),
                    Option::Some(limit_price(*old(order))),
                );
                &&& same_terms(*final(order), *old(order))
                &&& final(order).remaining_quantity == out.rem
                &&& final(order).filled_quantity == old(order).quantity - out.rem
                &&& final(order).status == (if out.rem == 0 {
                    OrderStatus::Filled
                } else if out.rem < old(order).quantity {
                    OrderStatus::PartiallyFilled
                } else {
                    OrderStatus::New
                })
            }),
    {
        let ghost b0 = self@;
        let ghost o0 = *order;
        let p = match order.price {
            Option::Some(v) => v,
            Option::None => 0,
        };
        match order.side {
            OrderSide::Buy => {
                match_levels(
                    &mut self.sell_price_levels,
                    &mut self.orders_by_id,
                    &mut self.trades,
                    &mut self.next_trade_id,
                    order,
                    Option::Some(p),
                );
            },
            OrderSide::Sell => {
                match_levels(
                    &mut self.buy_price_levels,
                    &mut self.orders_by_id,
                    &mut self.trades,
                    &mut self.next_trade_id,
                    order,
                    Option::Some(p),
                );
            },
        }
        self.stats.trades_executed = self.trades.len() as u64;
        if order.remaining_quantity == 0 {
            order.status = OrderStatus::Filled;
        } else if order.filled_quantity > 0 {
            order.status = OrderStatus::PartiallyFilled;
        }
        proof {
            crate::preserve::lemma_after_match_inv(b0, o0, Option::Some(p));
            assert(self@ =~= book_after_match(
                b0,
                o0.side,
                crate::preserve::taker_out(b0, o0, Option::Some(p)),
            ));
        }
    }

    /// Process one created order: market orders sweep and terminate,
    /// limit orders match and rest any residue.
    pub(crate) fn process_order(&mut self, order: Order)
        requires
            old(self).wf(),
            crate::preserve::fresh_taker(old(self)@, order),
            valid_submission(order.order_type, order.price, order.quantity),
            crate::model::book_depth(old(self)@) + order.quantity <= u64::MAX,
        ensures
            final(self).wf(),
            final(self)@ == crate::model::apply_order(old(self)@, order),
    {
        let ghost b0 = self@;
        let ghost o0 = order;
        if order.order_type == OrderType::Market {
            let _done = self.process_market_order(order);
            return;
        }
        let mut order = order;
        self.match_limit_order(&mut order);
        let ghost out = crate::preserve::taker_out(b0, o0, Option::Some(limit_price(o0)));
        if order.remaining_quantity > 0 {
            let ghost b2 = self@;
            let oid = order.id;
            let oside = order.side;
            let p = match order.price {
                Option::Some(v) => v,
                Option::None => 0,
            };
            proof {
                assert(order == resting_residue(o0, out.rem));
                // The own side is untouched by the match, so its caches
                // still have headroom for the residue.
                let own0 = side_levels(b0, o0.side);
                crate::preserve::lemma_match_sizes(b0, o0, Option::Some(limit_price(o0)));
                assert(side_levels(self@, oside) == own0);
                assert(levels_view(own_levels_of(self, oside)@) == own0) by {
                    if oside == OrderSide::Buy {
                        assert(self@.buys == levels_view(self.buy_price_levels@));
                    } else {
                        assert(self@.sells == levels_view(self.sell_price_levels@));
                    }
                }
                assert(crate::model::book_depth(b0) + order.remaining_quantity <= u64::MAX);
                if o0.side == OrderSide::Buy {
                    lemma_side_depth_nonneg(b0.sells);
                    assert(crate::model::side_depth(own0) <= crate::model::book_depth(b0));
                } else {
                    lemma_side_depth_nonneg(b0.buys);
                    assert(crate::model::side_depth(own0) <= crate::model::book_depth(b0));
                }
                assert forall|i: int|
                    0 <= i < own_levels_of(self, oside)@.len() implies (
                #[trigger] own_levels_of(self, oside)@[i]).total_quantity_cache
                    + order.remaining_quantity <= u64::MAX by {
                    assert(levels_view(own_levels_of(self, oside)@) == own0);
                    assert(own_levels_of(self, oside)@[i].cache_ok());
                    assert(own_levels_of(self, oside)@[i].total_quantity_cache as int
                        == sum_remaining(own0[i].orders)) by {
                        assert(levels_view(own_levels_of(self, oside)@)[i]
                            == own0[i]);
                    }
                    lemma_level_le_depth(own0, i);
                }
            }
            match oside {
                OrderSide::Buy => {
                    rest_order(&mut self.buy_price_levels, order);
                },
                OrderSide::Sell => {
                    rest_order(&mut self.sell_price_levels, order);
                },
            }
            self.orders_by_id.insert(oid, (oside, p));
            proof {
                assert(self@ =~= crate::model::apply_limit(b0, o0));
                crate::preserve::lemma_apply_order_inv(b0, o0);
            }
        } else {
            proof {
                assert(self@ =~= crate::model::apply_limit(b0, o0));
                crate::preserve::lemma_apply_order_inv(b0, o0);
            }
        }
    }

    /// Submit an order: validate, assign the next order id, then run
    /// matching. Returns the assigned id, or `InvalidArgument` — with the
    /// engine unchanged — when the quantity is zero, a market order
    /// carries a price, or a limit order lacks a positive price.
    pub fn add_order(
        &mut self,
        side: OrderSide,
        order_type: OrderType,
        price: Option<u64>,
        quantity: u64,
        timestamp: u64,
        symbol: Option<String>,
    ) -> (r: Result<u64, EngineError>)
        requires
            old(self).wf(),
            old(self)@.next_order_id + 1 <= u64::MAX,
            old(self)@.next_trade_id + quantity <= u64::MAX,
            crate::model::book_depth(old(self)@) + quantity <= u64::MAX,
        ensures
            final(self).wf(),
            valid_submission(order_type, price, quantity) ==> r == Ok::<u64, EngineError>(
                (old(self)@.next_order_id as u64),
            ) && final(self)@ == book_submit(
                old(self)@,
                side,
                order_type,
                price,
                quantity,
                timestamp,
                symbol,
            ),
            !valid_submission(order_type, price, quantity) ==> r == Err::<u64, EngineError>(
                EngineError::InvalidArgument,
            ) && final(self)@ == old(self)@,
    {
        let ghost b0 = self@;
        let ok = quantity > 0 && match order_type {
            OrderType::Market => price.is_none(),
            OrderType::Limit => match price {
                Option::Some(p) => p > 0,
                Option::None => false,
            },
        };
        if !ok {
            return Err(EngineError::InvalidArgument);
        }
        proof {
            crate::preserve::lemma_submit_setup(
                b0,
                side,
                order_type,
                price,
                quantity,
                timestamp,
                symbol,
            );
        }
        let order_id = self.next_order_id;
        self.next_order_id = self.next_order_id + 1;
        self.stats.orders_processed = self.stats.orders_processed + 1;
        let order = Order::new(order_id, side, order_type, price, quantity, timestamp, symbol);
        proof {
            assert(self@ =~= BookView {
                next_order_id: b0.next_order_id + 1,
                orders_processed: b0.orders_processed + 1,
                ..b0
            });
            assert(order == make_order(
                (b0.next_order_id as u64),
                side,
                order_type,
                price,
                quantity,
                timestamp,
                symbol,
            ));
            assert(crate::model::book_depth(self@) == crate::model::book_depth(b0));
        }
        self.process_order(order);
        Ok(order_id)
    }
}

/// The level vector of one side of the engine.
pub open spec fn own_levels_of(book: &OrderBook, side: OrderSide) -> Vec<PriceLevel> {
    match side {
        OrderSide::Buy => book.buy_price_levels,
        OrderSide::Sell => book.sell_price_levels,
    }
}


impl OrderBook {
    /// Cancel a resting order by id. Returns `true` exactly when the id
    /// was indexed — that is, resting — in which case the order leaves
    /// its level (the level too, when it empties) and the index. A
    /// second cancel of the same id, or an unknown id, returns `false`
    /// and changes nothing.
    pub fn cancel_order(&mut self, order_id: u64) -> (r: bool)
        requires
            old(self).wf(),
        ensures
            final(self).wf(),
            r == old(self)@.index.contains_key(order_id),
            final(self)@ == book_cancel(old(self)@, order_id),
    {
        let ghost b0 = self@;
        proof {
            crate::preserve::lemma_book_cancel_inv(b0, order_id);
        }
        let hit = self.orders_by_id.remove(&order_id);
        match hit {
            Option::None => {
                proof {
                    assert(self.orders_by_id@ =~= b0.index);
                    assert(self@ =~= b0);
                }
                false
            },
            Option::Some((side, price)) => {
                proof {
                    // The indexed order rests on that side at a level
                    // with exactly its price.
                    assert(b0.index[order_id] == (side, price));
                    assert(crate::level::has_order(all_resting(b0), order_id));
                }
                let ghost own0 = side_levels(b0, side);
                proof {
                    lemma_cancel_target(b0, order_id, side, price);
                }
                match side {
                    OrderSide::Buy => {
                        remove_resting_exec(
                            &mut self.buy_price_levels,
                            price,
                            order_id,
                            Ghost(OrderSide::Buy),
                        );
                    },
                    OrderSide::Sell => {
                        remove_resting_exec(
                            &mut self.sell_price_levels,
                            price,
                            order_id,
                            Ghost(OrderSide::Sell),
                        );
                    },
                }
                proof {
                    assert(self@ =~= book_cancel(b0, order_id));
                }
                true
            },
        }
    }
}

/// The target of a well-formed cancel: some level of the indexed side
/// carries the indexed price and the order.
proof fn lemma_cancel_target(b: BookView, id: u64, side: OrderSide, price: u64)
    requires
        inv(b),
        b.index.contains_key(id),
        b.index[id] == (side, price),
    ensures
        exists|li: int, oi: int|
            0 <= li < side_levels(b, side).len() && 0 <= oi < (#[trigger] side_levels(b, side)[
            li]).orders.len() && side_levels(b, side)[li].price == price && (
            #[trigger] side_levels(b, side)[li].orders[oi]).id == id,
{
    let all1 = all_resting(b);
    let own = side_levels(b, side);
    crate::preserve::lemma_all_resting_parts(b);
    assert(crate::level::has_order(all1, id));
    let w = choose|x: int| 0 <= x < all1.len() && all1[x].id == id;
    let ro = all1[w];
    assert(ro.side == side && limit_price(ro) == price);
    let ol = flat(b.buys).len() as int;
    assert(0 <= w < all1.len());
    let fw: int = if side == OrderSide::Buy {
        w
    } else {
        w - ol
    };
    assert(0 <= fw < flat(own).len()) by {
        if side == OrderSide::Buy {
            if w >= ol {
                assert(all1[w] == flat(b.sells)[w - ol]);
                crate::preserve::lemma_flat_order_ok(b.sells, OrderSide::Sell);
                assert(crate::model::order_ok(all1[w], OrderSide::Sell, limit_price(all1[w])));
            }
        } else {
            if w < ol {
                assert(all1[w] == flat(b.buys)[w]);
                crate::preserve::lemma_flat_order_ok(b.buys, OrderSide::Buy);
                assert(crate::model::order_ok(all1[w], OrderSide::Buy, limit_price(all1[w])));
            }
        }
    }
    assert(flat(own)[fw] == ro);
    crate::preserve::lemma_flat_witness(own, fw);
    let (li, oi) = choose|li: int, oi: int|
        0 <= li < own.len() && 0 <= oi < (#[trigger] own[li]).orders.len() && own[li].price == own[
        li].price && (#[trigger] own[li].orders[oi]) == flat(own)[fw];
    assert(crate::model::order_ok(own[li].orders[oi], side, own[li].price));
    assert(own[li].price == price);
    assert(own[li].orders[oi].id == id);
}

/// Remove the order with the given id from the level with the given
/// price, dropping the level when it empties. Mirrors `remove_resting`.
#[verifier::loop_isolation(false)]
fn remove_resting_exec(
    levels: &mut Vec<PriceLevel>,
    price: u64,
    order_id: u64,
    Ghost(gside): Ghost<OrderSide>,
)
    requires
        caches_ok(old(levels)@),
        side_ok(levels_view(old(levels)@), gside),
        exists|li: int, oi: int|
            0 <= li < old(levels)@.len() && 0 <= oi < (#[trigger] levels_view(old(levels)@)[
            li]).orders.len() && levels_view(old(levels)@)[li].price == price && (
            #[trigger] levels_view(old(levels)@)[li].orders[oi]).id == order_id,
    ensures
        levels_view(final(levels)@) == remove_resting(levels_view(old(levels)@), price, order_id),
        caches_ok(final(levels)@),
{
    let ghost orig = levels_view(old(levels)@);
    let mut i: usize = 0;
    proof {
        assert(orig.take(0) =~= Seq::<LevelSnap>::empty());
        assert(orig.skip(0) =~= orig);
        assert(orig.take(0) + remove_resting(orig, price, order_id) =~= remove_resting(
            orig,
            price,
            order_id,
        ));
    }
    while i < levels.len()
        invariant
            *levels == *old(levels),
            0 <= i <= levels@.len(),
            forall|j: int| 0 <= j < i ==> (#[trigger] orig[j]).price != price,
            remove_resting(orig, price, order_id) =~= orig.take(i as int) + remove_resting(
                orig.skip(i as int),
                price,
                order_id,
            ),
        decreases levels@.len() - i,
    {
        if levels[i].price == price {
            let mut lvl = levels.remove(i);
            // The removed order's terminal status is `Cancelled`; it is
            // then dropped, as nothing references it any more.
            let removed = lvl.remove_order(order_id);
            if let Option::Some(mut cancelled) = removed {
                cancelled.status = OrderStatus::Cancelled;
            }
            proof {
                assert(crate::level::has_order(orig[i as int].orders, order_id)) by {
                    let (li, oi) = choose|li: int, oi: int|
                        0 <= li < orig.len() && 0 <= oi < (#[trigger] orig[li]).orders.len()
                            && orig[li].price == price && (#[trigger] orig[li].orders[oi]).id
                            == order_id;
                    assert(li == i as int) by {
                        if li < i as int {
                            assert(orig[li].price != price);
                        }
                        if li > i as int {
                            assert(better(gside, orig[i as int].price, orig[li].price));
                        }
                    }
                    assert(orig[i as int].orders[oi].id == order_id);
                }
                crate::level::lemma_find_order(orig[i as int].orders, order_id);
            }
            let ghost f = crate::level::find_order(orig[i as int].orders, order_id);
            if lvl.is_empty() {
                proof {
                    assert(orig.skip(i as int)[0] == orig[i as int]);
                    assert(orig.skip(i as int).drop_first() =~= orig.skip(i as int + 1));
                    assert(remove_resting(orig.skip(i as int), price, order_id) =~= orig.skip(
                        i as int + 1,
                    ));
                    assert(levels_view(levels@) =~= remove_resting(orig, price, order_id));
                }
            } else {
                levels.insert(i, lvl);
                proof {
                    assert(orig.skip(i as int)[0] == orig[i as int]);
                    assert(orig.skip(i as int).drop_first() =~= orig.skip(i as int + 1));
                    assert(remove_resting(orig.skip(i as int), price, order_id) =~= seq![
                        LevelSnap { price, orders: orig[i as int].orders.remove(f) },
                    ] + orig.skip(i as int + 1));
                    assert(levels_view(levels@) =~= remove_resting(orig, price, order_id));
                }
            }
            return;
        }
        proof {
            assert(orig.skip(i as int)[0] == orig[i as int]);
            assert(orig.skip(i as int).drop_first() =~= orig.skip(i as int + 1));
            assert(remove_resting(orig.skip(i as int), price, order_id) =~= seq![orig[i as int]]
                + remove_resting(orig.skip(i as int + 1), price, order_id));
            assert(orig.take(i as int).push(orig[i as int]) =~= orig.take(i as int + 1));
            assert(orig.take(i as int) + (seq![orig[i as int]] + remove_resting(
                orig.skip(i as int + 1),
                price,
                order_id,
            )) =~= orig.take(i as int + 1) + remove_resting(
                orig.skip(i as int + 1),
                price,
                order_id,
            ));
        }
        i = i + 1;
    }
    proof {
        let (li, oi) = choose|li: int, oi: int|
            0 <= li < orig.len() && 0 <= oi < (#[trigger] orig[li]).orders.len() && orig[li].price
                == price && (#[trigger] orig[li].orders[oi]).id == order_id;
        assert(orig[li].price != price);
        assert(false);
    }
}


impl Clone for OrderBook {
    /// A deep copy of the whole engine: an equal abstract book state,
    /// well-formed whenever the original is.
    fn clone(&self) -> (r: OrderBook)
        ensures
            r@ == self@,
            self.wf() ==> r.wf(),
    {
        let r = OrderBook {
            buy_price_levels: self.buy_price_levels.clone(),
            sell_price_levels: self.sell_price_levels.clone(),
            orders_by_id: self.orders_by_id.clone(),
            next_order_id: self.next_order_id,
            next_trade_id: self.next_trade_id,
            trades: self.trades.clone(),
            stats: self.stats,
        };
        proof {
            assert(forall|i: int|
                0 <= i < self.buy_price_levels@.len() ==> vstd::pervasive::cloned::<PriceLevel>(
                    self.buy_price_levels@[i],
                    #[trigger] r.buy_price_levels@[i],
                ));
            assert(forall|i: int|
                0 <= i < self.sell_price_levels@.len() ==> vstd::pervasive::cloned::<PriceLevel>(
                    self.sell_price_levels@[i],
                    #[trigger] r.sell_price_levels@[i],
                ));
            assert(forall|i: int|
                0 <= i < self.trades@.len() ==> vstd::pervasive::cloned::<Trade>(
                    self.trades@[i],
                    #[trigger] r.trades@[i],
                ));
            assert(levels_view(r.buy_price_levels@) =~= levels_view(self.buy_price_levels@));
            assert(levels_view(r.sell_price_levels@) =~= levels_view(self.sell_price_levels@));
            assert(r.trades@ =~= self.trades@);
            assert(r@ =~= self@);
            if self.wf() {
                assert(caches_ok(r.buy_price_levels@)) by {
                    assert forall|i: int| 0 <= i < r.buy_price_levels@.len() implies (
                    #[trigger] r.buy_price_levels@[i]).cache_ok() by {
                        assert(self.buy_price_levels@[i].cache_ok());
                        assert(r.buy_price_levels@[i].orders@
                            == self.buy_price_levels@[i].orders@);
                    }
                }
                assert(caches_ok(r.sell_price_levels@)) by {
                    assert forall|i: int| 0 <= i < r.sell_price_levels@.len() implies (
                    #[trigger] r.sell_price_levels@[i]).cache_ok() by {
                        assert(self.sell_price_levels@[i].cache_ok());
                        assert(r.sell_price_levels@[i].orders@
                            == self.sell_price_levels@[i].orders@);
                    }
                }
            }
        }
        r
    }
}

} // verus!