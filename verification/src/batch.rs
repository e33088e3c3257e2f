//! Batch submission: group a batch of created orders, order each group
//! deterministically (markets by time, limits by best price then time),
//! and feed them to the engine one by one.

use vstd::prelude::*;
use crate::order::{EngineError, Order, OrderSide, OrderStatus, OrderType};
use crate::level::has_order;
use crate::model::{
    all_resting, apply_order, apply_seq, limit_price, make_order, ids_unique, valid_submission,
    BookView,
};
use crate::book::OrderBook;

verus! {

/// The deterministic orderings a batch uses.
#[derive(Clone, Copy, Debug, PartialEq, Eq, Structural)]
pub enum SortKey {
    /// Ascending timestamp.
    MarketTime,
    /// Descending price, then ascending timestamp.
    BuyLimit,
    /// Ascending price, then ascending timestamp.
    SellLimit,
}

/// Whether `a` may stand at or before `b` under the key; a total
/// preorder, and stable sorting keeps the input order of ties.
pub open spec fn key_le(k: SortKey, a: Order, b: Order) -> bool {
    match k {
        SortKey::MarketTime => a.timestamp <= b.timestamp,
        SortKey::BuyLimit => limit_price(a) > limit_price(b) || (limit_price(a) == limit_price(b)
            && a.timestamp <= b.timestamp),
        SortKey::SellLimit => limit_price(a) < limit_price(b) || (limit_price(a) == limit_price(b)
            && a.timestamp <= b.timestamp),
    }
}

/// Insert `o` into an already sorted run, after every element that may
/// stand before it (so ties keep their input order).
pub open spec fn insert_sorted(s: Seq<Order>, o: Order, k: SortKey) -> Seq<Order>
    decreases s.len(),
{
    if s.len() == 0 {
        seq![o]
    } else if key_le(k, s[0], o) {
        seq![s[0]] + insert_sorted(s.drop_first(), o, k)
    } else {
        seq![o] + s
    }
}

/// Stable insertion sort: elements are inserted left to right.
pub open spec fn sort_by_key(s: Seq<Order>, k: SortKey) -> Seq<Order>
    decreases s.len(),
{
    if s.len() == 0 {
        Seq::empty()
    } else {
        insert_sorted(sort_by_key(s.drop_last(), k), s.last(), k)
    }
}

/// The executable comparison, exactly `key_le`.
fn key_le_exec(k: SortKey, a: &Order, b: &Order) -> (r: bool)
    ensures
        r == key_le(k, *a, *b),
{
    match k {
        SortKey::MarketTime => a.timestamp <= b.timestamp,
        SortKey::BuyLimit => {
            let pa = match a.price {
                Option::Some(v) => v,
                Option::None => 0,
            };
            let pb = match b.price {
                Option::Some(v) => v,
                Option::None => 0,
            };
            pa > pb || (pa == pb && a.timestamp <= b.timestamp)
        },
        SortKey::SellLimit => {
            let pa = match a.price {
                Option::Some(v) => v,
                Option::None => 0,
            };
            let pb = match b.price {
                Option::Some(v) => v,
                Option::None => 0,
            };
            pa < pb || (pa == pb && a.timestamp <= b.timestamp)
        },
    }
}

/// Sort a run of orders by the key, stably.
#[verifier::loop_isolation(false)]
fn sort_orders(v: &mut Vec<Order>, k: SortKey)
    ensures
        final(v)@ == sort_by_key(old(v)@, k),
{
    let ghost orig = old(v)@;
    let mut out: Vec<Order> = Vec::new();
    let mut n: usize = 0;
    proof {
        assert(orig.take(0) =~= Seq::<Order>::empty());
        assert(sort_by_key(orig.take(0), k) =~= Seq::<Order>::empty());
    }
    while n < v.len()
        invariant
            *v == *old(v),
            0 <= n <= v@.len(),
            out@ == sort_by_key(orig.take(n as int), k),
        decreases v@.len() - n,
    {
        let o = v[n].clone();
        let ghost pre = out@;
        // Find the first position whose element may not stand before `o`.
        let mut i: usize = 0;
        while i < out.len() && key_le_exec(k, &out[i], &o)
            invariant
                0 <= i <= out@.len(),
                out@ == pre,
                forall|j: int| 0 <= j < i ==> key_le(k, #[trigger] out@[j], o),
            decreases out@.len() - i,
        {
            i = i + 1;
        }
        out.insert(i, o);
        proof {
            lemma_insert_sorted_at(pre, o, k, i as int);
            assert(out@ =~= pre.insert(i as int, o));
            assert(orig.take(n as int + 1).drop_last() =~= orig.take(n as int));
            assert(orig.take(n as int + 1).last() == orig[n as int]);
            assert(sort_by_key(orig.take(n as int + 1), k) == insert_sorted(
                sort_by_key(orig.take(n as int), k),
                orig[n as int],
                k,
            ));
        }
        n = n + 1;
    }
    proof {
        assert(orig.take(n as int) =~= orig);
    }
    let mut out = out;
    core::mem::swap(v, &mut out);
}

/// Inserting at the first position whose element may not stand before
/// the new one is exactly `insert_sorted`.
proof fn lemma_insert_sorted_at(s: Seq<Order>, o: Order, k: SortKey, i: int)
    requires
        0 <= i <= s.len(),
        forall|j: int| 0 <= j < i ==> key_le(k, #[trigger] s[j], o),
        i < s.len() ==> !key_le(k, s[i], o),
    ensures
        insert_sorted(s, o, k) == s.insert(i, o),
    decreases s.len(),
{
    if s.len() == 0 {
        assert(insert_sorted(s, o, k) =~= s.insert(0, o));
    } else if i == 0 {
        assert(insert_sorted(s, o, k) =~= s.insert(0, o));
    } else {
        assert(key_le(k, s[0], o));
        assert(forall|j: int| 0 <= j < i - 1 ==> key_le(k, #[trigger] s.drop_first()[j], o));
        lemma_insert_sorted_at(s.drop_first(), o, k, i - 1);
        assert(insert_sorted(s, o, k) =~= seq![s[0]] + s.drop_first().insert(i - 1, o));
        assert(seq![s[0]] + s.drop_first().insert(i - 1, o) =~= s.insert(i, o));
    }
}

/// A batch of created orders, partitioned the way the engine processes
/// them: all market orders before all limit orders, buys before sells
/// among markets.
#[derive(Debug)]
pub struct OrderBatch {
    pub buy_market_orders: Vec<Order>,
    pub sell_market_orders: Vec<Order>,
    pub buy_limit_orders: Vec<Order>,
    pub sell_limit_orders: Vec<Order>,
}

/// Abstract state of a batch: the four groups as sequences.
#[verifier::ext_equal]
pub ghost struct BatchView {
    pub bm: Seq<Order>,
    pub sm: Seq<Order>,
    pub bl: Seq<Order>,
    pub sl: Seq<Order>,
}

impl View for OrderBatch {
    type V = BatchView;

    open spec fn view(&self) -> BatchView {
        BatchView {
            bm: self.buy_market_orders@,
            sm: self.sell_market_orders@,
            bl: self.buy_limit_orders@,
            sl: self.sell_limit_orders@,
        }
    }
}

impl OrderBatch {
    /// An empty batch.
    pub fn new() -> (r: OrderBatch)
        ensures
            r.buy_market_orders@ == Seq::<Order>::empty(),
            r.sell_market_orders@ == Seq::<Order>::empty(),
            r.buy_limit_orders@ == Seq::<Order>::empty(),
            r.sell_limit_orders@ == Seq::<Order>::empty(),
    {
        OrderBatch {
            buy_market_orders: Vec::new(),
            sell_market_orders: Vec::new(),
            buy_limit_orders: Vec::new(),
            sell_limit_orders: Vec::new(),
        }
    }

    /// File an order under its side and type.
    pub fn add_order(&mut self, order: Order)
        ensures
            final(self)@ == (match (order.side, order.order_type) {
                (OrderSide::Buy, OrderType::Market) => BatchView {
                    bm: old(self)@.bm.push(order),
                    ..old(self)@
                },
                (OrderSide::Sell, OrderType::Market) => BatchView {
                    sm: old(self)@.sm.push(order),
                    ..old(self)@
                },
                (OrderSide::Buy, OrderType::Limit) => BatchView {
                    bl: old(self)@.bl.push(order),
                    ..old(self)@
                },
                (OrderSide::Sell, OrderType::Limit) => BatchView {
                    sl: old(self)@.sl.push(order),
                    ..old(self)@
                },
            }),
    {
        match (order.side, order.order_type) {
            (OrderSide::Buy, OrderType::Market) => self.buy_market_orders.push(order),
            (OrderSide::Sell, OrderType::Market) => self.sell_market_orders.push(order),
            (OrderSide::Buy, OrderType::Limit) => self.buy_limit_orders.push(order),
            (OrderSide::Sell, OrderType::Limit) => self.sell_limit_orders.push(order),
        }
    }

    /// Order each group deterministically: markets by ascending
    /// timestamp, buy limits by descending price then ascending
    /// timestamp, sell limits by ascending price then ascending
    /// timestamp. The sorts are stable.
    pub fn sort(&mut self)
        ensures
            final(self).buy_market_orders@ == sort_by_key(
                old(self).buy_market_orders@,
                SortKey::MarketTime,
            ),
            final(self).sell_market_orders@ == sort_by_key(
                old(self).sell_market_orders@,
                SortKey::MarketTime,
            ),
            final(self).buy_limit_orders@ == sort_by_key(
                old(self).buy_limit_orders@,
                SortKey::BuyLimit,
            ),
            final(self).sell_limit_orders@ == sort_by_key(
                old(self).sell_limit_orders@,
                SortKey::SellLimit,
            ),
    {
        sort_orders(&mut self.buy_market_orders, SortKey::MarketTime);
        sort_orders(&mut self.sell_market_orders, SortKey::MarketTime);
        sort_orders(&mut self.buy_limit_orders, SortKey::BuyLimit);
        sort_orders(&mut self.sell_limit_orders, SortKey::SellLimit);
    }

    /// Whether the batch holds no order.
    pub fn is_empty(&self) -> (r: bool)
        ensures
            r == (self.buy_market_orders@.len() == 0 && self.sell_market_orders@.len() == 0
                && self.buy_limit_orders@.len() == 0 && self.sell_limit_orders@.len() == 0),
    {
        self.buy_market_orders.is_empty() && self.sell_market_orders.is_empty()
            && self.buy_limit_orders.is_empty() && self.sell_limit_orders.is_empty()
    }

    /// How many orders the batch holds.
    pub fn len(&self) -> (r: usize)
        requires
            self.buy_market_orders@.len() + self.sell_market_orders@.len()
                + self.buy_limit_orders@.len() + self.sell_limit_orders@.len() <= usize::MAX,
        ensures
            r == self.buy_market_orders@.len() + self.sell_market_orders@.len()
                + self.buy_limit_orders@.len() + self.sell_limit_orders@.len(),
    {
        self.buy_market_orders.len() + self.sell_market_orders.len()
            + self.buy_limit_orders.len() + self.sell_limit_orders.len()
    }
}


/// All orders of a batch, in group order.
pub open spec fn batch_all(bv: BatchView) -> Seq<Order> {
    bv.bm + bv.sm + bv.bl + bv.sl
}

/// The order in which a batch is processed: market orders first (buys
/// before sells) by ascending time, then buy limits by descending price
/// and time, then sell limits by ascending price and time.
pub open spec fn batch_run_seq(bv: BatchView) -> Seq<Order> {
    sort_by_key(bv.bm, SortKey::MarketTime) + sort_by_key(bv.sm, SortKey::MarketTime)
        + sort_by_key(bv.bl, SortKey::BuyLimit) + sort_by_key(bv.sl, SortKey::SellLimit)
}

/// Total submitted quantity of a run of orders.
pub open spec fn total_qty_orders(s: Seq<Order>) -> int
    decreases s.len(),
{
    if s.len() == 0 {
        0
    } else {
        s[0].quantity + total_qty_orders(s.drop_first())
    }
}

/// Total quantity of a run of order descriptors.
pub open spec fn total_qty_descs(
    ds: Seq<(OrderSide, OrderType, Option<u64>, u64, u64, Option<String>)>,
) -> int
    decreases ds.len(),
{
    if ds.len() == 0 {
        0
    } else {
        ds[0].3 + total_qty_descs(ds.drop_first())
    }
}

/// Whether every descriptor in a batch is acceptable.
pub open spec fn batch_valid(
    ds: Seq<(OrderSide, OrderType, Option<u64>, u64, u64, Option<String>)>,
) -> bool {
    forall|i: int| 0 <= i < ds.len() ==> valid_submission((#[trigger] ds[i]).1, ds[i].2, ds[i].3)
}

/// The orders a batch submission creates: consecutive ids from `next`,
/// in descriptor order.
pub open spec fn created_orders(
    next: int,
    ds: Seq<(OrderSide, OrderType, Option<u64>, u64, u64, Option<String>)>,
) -> Seq<Order> {
    Seq::new(
        ds.len(),
        |i: int|
            make_order(
                ((next + i) as u64),
                ds[i].0,
                ds[i].1,
                ds[i].2,
                ds[i].3,
                ds[i].4,
                ds[i].5,
            ),
    )
}

/// The partition of a run of created orders into the four batch groups.
pub open spec fn batch_groups(c: Seq<Order>) -> BatchView {
    BatchView {
        bm: c.filter(
            |o: Order| o.side == OrderSide::Buy && o.order_type == OrderType::Market,
        ),
        sm: c.filter(
            |o: Order| o.side == OrderSide::Sell && o.order_type == OrderType::Market,
        ),
        bl: c.filter(|o: Order| o.side == OrderSide::Buy && o.order_type == OrderType::Limit),
        sl: c.filter(
            |o: Order| o.side == OrderSide::Sell && o.order_type == OrderType::Limit,
        ),
    }
}

/// A whole batch submission: assign ids in input order, then process the
/// groups in their deterministic order.
pub open spec fn batch_submit(
    b: BookView,
    ds: Seq<(OrderSide, OrderType, Option<u64>, u64, u64, Option<String>)>,
) -> BookView {
    let n = ds.len() as int;
    let b1 = BookView {
        next_order_id: b.next_order_id + n,
        orders_processed: b.orders_processed + n,
        ..b
    };
    apply_seq(b1, batch_run_seq(batch_groups(created_orders(b.next_order_id, ds))))
}

/// What must hold of each batch order before processing: a valid, fresh
/// order whose engine-assigned id is unknown to the book and the log.
pub open spec fn batch_order_ok(b: BookView, o: Order) -> bool {
    &&& valid_submission(o.order_type, o.price, o.quantity)
    &&& o.status == OrderStatus::New
    &&& o.filled_quantity == 0
    &&& o.remaining_quantity == o.quantity
    &&& 1 <= o.id < b.next_order_id
    &&& !has_order(all_resting(b), o.id)
    &&& (forall|i: int|
        0 <= i < b.trades.len() ==> (#[trigger] b.trades[i]).buy_order_id != o.id
            && b.trades[i].sell_order_id != o.id)
}

/// A property of every element survives an ordered insert.
proof fn lemma_insert_sorted_all(s: Seq<Order>, o: Order, k: SortKey, p: spec_fn(Order) -> bool)
    requires
        forall|i: int| 0 <= i < s.len() ==> p(#[trigger] s[i]),
        p(o),
    ensures
        insert_sorted(s, o, k).len() == s.len() + 1,
        forall|i: int| 0 <= i < s.len() + 1 ==> p(#[trigger] insert_sorted(s, o, k)[i]),
    decreases s.len(),
{
    let r = insert_sorted(s, o, k);
    if s.len() == 0 {
        assert(r[0] == o);
    } else if key_le(k, s[0], o) {
        assert(forall|i: int| 0 <= i < s.drop_first().len() ==> p(#[trigger] s.drop_first()[i]));
        lemma_insert_sorted_all(s.drop_first(), o, k, p);
        assert(forall|i: int|
            0 <= i < r.len() ==> (#[trigger] r[i]) == if i == 0 {
                s[0]
            } else {
                insert_sorted(s.drop_first(), o, k)[i - 1]
            });
    } else {
        assert(forall|i: int|
            0 <= i < r.len() ==> (#[trigger] r[i]) == if i == 0 {
                o
            } else {
                s[i - 1]
            });
    }
}

/// A property of every element survives the stable sort.
pub proof fn lemma_sort_all(s: Seq<Order>, k: SortKey, p: spec_fn(Order) -> bool)
    requires
        forall|i: int| 0 <= i < s.len() ==> p(#[trigger] s[i]),
    ensures
        sort_by_key(s, k).len() == s.len(),
        forall|i: int| 0 <= i < s.len() ==> p(#[trigger] sort_by_key(s, k)[i]),
    decreases s.len(),
{
    if s.len() > 0 {
        assert(forall|i: int| 0 <= i < s.drop_last().len() ==> p(#[trigger] s.drop_last()[i]));
        lemma_sort_all(s.drop_last(), k, p);
        lemma_insert_sorted_all(sort_by_key(s.drop_last(), k), s.last(), k, p);
    }
}

/// Distinct ids survive an ordered insert of a new id.
proof fn lemma_insert_sorted_unique(s: Seq<Order>, o: Order, k: SortKey)
    requires
        ids_unique(s),
        forall|i: int| 0 <= i < s.len() ==> (#[trigger] s[i]).id != o.id,
    ensures
        ids_unique(insert_sorted(s, o, k)),
    decreases s.len(),
{
    let r = insert_sorted(s, o, k);
    if s.len() == 0 {
    } else if key_le(k, s[0], o) {
        let rest = s.drop_first();
        assert(forall|i: int| 0 <= i < rest.len() ==> (#[trigger] rest[i]) == s[i + 1]);
        assert(ids_unique(rest));
        lemma_insert_sorted_unique(rest, o, k);
        lemma_insert_sorted_all(rest, o, k, |x: Order| x.id != s[0].id);
        assert(forall|i: int|
            0 <= i < r.len() ==> (#[trigger] r[i]) == if i == 0 {
                s[0]
            } else {
                insert_sorted(rest, o, k)[i - 1]
            });
        assert forall|i: int, j: int| 0 <= i < j < r.len() implies (#[trigger] r[i]).id != (
        #[trigger] r[j]).id by {
            if i == 0 {
                assert(r[j] == insert_sorted(rest, o, k)[j - 1]);
            }
        }
    } else {
        assert(forall|i: int|
            0 <= i < r.len() ==> (#[trigger] r[i]) == if i == 0 {
                o
            } else {
                s[i - 1]
            });
    }
}

/// Distinct ids survive the stable sort.
pub proof fn lemma_sort_unique(s: Seq<Order>, k: SortKey)
    requires
        ids_unique(s),
    ensures
        ids_unique(sort_by_key(s, k)),
    decreases s.len(),
{
    if s.len() > 0 {
        let head = s.drop_last();
        assert(ids_unique(head));
        lemma_sort_unique(head, k);
        lemma_sort_all(head, k, |x: Order| x.id != s.last().id);
        lemma_insert_sorted_unique(sort_by_key(head, k), s.last(), k);
    }
}

/// The total quantity survives an ordered insert.
proof fn lemma_insert_sorted_total(s: Seq<Order>, o: Order, k: SortKey)
    ensures
        total_qty_orders(insert_sorted(s, o, k)) == total_qty_orders(s) + o.quantity,
    decreases s.len(),
{
    let r = insert_sorted(s, o, k);
    if s.len() == 0 {
        assert(r[0] == o);
        assert(r.drop_first() =~= Seq::<Order>::empty());
        assert(total_qty_orders(Seq::<Order>::empty()) == 0);
        assert(total_qty_orders(r) == o.quantity + total_qty_orders(Seq::<Order>::empty()));
    } else if key_le(k, s[0], o) {
        lemma_insert_sorted_total(s.drop_first(), o, k);
        assert(r[0] == s[0]);
        assert(r.drop_first() =~= insert_sorted(s.drop_first(), o, k));
    } else {
        assert(r[0] == o);
        assert(r.drop_first() =~= s);
    }
}

/// The total quantity survives the stable sort.
pub proof fn lemma_sort_total(s: Seq<Order>, k: SortKey)
    ensures
        total_qty_orders(sort_by_key(s, k)) == total_qty_orders(s),
    decreases s.len(),
{
    if s.len() > 0 {
        lemma_sort_total(s.drop_last(), k);
        lemma_insert_sorted_total(sort_by_key(s.drop_last(), k), s.last(), k);
        lemma_total_push(s.drop_last(), s.last());
        assert(s.drop_last().push(s.last()) =~= s);
    }
}

/// Appending one order adds its quantity to the total.
pub proof fn lemma_total_push(s: Seq<Order>, o: Order)
    ensures
        total_qty_orders(s.push(o)) == total_qty_orders(s) + o.quantity,
    decreases s.len(),
{
    if s.len() == 0 {
        assert(s.push(o)[0] == o);
        assert(s.push(o).drop_first() =~= Seq::<Order>::empty());
        assert(total_qty_orders(Seq::<Order>::empty()) == 0);
        assert(total_qty_orders(s.push(o)) == o.quantity + total_qty_orders(
            Seq::<Order>::empty(),
        ));
    } else {
        assert(s.push(o)[0] == s[0]);
        assert(s.push(o).drop_first() =~= s.drop_first().push(o));
        lemma_total_push(s.drop_first(), o);
    }
}

/// The total quantity distributes over concatenation.
pub proof fn lemma_total_concat(a: Seq<Order>, b: Seq<Order>)
    ensures
        total_qty_orders(a + b) == total_qty_orders(a) + total_qty_orders(b),
    decreases a.len(),
{
    if a.len() == 0 {
        assert(a + b =~= b);
    } else {
        assert((a + b)[0] == a[0]);
        assert((a + b).drop_first() =~= a.drop_first() + b);
        lemma_total_concat(a.drop_first(), b);
    }
}

/// The total quantity is never negative.
pub proof fn lemma_total_nonneg(s: Seq<Order>)
    ensures
        total_qty_orders(s) >= 0,
    decreases s.len(),
{
    if s.len() > 0 {
        lemma_total_nonneg(s.drop_first());
    }
}


/// Every element of the sorted run stands somewhere in the input.
pub proof fn lemma_sort_membership(s: Seq<Order>, k: SortKey)
    ensures
        sort_by_key(s, k).len() == s.len(),
        forall|i: int|
            0 <= i < s.len() ==> exists|w: int|
                0 <= w < s.len() && #[trigger] sort_by_key(s, k)[i] == s[w],
{
    let p = |x: Order| exists|w: int| 0 <= w < s.len() && x == #[trigger] s[w];
    assert forall|i: int| 0 <= i < s.len() implies p(#[trigger] s[i]) by {
        assert(s[i] == s[i]);
    }
    lemma_sort_all(s, k, p);
}

/// Concatenating two runs with distinct ids keeps ids distinct.
pub proof fn lemma_unique_concat2(a: Seq<Order>, b: Seq<Order>)
    requires
        ids_unique(a),
        ids_unique(b),
        forall|i: int, j: int|
            0 <= i < a.len() && 0 <= j < b.len() ==> (#[trigger] a[i]).id != (
            #[trigger] b[j]).id,
    ensures
        ids_unique(a + b),
{
    assert forall|i: int, j: int| 0 <= i < j < (a + b).len() implies (#[trigger] (a + b)[i]).id
        != (#[trigger] (a + b)[j]).id by {
        if i < a.len() {
            assert((a + b)[i] == a[i]);
        } else {
            assert((a + b)[i] == b[i - a.len()]);
        }
        if j < a.len() {
            assert((a + b)[j] == a[j]);
        } else {
            assert((a + b)[j] == b[j - a.len()]);
        }
    }
}

impl OrderBook {
    /// Process a sorted batch: market orders first, then limit orders,
    /// each group in its deterministic order, one full submit at a time.
    #[verifier::loop_isolation(false)]
    #[verifier::rlimit(100)]
    fn process_batch(&mut self, batch: OrderBatch)
        requires
            old(self).wf(),
            forall|i: int|
                0 <= i < batch_all(batch@).len() ==> batch_order_ok(
                    old(self)@,
                    #[trigger] batch_all(batch@)[i],
                ),
            ids_unique(batch_all(batch@)),
            old(self)@.next_trade_id + total_qty_orders(batch_all(batch@)) <= u64::MAX,
            crate::model::book_depth(old(self)@) + total_qty_orders(batch_all(batch@))
                <= u64::MAX,
        ensures
            final(self).wf(),
            final(self)@ == apply_seq(old(self)@, batch_run_seq(batch@)),
    {
        let ghost b0 = self@;
        let ghost bv = batch@;
        let ghost s_all = batch_all(bv);
        let ghost run = batch_run_seq(bv);
        let mut batch = batch;
        batch.sort();
        let OrderBatch {
            buy_market_orders: mut all,
            sell_market_orders: mut sm,
            buy_limit_orders: mut bl,
            sell_limit_orders: mut sl,
        } = batch;
        all.append(&mut sm);
        all.append(&mut bl);
        all.append(&mut sl);
        proof {
            assert(all@ =~= run);
            // The per-order conditions, the id distinctness, and the
            // total quantity carry over from the batch to its run order.
            lemma_run_conditions(b0, bv);
        }
        let n_orders = all.len();
        let ghost n = n_orders as int;
        proof {
            assert(n == all@.len());
        }
        let mut k: usize = 0;
        proof {
            assert(run.take(0) =~= Seq::<Order>::empty());
            assert(run.skip(0) =~= run);
            assert(apply_seq(b0, run.take(0)) == b0);
        }
        while all.len() > 0
            invariant
                0 <= k <= n,
                all@ == run.skip(k as int),
                self.wf(),
                self@ == apply_seq(b0, run.take(k as int)),
                self@.next_order_id == b0.next_order_id,
                forall|j: int|
                    k <= j < n ==> !has_order(all_resting(self@), (#[trigger] run[j]).id),
                forall|j: int, t: int|
                    k <= j < n && 0 <= t < self@.trades.len() ==> (
                    #[trigger] self@.trades[t]).buy_order_id != (#[trigger] run[j]).id
                        && self@.trades[t].sell_order_id != run[j].id,
                self@.next_trade_id + total_qty_orders(run.skip(k as int)) <= u64::MAX,
                crate::model::book_depth(self@) + total_qty_orders(run.skip(k as int))
                    <= u64::MAX,
            decreases all@.len(),
        {
            let o = all.remove(0);
            let ghost bprev = self@;
            proof {
                assert(o == run[k as int]);
                assert(all@ =~= run.skip(k as int + 1)) by {
                    assert(run.skip(k as int).drop_first() =~= run.skip(k as int + 1));
                }
                assert(batch_order_ok(b0, o));
                assert(total_qty_orders(run.skip(k as int)) == o.quantity + total_qty_orders(
                    run.skip(k as int + 1),
                )) by {
                    assert(run.skip(k as int)[0] == o);
                    assert(run.skip(k as int).drop_first() =~= run.skip(k as int + 1));
                }
                lemma_total_nonneg(run.skip(k as int + 1));
                assert(crate::preserve::fresh_taker(bprev, o)) by {
                    assert(!has_order(all_resting(bprev), o.id));
                    assert(forall|i: int|
                        0 <= i < all_resting(bprev).len() ==> (
                        #[trigger] all_resting(bprev)[i]).id != o.id);
                    assert(forall|t: int|
                        0 <= t < bprev.trades.len() ==> (#[trigger] bprev.trades[t]).buy_order_id
                            != o.id && bprev.trades[t].sell_order_id != o.id);
                }
            }
            self.process_order(o);
            proof {
                crate::preserve::lemma_apply_seq_push(b0, run.take(k as int), o);
                assert(run.take(k as int).push(o) =~= run.take(k as int + 1));
                crate::preserve::lemma_apply_order_growth(bprev, o);
                assert forall|j: int| k + 1 <= j < n implies !has_order(
                    all_resting(self@),
                    (#[trigger] run[j]).id,
                ) && (forall|t: int|
                    0 <= t < self@.trades.len() ==> (#[trigger] self@.trades[t]).buy_order_id
                        != run[j].id && self@.trades[t].sell_order_id != run[j].id) by {
                    assert(run[j].id != o.id) by {
                        assert(ids_unique(run));
                    }
                    crate::preserve::lemma_apply_order_footprint(bprev, o, run[j].id);
                }
            }
            k = k + 1;
        }
        proof {
            assert(run.take(k as int) =~= run);
        }
    }

    /// Submit a batch of order descriptors. Ids are assigned in input
    /// order — the returned vector matches the input one to one — and
    /// the orders are then processed market-first in the deterministic
    /// batch order. With any malformed descriptor the whole batch is
    /// rejected and the engine is unchanged.
    #[verifier::loop_isolation(false)]
    #[verifier::rlimit(100)]
    pub fn batch_add_orders(
        &mut self,
        orders: Vec<(OrderSide, OrderType, Option<u64>, u64, u64, Option<String>)>,
    ) -> (r: Result<Vec<u64>, EngineError>)
        requires
            old(self).wf(),
            old(self)@.next_order_id + orders@.len() + 1 <= u64::MAX,
            old(self)@.next_trade_id + total_qty_descs(orders@) <= u64::MAX,
            crate::model::book_depth(old(self)@) + total_qty_descs(orders@) <= u64::MAX,
        ensures
            final(self).wf(),
            batch_valid(orders@) ==> (match r {
                Ok(ids) => {
                    &&& ids@.len() == orders@.len()
                    &&& (forall|i: int|
                        0 <= i < ids@.len() ==> #[trigger] ids@[i] == old(
                            self,
                        )@.next_order_id + i)
                    &&& final(self)@ == batch_submit(old(self)@, orders@)
                },
                Err(_) => false,
            }),
            !batch_valid(orders@) ==> r == Err::<Vec<u64>, EngineError>(
                EngineError::InvalidArgument,
            ) && final(self)@ == old(self)@,
    {
        let ghost b0 = self@;
        let ghost descs = orders@;
        let n = orders.len();
        // Validate every descriptor before touching any state.
        let mut v: usize = 0;
        while v < n
            invariant
                0 <= v <= n,
                n == orders@.len(),
                orders@ == descs,
                *self == *old(self),
                forall|i: int|
                    0 <= i < v ==> valid_submission(
                        (#[trigger] descs[i]).1,
                        descs[i].2,
                        descs[i].3,
                    ),
            decreases n - v,
        {
            let d = &orders[v];
            let ok = d.3 > 0 && match d.1 {
                OrderType::Market => d.2.is_none(),
                OrderType::Limit => match d.2 {
                    Option::Some(p) => p > 0,
                    Option::None => false,
                },
            };
            if !ok {
                return Err(EngineError::InvalidArgument);
            }
            v = v + 1;
        }
        // Create the orders, assigning consecutive ids in input order.
        let mut batch = crate::batch::OrderBatch::new();
        let mut ids: Vec<u64> = Vec::new();
        let mut rest = orders;
        let mut c: usize = 0;
        proof {
            assert(descs.take(0) =~= Seq::<(
                OrderSide,
                OrderType,
                Option<u64>,
                u64,
                u64,
                Option<String>,
            )>::empty());
            assert(created_orders(b0.next_order_id, descs.take(0))
                =~= Seq::<Order>::empty());
            lemma_groups_empty();
            assert(batch@ =~= batch_groups(created_orders(b0.next_order_id, descs.take(0))));
        }
        while rest.len() > 0
            invariant
                0 <= c <= n,
                c + rest@.len() == n,
                n == descs.len(),
                rest@ == descs.skip(c as int),
                ids@.len() == c,
                forall|i: int| 0 <= i < c ==> #[trigger] ids@[i] == b0.next_order_id + i,
                self.next_order_id == b0.next_order_id + c,
                self.stats.orders_processed == b0.orders_processed + c,
                self.stats.trades_executed == old(self).stats.trades_executed,
                self.buy_price_levels == old(self).buy_price_levels,
                self.sell_price_levels == old(self).sell_price_levels,
                self.orders_by_id == old(self).orders_by_id,
                self.next_trade_id == old(self).next_trade_id,
                self.trades == old(self).trades,
                batch@ == batch_groups(created_orders(b0.next_order_id, descs.take(c as int))),
            decreases rest@.len(),
        {
            let d = rest.remove(0);
            let ghost cs = created_orders(b0.next_order_id, descs.take(c as int));
            let order_id = self.next_order_id;
            self.next_order_id = self.next_order_id + 1;
            self.stats.orders_processed = self.stats.orders_processed + 1;
            ids.push(order_id);
            let o = crate::order::Order::new(order_id, d.0, d.1, d.2, d.3, d.4, d.5);
            batch.add_order(o);
            proof {
                assert(d == descs[c as int]);
                assert(rest@ =~= descs.skip(c as int + 1)) by {
                    assert(descs.skip(c as int).drop_first() =~= descs.skip(c as int + 1));
                }
                let cs2 = created_orders(b0.next_order_id, descs.take(c as int + 1));
                assert(cs2 =~= cs.push(o));
                lemma_groups_push(cs, o);
                assert(batch@ =~= batch_groups(cs2));
            }
            c = c + 1;
        }
        proof {
            assert(descs.take(c as int) =~= descs);
        }
        // Process in the deterministic batch order.
        let ghost cs = created_orders(b0.next_order_id, descs);
        let ghost bv = batch@;
        proof {
            assert(self@ =~= (BookView {
                next_order_id: b0.next_order_id + descs.len(),
                orders_processed: b0.orders_processed + descs.len(),
                ..b0
            }));
            lemma_created_conditions(b0, descs, self@);
        }
        self.process_batch(batch);
        proof {
            assert(self@ =~= batch_submit(b0, descs));
        }
        Ok(ids)
    }
}

/// The four groups of an empty run are empty.
proof fn lemma_groups_empty()
    ensures
        batch_groups(Seq::<Order>::empty()) =~= (BatchView {
            bm: Seq::<Order>::empty(),
            sm: Seq::<Order>::empty(),
            bl: Seq::<Order>::empty(),
            sl: Seq::<Order>::empty(),
        }),
{
    reveal(Seq::filter);
}

/// Filing one more order extends exactly its own group.
proof fn lemma_groups_push(c: Seq<Order>, o: Order)
    ensures
        batch_groups(c.push(o)) == (match (o.side, o.order_type) {
            (OrderSide::Buy, OrderType::Market) => BatchView {
                bm: batch_groups(c).bm.push(o),
                ..batch_groups(c)
            },
            (OrderSide::Sell, OrderType::Market) => BatchView {
                sm: batch_groups(c).sm.push(o),
                ..batch_groups(c)
            },
            (OrderSide::Buy, OrderType::Limit) => BatchView {
                bl: batch_groups(c).bl.push(o),
                ..batch_groups(c)
            },
            (OrderSide::Sell, OrderType::Limit) => BatchView {
                sl: batch_groups(c).sl.push(o),
                ..batch_groups(c)
            },
        }),
{
    reveal(Seq::filter);
    assert(c.push(o).drop_last() =~= c);
    assert(c.push(o).last() == o);
    assert(batch_groups(c.push(o)) =~= (match (o.side, o.order_type) {
        (OrderSide::Buy, OrderType::Market) => BatchView {
            bm: batch_groups(c).bm.push(o),
            ..batch_groups(c)
        },
        (OrderSide::Sell, OrderType::Market) => BatchView {
            sm: batch_groups(c).sm.push(o),
            ..batch_groups(c)
        },
        (OrderSide::Buy, OrderType::Limit) => BatchView {
            bl: batch_groups(c).bl.push(o),
            ..batch_groups(c)
        },
        (OrderSide::Sell, OrderType::Limit) => BatchView {
            sl: batch_groups(c).sl.push(o),
            ..batch_groups(c)
        },
    }));
}

/// The conditions `process_batch` needs, established for the orders a
/// batch submission creates.
#[verifier::rlimit(100)]
proof fn lemma_created_conditions(
    b0: BookView,
    descs: Seq<(OrderSide, OrderType, Option<u64>, u64, u64, Option<String>)>,
    b1: BookView,
)
    requires
        crate::model::inv(b0),
        batch_valid(descs),
        b0.next_order_id + descs.len() + 1 <= u64::MAX,
        b0.next_trade_id + total_qty_descs(descs) <= u64::MAX,
        crate::model::book_depth(b0) + total_qty_descs(descs) <= u64::MAX,
        b1 == (BookView {
            next_order_id: b0.next_order_id + descs.len(),
            orders_processed: b0.orders_processed + descs.len(),
            ..b0
        }),
    ensures
        crate::model::inv(b1),
        ({
            let bv = batch_groups(created_orders(b0.next_order_id, descs));
            &&& forall|i: int|
                0 <= i < batch_all(bv).len() ==> batch_order_ok(b1, #[trigger] batch_all(bv)[i])
            &&& ids_unique(batch_all(bv))
            &&& total_qty_orders(batch_all(bv)) == total_qty_descs(descs)
            &&& b1.next_trade_id + total_qty_orders(batch_all(bv)) <= u64::MAX
            &&& crate::model::book_depth(b1) + total_qty_orders(batch_all(bv)) <= u64::MAX
        }),
{
    let cs = created_orders(b0.next_order_id, descs);
    let bv = batch_groups(cs);
    let all = batch_all(bv);
    crate::preserve::lemma_bump_inv(b0, descs.len() as int);
    assert(all_resting(b1) == all_resting(b0));
    assert(crate::model::book_depth(b1) == crate::model::book_depth(b0));
    // Each created order is a fresh, valid order of `b1`.
    let okp = |o: Order| batch_order_ok(b1, o);
    assert forall|i: int| 0 <= i < cs.len() implies okp(#[trigger] cs[i]) by {
        let o = cs[i];
        assert(o == crate::model::make_order(
            ((b0.next_order_id + i) as u64),
            descs[i].0,
            descs[i].1,
            descs[i].2,
            descs[i].3,
            descs[i].4,
            descs[i].5,
        ));
        assert(valid_submission(descs[i].1, descs[i].2, descs[i].3));
        assert(!has_order(all_resting(b1), o.id)) by {
            if has_order(all_resting(b1), o.id) {
                let w = choose|x: int|
                    0 <= x < all_resting(b1).len() && all_resting(b1)[x].id == o.id;
                assert(all_resting(b0)[w].id < b0.next_order_id);
            }
        }
    }
    lemma_filter_holds(cs, okp);
    // Distinct ids across the whole batch.
    assert(ids_unique(cs)) by {
        assert(forall|i: int, j: int|
            0 <= i < j < cs.len() ==> (#[trigger] cs[i]).id != (#[trigger] cs[j]).id);
    }
    lemma_groups_unique(cs);
    lemma_groups_total(cs);
    lemma_created_total(b0.next_order_id, descs);
    assert forall|i: int| 0 <= i < all.len() implies batch_order_ok(
        b1,
        #[trigger] all[i],
    ) by {
        lemma_concat4_member(bv, i);
    }
    lemma_total_nonneg(all);
}

/// The created orders carry exactly the descriptors' quantities.
proof fn lemma_created_total(
    next: int,
    ds: Seq<(OrderSide, OrderType, Option<u64>, u64, u64, Option<String>)>,
)
    ensures
        total_qty_orders(created_orders(next, ds)) == total_qty_descs(ds),
    decreases ds.len(),
{
    if ds.len() > 0 {
        assert(created_orders(next, ds).drop_first() =~= created_orders(
            next + 1,
            ds.drop_first(),
        ));
        lemma_created_total(next + 1, ds.drop_first());
        assert(created_orders(next, ds)[0].quantity == ds[0].3);
    }
}

/// A predicate holding of a whole run holds of each of its groups.
proof fn lemma_filter_holds(c: Seq<Order>, p: spec_fn(Order) -> bool)
    requires
        forall|i: int| 0 <= i < c.len() ==> p(#[trigger] c[i]),
    ensures
        forall|i: int|
            0 <= i < batch_all(batch_groups(c)).len() ==> p(
                #[trigger] batch_all(batch_groups(c))[i],
            ),
    decreases c.len(),
{
    reveal(Seq::filter);
    if c.len() == 0 {
        lemma_groups_empty();
    } else {
        assert(forall|i: int|
            0 <= i < c.drop_last().len() ==> p(#[trigger] c.drop_last()[i]));
        lemma_filter_holds(c.drop_last(), p);
        lemma_groups_push(c.drop_last(), c.last());
        assert(c.drop_last().push(c.last()) =~= c);
        let gv = batch_groups(c.drop_last());
        let gv2 = batch_groups(c);
        assert forall|i: int| 0 <= i < batch_all(gv2).len() implies p(
            #[trigger] batch_all(gv2)[i],
        ) by {
            lemma_concat4_member(gv2, i);
            lemma_push_member(gv, gv2, c.last(), i);
        }
    }
}

/// Index case split over the four concatenated groups.
proof fn lemma_concat4_member(bv: BatchView, i: int)
    requires
        0 <= i < batch_all(bv).len(),
    ensures
        ({
            let a = batch_all(bv);
            &&& (i < bv.bm.len() ==> a[i] == bv.bm[i])
            &&& (bv.bm.len() <= i < bv.bm.len() + bv.sm.len() ==> a[i] == bv.sm[i
                - bv.bm.len()])
            &&& (bv.bm.len() + bv.sm.len() <= i < bv.bm.len() + bv.sm.len() + bv.bl.len()
                ==> a[i] == bv.bl[i - bv.bm.len() - bv.sm.len()])
            &&& (bv.bm.len() + bv.sm.len() + bv.bl.len() <= i ==> a[i] == bv.sl[i - bv.bm.len()
                - bv.sm.len() - bv.bl.len()])
        }),
{
}

/// An element of the grown groups is an old group element or the pushed
/// order.
proof fn lemma_push_member(gv: BatchView, gv2: BatchView, o: Order, i: int)
    requires
        0 <= i < batch_all(gv2).len(),
        gv2 == (match (o.side, o.order_type) {
            (OrderSide::Buy, OrderType::Market) => BatchView { bm: gv.bm.push(o), ..gv },
            (OrderSide::Sell, OrderType::Market) => BatchView { sm: gv.sm.push(o), ..gv },
            (OrderSide::Buy, OrderType::Limit) => BatchView { bl: gv.bl.push(o), ..gv },
            (OrderSide::Sell, OrderType::Limit) => BatchView { sl: gv.sl.push(o), ..gv },
        }),
    ensures
        batch_all(gv2)[i] == o || exists|w: int|
            0 <= w < batch_all(gv).len() && batch_all(gv2)[i] == #[trigger] batch_all(gv)[w],
{
    lemma_concat4_member(gv2, i);
    let a = batch_all(gv);
    let x = batch_all(gv2)[i];
    if x != o {
        // It sits in one of the unchanged stretches of the groups.
        assert(exists|w: int| 0 <= w < a.len() && x == #[trigger] a[w]) by {
            let bm = gv.bm;
            let sm = gv.sm;
            let bl = gv.bl;
            let sl = gv.sl;
            if i < gv2.bm.len() {
                assert(x == gv2.bm[i]);
                if gv2.bm.len() == bm.len() {
                    assert(x == #[trigger] a[i]);
                } else {
                    assert(x == bm[i]);
                    assert(x == #[trigger] a[i]);
                }
            } else if i < gv2.bm.len() + gv2.sm.len() {
                let j = i - gv2.bm.len();
                assert(x == gv2.sm[j]);
                assert(x == sm[j]);
                assert(x == #[trigger] a[bm.len() + j]);
            } else if i < gv2.bm.len() + gv2.sm.len() + gv2.bl.len() {
                let j = i - gv2.bm.len() - gv2.sm.len();
                assert(x == gv2.bl[j]);
                assert(x == bl[j]);
                assert(x == #[trigger] a[bm.len() + sm.len() + j]);
            } else {
                let j = i - gv2.bm.len() - gv2.sm.len() - gv2.bl.len();
                assert(x == gv2.sl[j]);
                assert(x == sl[j]);
                assert(x == #[trigger] a[bm.len() + sm.len() + bl.len() + j]);
            }
        }
    }
}

/// Distinct ids in a run give distinct ids across its four groups.
proof fn lemma_groups_unique(c: Seq<Order>)
    requires
        ids_unique(c),
    ensures
        ids_unique(batch_all(batch_groups(c))),
    decreases c.len(),
{
    reveal(Seq::filter);
    if c.len() == 0 {
        lemma_groups_empty();
    } else {
        assert(ids_unique(c.drop_last()));
        lemma_groups_unique(c.drop_last());
        lemma_groups_push(c.drop_last(), c.last());
        assert(c.drop_last().push(c.last()) =~= c);
        let gv = batch_groups(c.drop_last());
        let gv2 = batch_groups(c);
        let o = c.last();
        // Every old batch element carries an id other than the new one.
        assert forall|i: int| 0 <= i < batch_all(gv).len() implies (
        #[trigger] batch_all(gv)[i]).id != o.id by {
            lemma_filter_holds(c.drop_last(), |x: Order| x.id != o.id);
        }
        assert forall|i: int, j: int| 0 <= i < j < batch_all(gv2).len() implies (
        #[trigger] batch_all(gv2)[i]).id != (#[trigger] batch_all(gv2)[j]).id by {
            lemma_push_member(gv, gv2, o, i);
            lemma_push_member(gv, gv2, o, j);
            let a2 = batch_all(gv2);
            if a2[i] == o && a2[j] == o {
                // The pushed order would then also occur among the old
                // elements, whose ids all differ from its own.
                lemma_push_one_position(gv, gv2, o, i, j);
                let w = choose|w: int|
                    0 <= w < batch_all(gv).len() && #[trigger] batch_all(gv)[w] == o;
                assert(batch_all(gv)[w].id != o.id);
            } else if a2[i] == o {
                let w = choose|w: int|
                    0 <= w < batch_all(gv).len() && a2[j] == #[trigger] batch_all(gv)[w];
                assert(batch_all(gv)[w].id != o.id);
            } else if a2[j] == o {
                let w = choose|w: int|
                    0 <= w < batch_all(gv).len() && a2[i] == #[trigger] batch_all(gv)[w];
                assert(batch_all(gv)[w].id != o.id);
            } else {
                let wi = choose|w: int|
                    0 <= w < batch_all(gv).len() && a2[i] == #[trigger] batch_all(gv)[w];
                let wj = choose|w: int|
                    0 <= w < batch_all(gv).len() && a2[j] == #[trigger] batch_all(gv)[w];
                if wi == wj {
                    lemma_push_distinct_positions(gv, gv2, o, i, j);
                } else if wi < wj {
                    assert(batch_all(gv)[wi].id != batch_all(gv)[wj].id);
                } else {
                    assert(batch_all(gv)[wj].id != batch_all(gv)[wi].id);
                }
            }
        }
    }
}

/// When two distinct positions of the grown batch both hold the pushed
/// order, it also occurs among the old elements: only one group grew,
/// by one element at its tail.
proof fn lemma_push_one_position(gv: BatchView, gv2: BatchView, o: Order, i: int, j: int)
    requires
        0 <= i < j < batch_all(gv2).len(),
        gv2 == (match (o.side, o.order_type) {
            (OrderSide::Buy, OrderType::Market) => BatchView { bm: gv.bm.push(o), ..gv },
            (OrderSide::Sell, OrderType::Market) => BatchView { sm: gv.sm.push(o), ..gv },
            (OrderSide::Buy, OrderType::Limit) => BatchView { bl: gv.bl.push(o), ..gv },
            (OrderSide::Sell, OrderType::Limit) => BatchView { sl: gv.sl.push(o), ..gv },
        }),
        batch_all(gv2)[i] == o,
        batch_all(gv2)[j] == o,
    ensures
        exists|w: int| 0 <= w < batch_all(gv).len() && #[trigger] batch_all(gv)[w] == o,
{
    lemma_concat4_member(gv2, i);
    lemma_concat4_member(gv2, j);
    lemma_push_member(gv, gv2, o, i);
    lemma_push_member(gv, gv2, o, j);
    // At most one of the two positions can be the new tail slot; the
    // other is an old element, whose id differs from the new order's.
    let new_slot: int = match (o.side, o.order_type) {
        (OrderSide::Buy, OrderType::Market) => gv.bm.len() as int,
        (OrderSide::Sell, OrderType::Market) => gv2.bm.len() + gv.sm.len() as int,
        (OrderSide::Buy, OrderType::Limit) => gv2.bm.len() + gv2.sm.len() + gv.bl.len() as int,
        (OrderSide::Sell, OrderType::Limit) => gv2.bm.len() + gv2.sm.len() + gv2.bl.len()
            + gv.sl.len() as int,
    };
    let other: int = if i == new_slot {
        j
    } else {
        i
    };
    assert(other != new_slot);
    lemma_push_other_is_old(gv, gv2, o, other, new_slot);
    let w = choose|w: int|
        0 <= w < batch_all(gv).len() && batch_all(gv2)[other] == #[trigger] batch_all(gv)[w];
    assert(batch_all(gv)[w] == o);
}

/// A grown-batch position other than the new tail slot holds an old
/// element.
proof fn lemma_push_other_is_old(gv: BatchView, gv2: BatchView, o: Order, i: int, new_slot: int)
    requires
        0 <= i < batch_all(gv2).len(),
        i != new_slot,
        gv2 == (match (o.side, o.order_type) {
            (OrderSide::Buy, OrderType::Market) => BatchView { bm: gv.bm.push(o), ..gv },
            (OrderSide::Sell, OrderType::Market) => BatchView { sm: gv.sm.push(o), ..gv },
            (OrderSide::Buy, OrderType::Limit) => BatchView { bl: gv.bl.push(o), ..gv },
            (OrderSide::Sell, OrderType::Limit) => BatchView { sl: gv.sl.push(o), ..gv },
        }),
        new_slot == (match (o.side, o.order_type) {
            (OrderSide::Buy, OrderType::Market) => gv.bm.len() as int,
            (OrderSide::Sell, OrderType::Market) => gv2.bm.len() + gv.sm.len() as int,
            (OrderSide::Buy, OrderType::Limit) => gv2.bm.len() + gv2.sm.len() + gv.bl.len()
                as int,
            (OrderSide::Sell, OrderType::Limit) => gv2.bm.len() + gv2.sm.len() + gv2.bl.len()
                + gv.sl.len() as int,
        }),
    ensures
        exists|w: int|
            0 <= w < batch_all(gv).len() && batch_all(gv2)[i] == #[trigger] batch_all(gv)[w],
{
    lemma_concat4_member(gv2, i);
    let a = batch_all(gv);
    let x = batch_all(gv2)[i];
    let bm = gv.bm;
    let sm = gv.sm;
    let bl = gv.bl;
    let sl = gv.sl;
    match (o.side, o.order_type) {
        (OrderSide::Buy, OrderType::Market) => {
            if i < gv2.bm.len() {
                assert(i < bm.len());
                assert(x == bm[i]);
                assert(x == #[trigger] a[i]);
            } else if i < gv2.bm.len() + gv2.sm.len() {
                let j = i - gv2.bm.len();
                assert(x == sm[j]);
                assert(x == #[trigger] a[bm.len() + j]);
            } else if i < gv2.bm.len() + gv2.sm.len() + gv2.bl.len() {
                let j = i - gv2.bm.len() - gv2.sm.len();
                assert(x == bl[j]);
                assert(x == #[trigger] a[bm.len() + sm.len() + j]);
            } else {
                let j = i - gv2.bm.len() - gv2.sm.len() - gv2.bl.len();
                assert(x == sl[j]);
                assert(x == #[trigger] a[bm.len() + sm.len() + bl.len() + j]);
            }
        },
        (OrderSide::Sell, OrderType::Market) => {
            if i < gv2.bm.len() {
                assert(x == bm[i]);
                assert(x == #[trigger] a[i]);
            } else if i < gv2.bm.len() + gv2.sm.len() {
                let j = i - gv2.bm.len();
                assert(j < sm.len());
                assert(x == sm[j]);
                assert(x == #[trigger] a[bm.len() + j]);
            } else if i < gv2.bm.len() + gv2.sm.len() + gv2.bl.len() {
                let j = i - gv2.bm.len() - gv2.sm.len();
                assert(x == bl[j]);
                assert(x == #[trigger] a[bm.len() + sm.len() + j]);
            } else {
                let j = i - gv2.bm.len() - gv2.sm.len() - gv2.bl.len();
                assert(x == sl[j]);
                assert(x == #[trigger] a[bm.len() + sm.len() + bl.len() + j]);
            }
        },
        (OrderSide::Buy, OrderType::Limit) => {
            if i < gv2.bm.len() {
                assert(x == bm[i]);
                assert(x == #[trigger] a[i]);
            } else if i < gv2.bm.len() + gv2.sm.len() {
                let j = i - gv2.bm.len();
                assert(x == sm[j]);
                assert(x == #[trigger] a[bm.len() + j]);
            } else if i < gv2.bm.len() + gv2.sm.len() + gv2.bl.len() {
                let j = i - gv2.bm.len() - gv2.sm.len();
                assert(j < bl.len());
                assert(x == bl[j]);
                assert(x == #[trigger] a[bm.len() + sm.len() + j]);
            } else {
                let j = i - gv2.bm.len() - gv2.sm.len() - gv2.bl.len();
                assert(x == sl[j]);
                assert(x == #[trigger] a[bm.len() + sm.len() + bl.len() + j]);
            }
        },
        (OrderSide::Sell, OrderType::Limit) => {
            if i < gv2.bm.len() {
                assert(x == bm[i]);
                assert(x == #[trigger] a[i]);
            } else if i < gv2.bm.len() + gv2.sm.len() {
                let j = i - gv2.bm.len();
                assert(x == sm[j]);
                assert(x == #[trigger] a[bm.len() + j]);
            } else if i < gv2.bm.len() + gv2.sm.len() + gv2.bl.len() {
                let j = i - gv2.bm.len() - gv2.sm.len();
                assert(x == bl[j]);
                assert(x == #[trigger] a[bm.len() + sm.len() + j]);
            } else {
                let j = i - gv2.bm.len() - gv2.sm.len() - gv2.bl.len();
                assert(j < sl.len());
                assert(x == sl[j]);
                assert(x == #[trigger] a[bm.len() + sm.len() + bl.len() + j]);
            }
        },
    }
}

/// Two distinct positions holding old elements map to distinct old
/// positions unless the elements are equal; with equal elements the two
/// positions both lie in unchanged stretches, which is impossible only
/// when they collide — resolved by id distinctness at the call site.
proof fn lemma_push_distinct_positions(gv: BatchView, gv2: BatchView, o: Order, i: int, j: int)
    requires
        0 <= i < j < batch_all(gv2).len(),
        gv2 == (match (o.side, o.order_type) {
            (OrderSide::Buy, OrderType::Market) => BatchView { bm: gv.bm.push(o), ..gv },
            (OrderSide::Sell, OrderType::Market) => BatchView { sm: gv.sm.push(o), ..gv },
            (OrderSide::Buy, OrderType::Limit) => BatchView { bl: gv.bl.push(o), ..gv },
            (OrderSide::Sell, OrderType::Limit) => BatchView { sl: gv.sl.push(o), ..gv },
        }),
        ids_unique(batch_all(gv)),
        forall|w: int|
            0 <= w < batch_all(gv).len() ==> (#[trigger] batch_all(gv)[w]).id != o.id,
        batch_all(gv2)[i] != o,
        batch_all(gv2)[j] != o,
    ensures
        batch_all(gv2)[i].id != batch_all(gv2)[j].id,
{
    lemma_old_position_map(gv, gv2, o, i);
    lemma_old_position_map(gv, gv2, o, j);
    let wi = old_batch_pos(gv, gv2, o, i);
    let wj = old_batch_pos(gv, gv2, o, j);
    assert(wi != wj);
    if wi < wj {
        assert(batch_all(gv)[wi].id != batch_all(gv)[wj].id);
    } else {
        assert(batch_all(gv)[wj].id != batch_all(gv)[wi].id);
    }
}

/// The old position of a grown-batch element that is not the pushed
/// order.
spec fn old_batch_pos(gv: BatchView, gv2: BatchView, o: Order, i: int) -> int {
    if i < gv2.bm.len() {
        i
    } else if i < gv2.bm.len() + gv2.sm.len() {
        gv.bm.len() + (i - gv2.bm.len())
    } else if i < gv2.bm.len() + gv2.sm.len() + gv2.bl.len() {
        gv.bm.len() + gv.sm.len() + (i - gv2.bm.len() - gv2.sm.len())
    } else {
        gv.bm.len() + gv.sm.len() + gv.bl.len() + (i - gv2.bm.len() - gv2.sm.len()
            - gv2.bl.len())
    }
}

/// A non-pushed element of the grown batch equals the old element at its
/// mapped position, and the map is strictly monotone.
proof fn lemma_old_position_map(gv: BatchView, gv2: BatchView, o: Order, i: int)
    requires
        0 <= i < batch_all(gv2).len(),
        gv2 == (match (o.side, o.order_type) {
            (OrderSide::Buy, OrderType::Market) => BatchView { bm: gv.bm.push(o), ..gv },
            (OrderSide::Sell, OrderType::Market) => BatchView { sm: gv.sm.push(o), ..gv },
            (OrderSide::Buy, OrderType::Limit) => BatchView { bl: gv.bl.push(o), ..gv },
            (OrderSide::Sell, OrderType::Limit) => BatchView { sl: gv.sl.push(o), ..gv },
        }),
        batch_all(gv2)[i] != o,
    ensures
        0 <= old_batch_pos(gv, gv2, o, i) < batch_all(gv).len(),
        batch_all(gv2)[i] == batch_all(gv)[old_batch_pos(gv, gv2, o, i)],
        forall|j: int|
            0 <= j < i && batch_all(gv2)[j] != o ==> #[trigger] old_batch_pos(gv, gv2, o, j)
                < old_batch_pos(gv, gv2, o, i),
{
    lemma_concat4_member(gv2, i);
    assert forall|j: int| 0 <= j < i && batch_all(gv2)[j] != o implies #[trigger] old_batch_pos(
        gv,
        gv2,
        o,
        j,
    ) < old_batch_pos(gv, gv2, o, i) by {
        lemma_concat4_member(gv2, j);
    }
}

/// The total quantity of the grouped batch equals the run's.
proof fn lemma_groups_total(c: Seq<Order>)
    ensures
        total_qty_orders(batch_all(batch_groups(c))) == total_qty_orders(c),
    decreases c.len(),
{
    reveal(Seq::filter);
    if c.len() == 0 {
        lemma_groups_empty();
    } else {
        lemma_groups_total(c.drop_last());
        lemma_groups_push(c.drop_last(), c.last());
        assert(c.drop_last().push(c.last()) =~= c);
        lemma_total_push(c.drop_last(), c.last());
        let gv = batch_groups(c.drop_last());
        let gv2 = batch_groups(c);
        let o = c.last();
        lemma_total_concat(gv.bm, gv.sm);
        lemma_total_concat(gv.bm + gv.sm, gv.bl);
        lemma_total_concat(gv.bm + gv.sm + gv.bl, gv.sl);
        lemma_total_concat(gv2.bm, gv2.sm);
        lemma_total_concat(gv2.bm + gv2.sm, gv2.bl);
        lemma_total_concat(gv2.bm + gv2.sm + gv2.bl, gv2.sl);
        match (o.side, o.order_type) {
            (OrderSide::Buy, OrderType::Market) => {
                lemma_total_push(gv.bm, o);
            },
            (OrderSide::Sell, OrderType::Market) => {
                lemma_total_push(gv.sm, o);
            },
            (OrderSide::Buy, OrderType::Limit) => {
                lemma_total_push(gv.bl, o);
            },
            (OrderSide::Sell, OrderType::Limit) => {
                lemma_total_push(gv.sl, o);
            },
        }
    }
}

/// The run-order conditions for `process_batch`: the per-order facts,
/// the id distinctness, and the totals carry from the batch groups to
/// the concatenated sorted run.
#[verifier::rlimit(100)]
proof fn lemma_run_conditions(b0: BookView, bv: BatchView)
    requires
        forall|i: int|
            0 <= i < batch_all(bv).len() ==> batch_order_ok(b0, #[trigger] batch_all(bv)[i]),
        ids_unique(batch_all(bv)),
    ensures
        batch_run_seq(bv).len() == batch_all(bv).len(),
        forall|i: int|
            0 <= i < batch_run_seq(bv).len() ==> batch_order_ok(
                b0,
                #[trigger] batch_run_seq(bv)[i],
            ),
        ids_unique(batch_run_seq(bv)),
        total_qty_orders(batch_run_seq(bv)) == total_qty_orders(batch_all(bv)),
{
    let okp = |x: Order| batch_order_ok(b0, x);
    let a = batch_all(bv);
    // Conditions per group, from the combined sequence.
    assert(forall|i: int| 0 <= i < bv.bm.len() ==> a[i] == #[trigger] bv.bm[i]);
    assert(forall|i: int|
        0 <= i < bv.sm.len() ==> a[bv.bm.len() + i] == #[trigger] bv.sm[i]);
    assert(forall|i: int|
        0 <= i < bv.bl.len() ==> a[bv.bm.len() + bv.sm.len() + i] == #[trigger] bv.bl[i]);
    assert(forall|i: int|
        0 <= i < bv.sl.len() ==> a[bv.bm.len() + bv.sm.len() + bv.bl.len() + i]
            == #[trigger] bv.sl[i]);
    assert(forall|i: int| 0 <= i < bv.bm.len() ==> okp(#[trigger] bv.bm[i]));
    assert(forall|i: int| 0 <= i < bv.sm.len() ==> okp(#[trigger] bv.sm[i]));
    assert(forall|i: int| 0 <= i < bv.bl.len() ==> okp(#[trigger] bv.bl[i]));
    assert(forall|i: int| 0 <= i < bv.sl.len() ==> okp(#[trigger] bv.sl[i]));
    assert(ids_unique(bv.bm));
    assert(ids_unique(bv.sm));
    assert(ids_unique(bv.bl));
    assert(ids_unique(bv.sl));
    let s1 = sort_by_key(bv.bm, SortKey::MarketTime);
    let s2 = sort_by_key(bv.sm, SortKey::MarketTime);
    let s3 = sort_by_key(bv.bl, SortKey::BuyLimit);
    let s4 = sort_by_key(bv.sl, SortKey::SellLimit);
    lemma_sort_all(bv.bm, SortKey::MarketTime, okp);
    lemma_sort_all(bv.sm, SortKey::MarketTime, okp);
    lemma_sort_all(bv.bl, SortKey::BuyLimit, okp);
    lemma_sort_all(bv.sl, SortKey::SellLimit, okp);
    lemma_sort_unique(bv.bm, SortKey::MarketTime);
    lemma_sort_unique(bv.sm, SortKey::MarketTime);
    lemma_sort_unique(bv.bl, SortKey::BuyLimit);
    lemma_sort_unique(bv.sl, SortKey::SellLimit);
    lemma_sort_membership(bv.bm, SortKey::MarketTime);
    lemma_sort_membership(bv.sm, SortKey::MarketTime);
    lemma_sort_membership(bv.bl, SortKey::BuyLimit);
    lemma_sort_membership(bv.sl, SortKey::SellLimit);
    lemma_sort_total(bv.bm, SortKey::MarketTime);
    lemma_sort_total(bv.sm, SortKey::MarketTime);
    lemma_sort_total(bv.bl, SortKey::BuyLimit);
    lemma_sort_total(bv.sl, SortKey::SellLimit);
    lemma_total_concat(bv.bm, bv.sm);
    lemma_total_concat(bv.bm + bv.sm, bv.bl);
    lemma_total_concat(bv.bm + bv.sm + bv.bl, bv.sl);
    lemma_total_concat(s1, s2);
    lemma_total_concat(s1 + s2, s3);
    lemma_total_concat(s1 + s2 + s3, s4);
    assert(a =~= (bv.bm + bv.sm + bv.bl) + bv.sl);
    assert(bv.bm + bv.sm + bv.bl =~= (bv.bm + bv.sm) + bv.bl);
    assert(batch_run_seq(bv) =~= ((s1 + s2) + s3) + s4);
    // Cross-group id distinctness, through sort membership.
    assert forall|i: int, j: int|
        0 <= i < s1.len() && 0 <= j < s2.len() implies (#[trigger] s1[i]).id != (
    #[trigger] s2[j]).id by {
        let wi = choose|w: int| 0 <= w < bv.bm.len() && s1[i] == #[trigger] bv.bm[w];
        let wj = choose|w: int| 0 <= w < bv.sm.len() && s2[j] == #[trigger] bv.sm[w];
        assert(a[wi].id != a[bv.bm.len() + wj].id);
    }
    lemma_unique_concat2(s1, s2);
    assert forall|i: int, j: int|
        0 <= i < (s1 + s2).len() && 0 <= j < s3.len() implies (#[trigger] (s1 + s2)[i]).id != (
    #[trigger] s3[j]).id by {
        let wj = choose|w: int| 0 <= w < bv.bl.len() && s3[j] == #[trigger] bv.bl[w];
        if i < s1.len() {
            let wi = choose|w: int| 0 <= w < bv.bm.len() && s1[i] == #[trigger] bv.bm[w];
            assert(a[wi].id != a[bv.bm.len() + bv.sm.len() + wj].id);
        } else {
            let wi = choose|w: int|
                0 <= w < bv.sm.len() && s2[i - s1.len()] == #[trigger] bv.sm[w];
            assert(a[bv.bm.len() + wi].id != a[bv.bm.len() + bv.sm.len() + wj].id);
        }
    }
    lemma_unique_concat2(s1 + s2, s3);
    assert forall|i: int, j: int|
        0 <= i < (s1 + s2 + s3).len() && 0 <= j < s4.len() implies (#[trigger] (s1 + s2
        + s3)[i]).id != (#[trigger] s4[j]).id by {
        let wj = choose|w: int| 0 <= w < bv.sl.len() && s4[j] == #[trigger] bv.sl[w];
        if i < s1.len() {
            let wi = choose|w: int| 0 <= w < bv.bm.len() && s1[i] == #[trigger] bv.bm[w];
            assert(a[wi].id != a[bv.bm.len() + bv.sm.len() + bv.bl.len() + wj].id);
        } else if i < s1.len() + s2.len() {
            let wi = choose|w: int|
                0 <= w < bv.sm.len() && s2[i - s1.len()] == #[trigger] bv.sm[w];
            assert(a[bv.bm.len() + wi].id != a[bv.bm.len() + bv.sm.len() + bv.bl.len()
                + wj].id);
        } else {
            let wi = choose|w: int|
                0 <= w < bv.bl.len() && s3[i - s1.len() - s2.len()] == #[trigger] bv.bl[w];
            assert(a[bv.bm.len() + bv.sm.len() + wi].id != a[bv.bm.len() + bv.sm.len()
                + bv.bl.len() + wj].id);
        }
    }
    lemma_unique_concat2(s1 + s2 + s3, s4);
}

} // verus!