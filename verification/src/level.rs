//! A price level: the FIFO queue of resting orders sharing one price,
//! with a cached aggregate of their remaining quantities.

use vstd::prelude::*;
use crate::order::Order;

verus! {

/// Sum of `remaining_quantity` over a queue of orders.
pub open spec fn sum_remaining(s: Seq<Order>) -> int
    decreases s.len(),
{
    if s.len() == 0 {
        0
    } else {
        s[0].remaining_quantity + sum_remaining(s.drop_first())
    }
}

/// Appending an order adds its remaining quantity to the sum.
pub proof fn lemma_sum_remaining_push(s: Seq<Order>, o: Order)
    ensures
        sum_remaining(s.push(o)) == sum_remaining(s) + o.remaining_quantity,
    decreases s.len(),
{
    if s.len() == 0 {
        assert(s.push(o)[0] == o);
        assert(s.push(o).drop_first() =~= Seq::<Order>::empty());
        assert(sum_remaining(Seq::<Order>::empty()) == 0);
        assert(sum_remaining(s.push(o))
            == o.remaining_quantity + sum_remaining(Seq::<Order>::empty()));
    } else {
        assert(s.push(o)[0] == s[0]);
        assert(s.push(o).drop_first() =~= s.drop_first().push(o));
        lemma_sum_remaining_push(s.drop_first(), o);
        assert(sum_remaining(s.push(o))
            == s[0].remaining_quantity + sum_remaining(s.drop_first().push(o)));
        assert(sum_remaining(s) == s[0].remaining_quantity + sum_remaining(s.drop_first()));
    }
}

/// Removing an order subtracts its remaining quantity from the sum.
pub proof fn lemma_sum_remaining_remove(s: Seq<Order>, i: int)
    requires
        0 <= i < s.len(),
    ensures
        sum_remaining(s.remove(i)) == sum_remaining(s) - s[i].remaining_quantity,
    decreases s.len(),
{
    if i == 0 {
        assert(s.remove(0) =~= s.drop_first());
    } else {
        assert(s.remove(i).drop_first() =~= s.drop_first().remove(i - 1));
        lemma_sum_remaining_remove(s.drop_first(), i - 1);
    }
}

/// Every order in the queue contributes a nonnegative amount.
pub proof fn lemma_sum_remaining_bounds(s: Seq<Order>, i: int)
    requires
        0 <= i < s.len(),
    ensures
        sum_remaining(s) >= s[i].remaining_quantity,
        sum_remaining(s) >= 0,
    decreases s.len(),
{
    if s.len() > 0 {
        lemma_sum_remaining_nonneg(s.drop_first());
        if i > 0 {
            lemma_sum_remaining_bounds(s.drop_first(), i - 1);
        }
    }
}

/// The sum of remaining quantities is never negative.
pub proof fn lemma_sum_remaining_nonneg(s: Seq<Order>)
    ensures
        sum_remaining(s) >= 0,
    decreases s.len(),
{
    if s.len() > 0 {
        lemma_sum_remaining_nonneg(s.drop_first());
    }
}

/// First position in the queue holding the given order id, or the length
/// of the queue when the id does not occur.
pub open spec fn find_order(s: Seq<Order>, id: u64) -> int
    decreases s.len(),
{
    if s.len() == 0 {
        0
    } else if s[0].id == id {
        0
    } else {
        1 + find_order(s.drop_first(), id)
    }
}

/// Whether some order in the queue carries the given id.
pub open spec fn has_order(s: Seq<Order>, id: u64) -> bool {
    exists|i: int| 0 <= i < s.len() && s[i].id == id
}

/// `find_order` lands on the first occurrence of the id, and past the end
/// exactly when the id does not occur.
pub proof fn lemma_find_order(s: Seq<Order>, id: u64)
    ensures
        has_order(s, id) ==> {
            let i = find_order(s, id);
            &&& 0 <= i < s.len()
            &&& s[i].id == id
            &&& forall|j: int| 0 <= j < i ==> s[j].id != id
        },
        !has_order(s, id) ==> find_order(s, id) == s.len(),
    decreases s.len(),
{
    if s.len() == 0 {
    } else if s[0].id == id {
    } else {
        lemma_find_order(s.drop_first(), id);
        assert(forall|i: int|
            1 <= i < s.len() ==> s[i] == s.drop_first()[i - 1]);
        if has_order(s, id) {
            let w = choose|i: int| 0 <= i < s.len() && s[i].id == id;
            assert(s.drop_first()[w - 1].id == id);
            assert(has_order(s.drop_first(), id));
        } else {
            if has_order(s.drop_first(), id) {
                let w = choose|i: int|
                    0 <= i < s.drop_first().len() && s.drop_first()[i].id == id;
                assert(s[w + 1].id == id);
            }
        }
    }
}

/// A FIFO queue of resting orders at one price. `orders` is oldest-first:
/// new orders append at the tail, matching consumes from the head.
/// `total_quantity_cache` always equals the sum of the orders' remaining
/// quantities.
#[derive(Debug)]
pub struct PriceLevel {
    pub price: u64,
    pub orders: Vec<Order>,
    pub total_quantity_cache: u64,
}

impl PriceLevel {
    /// The cached aggregate agrees with the queue.
    pub open spec fn cache_ok(self) -> bool {
        self.total_quantity_cache == sum_remaining(self.orders@)
    }

    /// An empty level at the given price.
    pub fn new(price: u64) -> (r: PriceLevel)
        ensures
            r.price == price,
            r.orders@ == Seq::<Order>::empty(),
            r.total_quantity_cache == 0,
            r.cache_ok(),
    {
        PriceLevel { price, orders: Vec::new(), total_quantity_cache: 0 }
    }

    /// Append an order at the tail of the FIFO queue.
    pub fn add_order(&mut self, order: Order)
        requires
            old(self).cache_ok(),
            old(self).total_quantity_cache + order.remaining_quantity <= u64::MAX,
        ensures
            final(self).price == old(self).price,
            final(self).orders@ == old(self).orders@.push(order),
            final(self).total_quantity_cache
                == old(self).total_quantity_cache + order.remaining_quantity,
            final(self).cache_ok(),
    {
        proof {
            lemma_sum_remaining_push(self.orders@, order);
        }
        self.total_quantity_cache = self.total_quantity_cache + order.remaining_quantity;
        self.orders.push(order);
    }

    /// Remove the order with the given id, keeping the queue order of the
    /// other orders, and return it; `None` when the id is not here.
    pub fn remove_order(&mut self, order_id: u64) -> (r: Option<Order>)
        requires
            old(self).cache_ok(),
        ensures
            final(self).price == old(self).price,
            has_order(old(self).orders@, order_id) ==> {
                let i = find_order(old(self).orders@, order_id);
                &&& r == Some(old(self).orders@[i])
                &&& final(self).orders@ == old(self).orders@.remove(i)
            },
            !has_order(old(self).orders@, order_id) ==> {
                &&& r is None
                &&& final(self).orders@ == old(self).orders@
            },
            final(self).cache_ok(),
    {
        let mut i: usize = 0;
        #[verifier::loop_isolation(false)]
        while i < self.orders.len()
            invariant
                *self == *old(self),
                0 <= i <= self.orders.len(),
                forall|j: int| 0 <= j < i ==> self.orders@[j].id != order_id,
            decreases self.orders.len() - i,
        {
            if self.orders[i].id == order_id {
                proof {
                    lemma_find_order(self.orders@, order_id);
                    lemma_sum_remaining_remove(self.orders@, i as int);
                    lemma_sum_remaining_bounds(self.orders@, i as int);
                    lemma_sum_remaining_nonneg(self.orders@.remove(i as int));
                }
                let removed = self.orders.remove(i);
                self.total_quantity_cache =
                    self.total_quantity_cache - removed.remaining_quantity;
                return Some(removed);
            }
            i = i + 1;
        }
        proof {
            lemma_find_order(self.orders@, order_id);
        }
        None
    }

    /// Recompute the aggregate from the queue. The cache is already exact,
    /// so this is a checked identity; it mirrors the lazy-cache interface.
    pub fn update_quantity_cache(&mut self)
        requires
            old(self).cache_ok(),
        ensures
            *final(self) == *old(self),
    {
        let mut total: u64 = 0;
        let mut i: usize = 0;
        #[verifier::loop_isolation(false)]
        while i < self.orders.len()
            invariant
                *self == *old(self),
                0 <= i <= self.orders.len(),
                total == sum_remaining(self.orders@.take(i as int)),
                total <= self.total_quantity_cache,
            decreases self.orders.len() - i,
        {
            proof {
                lemma_sum_remaining_push(self.orders@.take(i as int), self.orders@[i as int]);
                assert(self.orders@.take(i as int + 1)
                    =~= self.orders@.take(i as int).push(self.orders@[i as int]));
                lemma_sum_take_le(self.orders@, i as int + 1);
            }
            total = total + self.orders[i].remaining_quantity;
            i = i + 1;
        }
        proof {
            assert(self.orders@.take(i as int) =~= self.orders@);
        }
        self.total_quantity_cache = total;
    }

    /// Aggregate remaining quantity at this level.
    pub fn total_quantity(&mut self) -> (r: u64)
        requires
            old(self).cache_ok(),
        ensures
            *final(self) == *old(self),
            r == sum_remaining(old(self).orders@),
    {
        self.update_quantity_cache();
        self.total_quantity_cache
    }

    /// Whether no order rests here.
    pub fn is_empty(&self) -> (r: bool)
        ensures
            r <==> self.orders@.len() == 0,
    {
        self.orders.is_empty()
    }
}

/// A prefix of the queue never sums to more than the whole queue.
pub proof fn lemma_sum_take_le(s: Seq<Order>, n: int)
    requires
        0 <= n <= s.len(),
    ensures
        sum_remaining(s.take(n)) <= sum_remaining(s),
    decreases s.len() - n,
{
    if n < s.len() {
        lemma_sum_remaining_push(s.take(n), s[n]);
        assert(s.take(n + 1) =~= s.take(n).push(s[n]));
        lemma_sum_take_le(s, n + 1);
    } else {
        assert(s.take(n) =~= s);
    }
}


impl Clone for PriceLevel {
    fn clone(&self) -> (r: PriceLevel)
        ensures
            r.price == self.price,
            r.orders@ == self.orders@,
            r.total_quantity_cache == self.total_quantity_cache,
    {
        let r = PriceLevel {
            price: self.price,
            orders: self.orders.clone(),
            total_quantity_cache: self.total_quantity_cache,
        };
        proof {
            assert(r.orders@ =~= self.orders@) by {
                assert(forall|i: int|
                    0 <= i < self.orders@.len() ==> vstd::pervasive::cloned::<Order>(
                        self.orders@[i],
                        #[trigger] r.orders@[i],
                    ));
            }
        }
        r
    }
}

} // verus!