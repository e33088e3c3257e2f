//! Preservation of the book invariant across the model transitions:
//! matching, resting a residue, a whole submit, and a cancel.

use vstd::prelude::*;
use crate::order::{Order, OrderSide, OrderStatus, OrderType, Trade};
use crate::level::has_order;
use crate::model::{
    all_resting, apply_limit, apply_order, better, book_after_match, book_submit, crosses, flat,
    ids_of, ids_unique, insert_resting, inv, level_ok, limit_price, make_order, match_book,
    opposite, order_ok, remove_ids, resting_residue, same_terms, side_levels, side_ok,
    traded_qty, valid_submission, with_side_levels, BookMatch, BookView, LevelSnap,
};
use crate::lemmas::{
    book_walk_pre, lemma_match_book_accounting_at, lemma_match_book_ids, lemma_match_book_shape,
    lemma_match_book_sums, lemma_match_book_trades_at, lemma_match_book_untouched,
    lemma_traded_qty_concat,
};

verus! {

/// The match outcome a taker obtains against the book.
pub open spec fn taker_out(b: BookView, o: Order, limit: Option<u64>) -> BookMatch {
    match_book(
        o,
        o.remaining_quantity as int,
        b.next_trade_id,
        side_levels(b, opposite(o.side)),
        limit,
    )
}

/// A just-created order: nothing filled, id assigned by this engine and
/// never seen by the book or the trade log, enough trade-id headroom.
pub open spec fn fresh_taker(b: BookView, o: Order) -> bool {
    &&& o.status == OrderStatus::New
    &&& o.filled_quantity == 0
    &&& o.remaining_quantity == o.quantity
    &&& 0 < o.quantity
    &&& 1 <= o.id < b.next_order_id
    &&& (forall|i: int|
        0 <= i < all_resting(b).len() ==> (#[trigger] all_resting(b)[i]).id != o.id)
    &&& (forall|i: int|
        0 <= i < b.trades.len() ==> (#[trigger] b.trades[i]).buy_order_id != o.id
            && b.trades[i].sell_order_id != o.id)
    &&& b.next_trade_id + o.quantity <= u64::MAX
}

/// Where the order standing at position `i` of the resting sequence
/// after a match stood before it: the walked side loses its first `d`
/// orders, the taker's own side is untouched.
pub open spec fn old_pos(b: BookView, o: Order, i: int, d: int) -> int {
    if o.side == OrderSide::Buy && i < flat(b.buys).len() {
        i
    } else {
        i + d
    }
}

/// Whether the order at old position `w` was consumed by the match.
pub open spec fn consumed_pos(b: BookView, o: Order, w: int, d: int) -> bool {
    if o.side == OrderSide::Buy {
        flat(b.buys).len() <= w < flat(b.buys).len() + d
    } else {
        0 <= w < d
    }
}

/// Where the surviving order at old position `w` stands after the match.
pub open spec fn new_pos(b: BookView, o: Order, w: int, d: int) -> int {
    if o.side == OrderSide::Buy && w < flat(b.buys).len() {
        w
    } else {
        w - d
    }
}

/// How the combined resting sequence decomposes into the two sides.
pub proof fn lemma_all_resting_parts(b: BookView)
    ensures
        all_resting(b).len() == flat(b.buys).len() + flat(b.sells).len(),
        forall|i: int|
            0 <= i < flat(b.buys).len() ==> all_resting(b)[i] == flat(b.buys)[i],
        forall|i: int|
            0 <= i < flat(b.sells).len() ==> all_resting(b)[flat(b.buys).len() + i] == flat(
                b.sells,
            )[i],
{
}

/// What `remove_ids` keeps: exactly the keys not listed, with their
/// values.
pub proof fn lemma_remove_ids_semantics(m: Map<u64, (OrderSide, u64)>, ids: Seq<u64>, k: u64)
    ensures
        remove_ids(m, ids).contains_key(k) <==> (m.contains_key(k) && !ids.contains(k)),
        remove_ids(m, ids).contains_key(k) ==> remove_ids(m, ids)[k] == m[k],
    decreases ids.len(),
{
    if ids.len() == 0 {
    } else {
        lemma_remove_ids_semantics(m.remove(ids[0]), ids.drop_first(), k);
        assert(ids.contains(k) <==> (ids[0] == k || ids.drop_first().contains(k))) by {
            if ids.contains(k) {
                let w = choose|i: int| 0 <= i < ids.len() && ids[i] == k;
                if w > 0 {
                    assert(ids.drop_first()[w - 1] == k);
                }
            }
            if ids.drop_first().contains(k) {
                let w = choose|i: int|
                    0 <= i < ids.drop_first().len() && ids.drop_first()[i] == k;
                assert(ids[w + 1] == k);
            }
        }
    }
}

/// The walk preconditions hold for a fresh taker against the opposite
/// side of a well-formed book.
pub proof fn lemma_taker_walk_pre(b: BookView, o: Order)
    requires
        inv(b),
        fresh_taker(b, o),
    ensures
        book_walk_pre(
            o,
            o.remaining_quantity as int,
            b.next_trade_id,
            side_levels(b, opposite(o.side)),
            opposite(o.side),
        ),
{
    let opp = side_levels(b, opposite(o.side));
    let fm = flat(opp);
    lemma_all_resting_parts(b);
    let off: int = if o.side == OrderSide::Buy {
        flat(b.buys).len() as int
    } else {
        0
    };
    assert(forall|i: int| 0 <= i < fm.len() ==> fm[i] == all_resting(b)[off + i]);
    assert(ids_unique(fm));
    assert(forall|i: int| 0 <= i < fm.len() ==> (#[trigger] fm[i]).id != o.id);
}

/// Facts about sizes and totals of a fresh taker's match.
pub proof fn lemma_match_sizes(b: BookView, o: Order, limit: Option<u64>)
    requires
        inv(b),
        fresh_taker(b, o),
    ensures
        ({
            let out = taker_out(b, o, limit);
            let b2 = book_after_match(b, o.side, out);
            let d = out.removed.len() as int;
            &&& 0 <= d <= all_resting(b).len()
            &&& all_resting(b2).len() == all_resting(b).len() - d
            &&& side_levels(b2, o.side) == side_levels(b, o.side)
            &&& b2.next_order_id == b.next_order_id
            &&& side_ok(out.levels, opposite(o.side))
            &&& traded_qty(out.trades, o.id) == o.quantity - out.rem
            &&& 0 <= out.rem <= o.quantity
            &&& out.trades.len() <= o.quantity - out.rem
        }),
{
    let ms = opposite(o.side);
    let opp = side_levels(b, ms);
    let fm = flat(opp);
    let rem0 = o.remaining_quantity as int;
    let tid0 = b.next_trade_id;
    let out = taker_out(b, o, limit);
    let b2 = book_after_match(b, o.side, out);
    lemma_taker_walk_pre(b, o);
    lemma_match_book_shape(o, rem0, tid0, opp, limit, ms);
    lemma_match_book_ids(o, rem0, tid0, opp, limit, ms);
    lemma_match_book_sums(o, rem0, tid0, opp, limit, ms);
    lemma_all_resting_parts(b);
    lemma_all_resting_parts(b2);
    if o.side == OrderSide::Buy {
        assert(b2.buys == b.buys);
    } else {
        assert(b2.sells == b.sells);
    }
}

/// The survivor at new position `i` and its relation to its old self.
pub proof fn lemma_match_survivor_at(b: BookView, o: Order, limit: Option<u64>, i: int)
    requires
        inv(b),
        fresh_taker(b, o),
        0 <= i < all_resting(book_after_match(b, o.side, taker_out(b, o, limit))).len(),
    ensures
        ({
            let out = taker_out(b, o, limit);
            let b2 = book_after_match(b, o.side, out);
            let d = out.removed.len() as int;
            let w = old_pos(b, o, i, d);
            let all1 = all_resting(b);
            let all2 = all_resting(b2);
            &&& 0 <= w < all1.len()
            &&& same_terms(all2[i], all1[w])
            &&& all2[i].filled_quantity == all1[w].filled_quantity + traded_qty(
                out.trades,
                all2[i].id,
            )
            &&& all2[i].remaining_quantity <= all1[w].remaining_quantity
        }),
{
    let ms = opposite(o.side);
    let opp = side_levels(b, ms);
    let fm = flat(opp);
    let rem0 = o.remaining_quantity as int;
    let tid0 = b.next_trade_id;
    let out = taker_out(b, o, limit);
    let d = out.removed.len() as int;
    let b2 = book_after_match(b, o.side, out);
    let fm2 = flat(out.levels);
    let all1 = all_resting(b);
    let all2 = all_resting(b2);
    let ol = flat(b.buys).len() as int;
    let off: int = if o.side == OrderSide::Buy {
        ol
    } else {
        0
    };
    lemma_taker_walk_pre(b, o);
    lemma_match_book_ids(o, rem0, tid0, opp, limit, ms);
    lemma_all_resting_parts(b);
    lemma_all_resting_parts(b2);
    assert(forall|k: int| 0 <= k < fm.len() ==> fm[k] == all1[off + k]);
    let w = old_pos(b, o, i, d);
    if o.side == OrderSide::Buy {
        assert(b2.buys == b.buys);
        assert(side_levels(b2, ms) == out.levels);
    } else {
        assert(b2.sells == b.sells);
        assert(side_levels(b2, ms) == out.levels);
    }
    let in_walked: bool = if o.side == OrderSide::Buy {
        i >= ol
    } else {
        i < fm2.len()
    };
    if in_walked {
        let k = if o.side == OrderSide::Buy {
            i - ol
        } else {
            i
        };
        assert(all2[i] == fm2[k]);
        lemma_match_book_accounting_at(o, rem0, tid0, opp, limit, ms, k);
        assert(same_terms(fm2[k], fm[k + d]));
        assert(all1[off + k + d] == fm[k + d]);
        assert(w == off + k + d);
    } else {
        if o.side == OrderSide::Buy {
            assert(all2[i] == flat(b2.buys)[i]);
            assert(all2[i] == all1[w]);
        } else {
            assert(all2[i] == flat(b2.sells)[i - fm2.len()]);
            assert(all1[w] == flat(b.sells)[w - fm.len()]);
            assert(i - fm2.len() == w - fm.len());
            assert(all2[i] == all1[w]);
        }
        let ro = all2[i];
        assert(!has_order(fm, ro.id)) by {
            if has_order(fm, ro.id) {
                let x = choose|y: int| 0 <= y < fm.len() && fm[y].id == ro.id;
                assert(all1[off + x].id == ro.id);
                assert(w != off + x);
                if w < off + x {
                    assert(all1[w].id != all1[off + x].id);
                } else {
                    assert(all1[off + x].id != all1[w].id);
                }
            }
        }
        assert(ro.id != o.id);
        lemma_match_book_untouched(o, rem0, tid0, opp, limit, ms, ro.id);
    }
}

/// A consumed maker's id is listed among the removed ids.
pub proof fn lemma_match_consumed_at(b: BookView, o: Order, limit: Option<u64>, w: int)
    requires
        inv(b),
        fresh_taker(b, o),
        0 <= w < all_resting(b).len(),
        consumed_pos(b, o, w, taker_out(b, o, limit).removed.len() as int),
    ensures
        taker_out(b, o, limit).removed.contains(all_resting(b)[w].id),
{
    let ms = opposite(o.side);
    let opp = side_levels(b, ms);
    let fm = flat(opp);
    let out = taker_out(b, o, limit);
    let d = out.removed.len() as int;
    let off: int = if o.side == OrderSide::Buy {
        flat(b.buys).len() as int
    } else {
        0
    };
    lemma_taker_walk_pre(b, o);
    lemma_match_book_ids(o, o.remaining_quantity as int, b.next_trade_id, opp, limit, ms);
    lemma_all_resting_parts(b);
    let k = w - off;
    assert(all_resting(b)[w] == fm[k]);
    assert(out.removed[k] == ids_of(fm).take(d)[k]);
    assert(ids_of(fm)[k] == fm[k].id);
    assert(out.removed[k] == fm[k].id);
}

/// A surviving order's id stands at its new position.
pub proof fn lemma_match_new_pos_at(b: BookView, o: Order, limit: Option<u64>, w: int)
    requires
        inv(b),
        fresh_taker(b, o),
        0 <= w < all_resting(b).len(),
        !consumed_pos(b, o, w, taker_out(b, o, limit).removed.len() as int),
    ensures
        ({
            let out = taker_out(b, o, limit);
            let b2 = book_after_match(b, o.side, out);
            let d = out.removed.len() as int;
            let i = new_pos(b, o, w, d);
            &&& 0 <= i < all_resting(b2).len()
            &&& all_resting(b2)[i].id == all_resting(b)[w].id
        }),
{
    let ms = opposite(o.side);
    let opp = side_levels(b, ms);
    let fm = flat(opp);
    let out = taker_out(b, o, limit);
    let d = out.removed.len() as int;
    let b2 = book_after_match(b, o.side, out);
    let fm2 = flat(out.levels);
    let all1 = all_resting(b);
    let all2 = all_resting(b2);
    let ol = flat(b.buys).len() as int;
    let off: int = if o.side == OrderSide::Buy {
        ol
    } else {
        0
    };
    lemma_taker_walk_pre(b, o);
    lemma_match_book_ids(o, o.remaining_quantity as int, b.next_trade_id, opp, limit, ms);
    lemma_all_resting_parts(b);
    lemma_all_resting_parts(b2);
    if o.side == OrderSide::Buy {
        assert(b2.buys == b.buys);
    } else {
        assert(b2.sells == b.sells);
    }
    assert(forall|k: int| 0 <= k < fm.len() ==> fm[k] == all1[off + k]);
    assert(forall|k: int| 0 <= k < fm.len() ==> ids_of(fm)[k] == fm[k].id);
    assert(forall|k: int| 0 <= k < fm2.len() ==> ids_of(fm2)[k] == fm2[k].id);
    assert forall|k: int| 0 <= k < fm2.len() implies fm2[k].id == fm[k + d].id by {
        assert(ids_of(fm2)[k] == ids_of(fm).skip(d)[k]);
        assert(ids_of(fm).skip(d)[k] == ids_of(fm)[k + d]);
    }
    let i = new_pos(b, o, w, d);
    let in_walked: bool = off <= w < off + fm.len();
    if in_walked {
        let k = w - off;
        assert(k >= d);
        assert(fm2[k - d].id == fm[k].id);
        if o.side == OrderSide::Buy {
            assert(all2[ol + k - d] == fm2[k - d]);
            assert(i == ol + k - d);
        } else {
            assert(all2[k - d] == fm2[k - d]);
            assert(i == k - d);
        }
    } else {
        if o.side == OrderSide::Buy {
            assert(w < ol);
            assert(all2[w] == flat(b2.buys)[w]);
            assert(all1[w] == flat(b.buys)[w]);
            assert(i == w);
        } else {
            assert(all2[fm2.len() + (w - fm.len())] == flat(b2.sells)[w - fm.len()]);
            assert(all1[w] == flat(b.sells)[w - fm.len()]);
            assert(i == fm2.len() + (w - fm.len())) by {
                assert(fm2.len() == fm.len() - d);
            }
        }
    }
}

/// The trades of a fresh taker's match reference no id outside the
/// walked side and the taker itself.
pub proof fn lemma_match_untouched_id(b: BookView, o: Order, limit: Option<u64>, id: u64)
    requires
        inv(b),
        fresh_taker(b, o),
        id != o.id,
        !has_order(all_resting(b), id),
    ensures
        traded_qty(taker_out(b, o, limit).trades, id) == 0,
{
    let ms = opposite(o.side);
    let opp = side_levels(b, ms);
    let fm = flat(opp);
    let off: int = if o.side == OrderSide::Buy {
        flat(b.buys).len() as int
    } else {
        0
    };
    lemma_taker_walk_pre(b, o);
    lemma_all_resting_parts(b);
    assert(!has_order(fm, id)) by {
        if has_order(fm, id) {
            let x = choose|y: int| 0 <= y < fm.len() && fm[y].id == id;
            assert(all_resting(b)[off + x].id == id);
        }
    }
    lemma_match_book_untouched(
        o,
        o.remaining_quantity as int,
        b.next_trade_id,
        opp,
        limit,
        ms,
        id,
    );
}


/// A trade log that never names an id has matched nothing against it.
pub proof fn lemma_traded_qty_zero(ts: Seq<Trade>, id: u64)
    requires
        forall|i: int|
            0 <= i < ts.len() ==> (#[trigger] ts[i]).buy_order_id != id && ts[i].sell_order_id
                != id,
    ensures
        traded_qty(ts, id) == 0,
    decreases ts.len(),
{
    if ts.len() > 0 {
        assert(forall|i: int| 0 <= i < ts.drop_first().len() ==> ts.drop_first()[i] == ts[i + 1]);
        lemma_traded_qty_zero(ts.drop_first(), id);
    }
}

/// After a fresh taker matches, the invariant holds of the book with the
/// walked side replaced, the trades appended, and the filled makers
/// unindexed.
#[verifier::rlimit(100)]
#[verifier::spinoff_prover]
pub proof fn lemma_after_match_inv(b: BookView, o: Order, limit: Option<u64>)
    requires
        inv(b),
        fresh_taker(b, o),
    ensures
        inv(book_after_match(b, o.side, taker_out(b, o, limit))),
{
    let ms = opposite(o.side);
    let opp = side_levels(b, ms);
    let own = side_levels(b, o.side);
    let rem0 = o.remaining_quantity as int;
    let tid0 = b.next_trade_id;
    let out = taker_out(b, o, limit);
    let d = out.removed.len() as int;
    let b2 = book_after_match(b, o.side, out);
    let all1 = all_resting(b);
    let all2 = all_resting(b2);
    let fm = flat(opp);
    let off: int = if o.side == OrderSide::Buy {
        flat(b.buys).len() as int
    } else {
        0
    };
    lemma_taker_walk_pre(b, o);
    lemma_match_sizes(b, o, limit);
    lemma_all_resting_parts(b);
    lemma_all_resting_parts(b2);
    // The two sides stay well-formed.
    assert(side_ok(b2.buys, OrderSide::Buy) && side_ok(b2.sells, OrderSide::Sell)) by {
        if o.side == OrderSide::Buy {
            assert(b2.buys == b.buys && b2.sells == out.levels);
        } else {
            assert(b2.sells == b.sells && b2.buys == out.levels);
        }
    }
    // The walked side's best price did not improve, so the book stays
    // uncrossed.
    assert(crate::model::uncrossed(b2)) by {
        lemma_match_book_shape(o, rem0, tid0, opp, limit, ms);
        if out.levels.len() > 0 && opp.len() > 0 {
            let sh: int = opp.len() - out.levels.len();
            assert(out.levels[0].price == opp[sh].price);
            if sh > 0 {
                assert(better(ms, opp[0].price, opp[sh].price));
            }
        }
        if o.side == OrderSide::Buy {
            assert(b2.buys == b.buys && b2.sells == out.levels);
        } else {
            assert(b2.sells == b.sells && b2.buys == out.levels);
        }
    }
    // Every surviving order keeps a distinct, engine-assigned id.
    assert(ids_unique(all2)) by {
        assert forall|i: int, j: int| 0 <= i < j < all2.len() implies (#[trigger] all2[i]).id
            != (#[trigger] all2[j]).id by {
            lemma_match_survivor_at(b, o, limit, i);
            lemma_match_survivor_at(b, o, limit, j);
            let wi = old_pos(b, o, i, d);
            let wj = old_pos(b, o, j, d);
            assert(wi < wj);
            assert(all1[wi].id != all1[wj].id);
        }
    }
    assert(crate::model::ids_fresh(b2)) by {
        assert forall|i: int| 0 <= i < all2.len() implies (#[trigger] all2[i]).id
            < b2.next_order_id by {
            lemma_match_survivor_at(b, o, limit, i);
        }
    }
    // Index correspondence.
    assert(crate::model::index_ok(b2)) by {
        assert forall|i: int| 0 <= i < all2.len() implies {
            let ro = #[trigger] all2[i];
            b2.index.contains_key(ro.id) && b2.index[ro.id] == (ro.side, limit_price(ro))
        } by {
            lemma_match_survivor_at(b, o, limit, i);
            let ro = all2[i];
            let w = old_pos(b, o, i, d);
            assert(b.index.contains_key(ro.id) && b.index[ro.id] == (ro.side, limit_price(ro)));
            assert(!out.removed.contains(ro.id)) by {
                if out.removed.contains(ro.id) {
                    let x = choose|y: int|
                        0 <= y < out.removed.len() && out.removed[y] == ro.id;
                    lemma_match_consumed_at(b, o, limit, off + x);
                    assert(all1[off + x].id == ro.id) by {
                        lemma_match_book_ids(o, rem0, tid0, opp, limit, ms);
                        assert(out.removed[x] == ids_of(fm).take(d)[x]);
                        assert(ids_of(fm)[x] == fm[x].id);
                        assert(fm[x] == all1[off + x]);
                    }
                    assert(!consumed_pos(b, o, w, d));
                    assert(consumed_pos(b, o, off + x, d));
                    assert(w != off + x);
                    if w < off + x {
                        assert(all1[w].id != all1[off + x].id);
                    } else {
                        assert(all1[off + x].id != all1[w].id);
                    }
                }
            }
            lemma_remove_ids_semantics(b.index, out.removed, ro.id);
        }
        assert forall|id: u64| b2.index.contains_key(id) implies has_order(all2, id) by {
            lemma_remove_ids_semantics(b.index, out.removed, id);
            assert(b.index.contains_key(id));
            assert(has_order(all1, id));
            let w = choose|x: int| 0 <= x < all1.len() && all1[x].id == id;
            assert(!consumed_pos(b, o, w, d)) by {
                if consumed_pos(b, o, w, d) {
                    lemma_match_consumed_at(b, o, limit, w);
                }
            }
            lemma_match_new_pos_at(b, o, limit, w);
            assert(all2[new_pos(b, o, w, d)].id == id);
        }
    }
    // The trade log grows with consecutive ids and sound participants.
    assert(crate::model::trades_ok(b2)) by {
        assert(b2.trades == b.trades + out.trades);
        assert(b2.trades.len() == b.trades.len() + out.trades.len());
        assert forall|i: int| 0 <= i < b2.trades.len() implies {
            let t = #[trigger] b2.trades[i];
            &&& t.id == i + 1
            &&& 0 < t.quantity
            &&& 1 <= t.buy_order_id < b2.next_order_id
            &&& 1 <= t.sell_order_id < b2.next_order_id
        } by {
            if i < b.trades.len() {
                assert(b2.trades[i] == b.trades[i]);
            } else {
                let k = i - b.trades.len();
                assert(b2.trades[i] == out.trades[k]);
                lemma_match_book_trades_at(o, rem0, tid0, opp, limit, ms, k);
                let t = out.trades[k];
                assert(crate::model::maker_id(t, o.side) == fm[k].id);
                assert(fm[k] == all1[off + k]);
                assert(1 <= fm[k].id < b.next_order_id) by {
                    lemma_flat_order_ok(opp, ms);
                    assert(order_ok(fm[k], ms, limit_price(fm[k])));
                    assert(all1[off + k].id < b.next_order_id);
                }
                assert(1 <= o.id < b.next_order_id);
                if o.side == OrderSide::Buy {
                    assert(t.buy_order_id == o.id && t.sell_order_id == fm[k].id);
                } else {
                    assert(t.sell_order_id == o.id && t.buy_order_id == fm[k].id);
                }
            }
        }
    }
    assert(crate::model::counters_ok(b2));
    // Accounting: each survivor's fill equals what the whole log matched
    // against it.
    assert(crate::model::accounting_ok(b2)) by {
        assert forall|i: int| 0 <= i < all2.len() implies traded_qty(
            b2.trades,
            (#[trigger] all2[i]).id,
        ) == all2[i].filled_quantity by {
            lemma_match_survivor_at(b, o, limit, i);
            let ro = all2[i];
            let w = old_pos(b, o, i, d);
            lemma_traded_qty_concat(b.trades, out.trades, ro.id);
            assert(traded_qty(b.trades, ro.id) == all1[w].filled_quantity);
        }
    }
}

/// Every order in a well-formed side book satisfies `order_ok` at its
/// own limit price.
pub proof fn lemma_flat_order_ok(ls: Seq<LevelSnap>, side: OrderSide)
    requires
        side_ok(ls, side),
    ensures
        forall|i: int|
            0 <= i < flat(ls).len() ==> order_ok(
                #[trigger] flat(ls)[i],
                side,
                limit_price(flat(ls)[i]),
            ),
    decreases ls.len(),
{
    if ls.len() > 0 {
        let l0 = ls[0].orders;
        let rest = ls.drop_first();
        assert(level_ok(ls[0], side));
        assert(forall|i: int|
            0 <= i < rest.len() ==> level_ok(#[trigger] rest[i], side));
        assert(forall|i: int, j: int|
            0 <= i < j < rest.len() ==> better(
                side,
                (#[trigger] rest[i]).price,
                (#[trigger] rest[j]).price,
            ));
        lemma_flat_order_ok(rest, side);
        assert(forall|i: int| 0 <= i < l0.len() ==> flat(ls)[i] == l0[i]);
        assert(forall|i: int|
            0 <= i < flat(rest).len() ==> flat(ls)[l0.len() + i] == #[trigger] flat(rest)[i]);
        assert forall|i: int| 0 <= i < flat(ls).len() implies order_ok(
            #[trigger] flat(ls)[i],
            side,
            limit_price(flat(ls)[i]),
        ) by {
            if i < l0.len() {
                assert(order_ok(l0[i], side, ls[0].price));
                assert(limit_price(l0[i]) == ls[0].price);
            } else {
                assert(flat(ls)[i] == flat(rest)[i - l0.len()]);
            }
        }
    }
}


/// Inserting a residual order keeps the side book sorted best-first, and
/// the new best price is the residue's or the old best.
pub proof fn lemma_insert_resting_sorted(ls: Seq<LevelSnap>, side: OrderSide, o: Order)
    requires
        side_ok(ls, side),
        order_ok(o, side, limit_price(o)),
        0 < limit_price(o),
    ensures
        ({
            let r = insert_resting(ls, side, o);
            &&& side_ok(r, side)
            &&& r.len() >= 1
            &&& (r[0].price == limit_price(o) || (ls.len() > 0 && r[0].price == ls[0].price))
        }),
    decreases ls.len(),
{
    let p = limit_price(o);
    let r = insert_resting(ls, side, o);
    if ls.len() == 0 {
        assert(r =~= seq![LevelSnap { price: p, orders: seq![o] }]);
        assert(level_ok(r[0], side));
    } else if ls[0].price == p {
        assert(r =~= seq![LevelSnap { price: p, orders: ls[0].orders.push(o) }]
            + ls.drop_first());
        assert(level_ok(r[0], side)) by {
            assert(forall|i: int|
                0 <= i < ls[0].orders.len() ==> ls[0].orders.push(o)[i] == (
                #[trigger] ls[0].orders[i]));
            assert(ls[0].orders.push(o)[ls[0].orders.len() as int] == o);
        }
        assert(forall|i: int| 1 <= i < r.len() ==> (#[trigger] r[i]) == ls[i]);
        assert(forall|i: int, j: int|
            0 <= i < j < r.len() ==> better(
                side,
                (#[trigger] r[i]).price,
                (#[trigger] r[j]).price,
            ));
    } else if better(side, p, ls[0].price) {
        assert(r =~= seq![LevelSnap { price: p, orders: seq![o] }] + ls);
        assert(level_ok(r[0], side));
        assert(forall|i: int| 1 <= i < r.len() ==> (#[trigger] r[i]) == ls[i - 1]);
        assert forall|i: int, j: int| 0 <= i < j < r.len() implies better(
            side,
            (#[trigger] r[i]).price,
            (#[trigger] r[j]).price,
        ) by {
            if i == 0 {
                if j > 1 {
                    assert(better(side, ls[0].price, ls[j - 1].price));
                }
            }
        }
    } else {
        let sub = insert_resting(ls.drop_first(), side, o);
        lemma_insert_resting_sorted(ls.drop_first(), side, o);
        assert(r =~= seq![ls[0]] + sub);
        assert(forall|i: int| 1 <= i < r.len() ==> (#[trigger] r[i]) == sub[i - 1]);
        assert(better(side, ls[0].price, p)) by {
            assert(!better(side, p, ls[0].price) && p != ls[0].price);
        }
        assert forall|i: int, j: int| 0 <= i < j < r.len() implies better(
            side,
            (#[trigger] r[i]).price,
            (#[trigger] r[j]).price,
        ) by {
            if i == 0 {
                assert(r[j] == sub[j - 1]);
                if sub[j - 1].price == p {
                } else {
                    assert(better(side, sub[0].price, sub[j - 1].price) || j == 1);
                    assert(sub[0].price == p || (ls.drop_first().len() > 0 && sub[0].price
                        == ls.drop_first()[0].price));
                    if j > 1 {
                        assert(better(side, sub[0].price, sub[j - 1].price));
                    }
                    assert(ls.drop_first().len() > 0 ==> better(
                        side,
                        ls[0].price,
                        ls.drop_first()[0].price,
                    )) by {
                        if ls.drop_first().len() > 0 {
                            assert(ls.drop_first()[0] == ls[1]);
                            assert(better(side, ls[0].price, ls[1].price));
                        }
                    }
                }
            }
        }
    }
}

/// Inserting a residual order inserts it at one flat position, leaving
/// every other resting order in place.
pub proof fn lemma_insert_resting_flat(ls: Seq<LevelSnap>, side: OrderSide, o: Order)
    ensures
        ({
            let r = insert_resting(ls, side, o);
            exists|pos: int|
                0 <= pos <= flat(ls).len() && flat(r) =~= #[trigger] flat(ls).insert(pos, o)
        }),
    decreases ls.len(),
{
    let p = limit_price(o);
    let r = insert_resting(ls, side, o);
    if ls.len() == 0 {
        assert(flat(r) =~= flat(ls).insert(0, o)) by {
            assert(r[0].orders == seq![o]);
            assert(flat(r) =~= seq![o] + flat(r.drop_first()));
            assert(r.drop_first() =~= Seq::<LevelSnap>::empty());
        }
    } else if ls[0].price == p {
        let pos = ls[0].orders.len() as int;
        assert(flat(r) =~= flat(ls).insert(pos, o)) by {
            assert(r.drop_first() =~= ls.drop_first());
            assert(flat(r) =~= ls[0].orders.push(o) + flat(ls.drop_first()));
            assert(flat(ls) =~= ls[0].orders + flat(ls.drop_first()));
        }
    } else if better(side, p, ls[0].price) {
        assert(flat(r) =~= flat(ls).insert(0, o)) by {
            assert(r.drop_first() =~= ls);
            assert(flat(r) =~= seq![o] + flat(ls));
        }
    } else {
        lemma_insert_resting_flat(ls.drop_first(), side, o);
        let sub = insert_resting(ls.drop_first(), side, o);
        let spos = choose|pos: int|
            0 <= pos <= flat(ls.drop_first()).len() && flat(sub) =~= #[trigger] flat(
                ls.drop_first(),
            ).insert(pos, o);
        let pos = ls[0].orders.len() + spos;
        assert(r.drop_first() =~= sub);
        assert(flat(r) =~= ls[0].orders + flat(sub));
        assert(flat(ls) =~= ls[0].orders + flat(ls.drop_first()));
        assert(flat(r) =~= flat(ls).insert(pos, o));
    }
}

/// Resting a fresh residual order preserves the invariant, provided the
/// opposite best no longer crosses it.
#[verifier::rlimit(100)]
#[verifier::spinoff_prover]
pub proof fn lemma_rest_residue_inv(b: BookView, r: Order)
    requires
        inv(b),
        order_ok(r, r.side, limit_price(r)),
        0 < limit_price(r),
        r.id < b.next_order_id,
        !has_order(all_resting(b), r.id),
        traded_qty(b.trades, r.id) == r.filled_quantity,
        r.side == OrderSide::Buy ==> (b.sells.len() > 0 ==> limit_price(r) < b.sells[0].price),
        r.side == OrderSide::Sell ==> (b.buys.len() > 0 ==> limit_price(r) > b.buys[0].price),
    ensures
        ({
            let own2 = insert_resting(side_levels(b, r.side), r.side, r);
            let b3 = with_side_levels(b, r.side, own2);
            inv(BookView { index: b3.index.insert(r.id, (r.side, limit_price(r))), ..b3 })
        }),
{
    let p = limit_price(r);
    let own = side_levels(b, r.side);
    let own2 = insert_resting(own, r.side, r);
    let b3a = with_side_levels(b, r.side, own2);
    let b3 = BookView { index: b3a.index.insert(r.id, (r.side, p)), ..b3a };
    let all1 = all_resting(b);
    let all3 = all_resting(b3);
    lemma_insert_resting_sorted(own, r.side, r);
    lemma_insert_resting_flat(own, r.side, r);
    lemma_all_resting_parts(b);
    lemma_all_resting_parts(b3);
    let fpos = choose|pos: int|
        0 <= pos <= flat(own).len() && flat(own2) =~= #[trigger] flat(own).insert(pos, r);
    assert(flat(own2) =~= flat(own).insert(fpos, r));
    // The global position at which the residue enters the combined
    // resting sequence.
    let gpos: int = if r.side == OrderSide::Buy {
        fpos
    } else {
        flat(b.buys).len() + fpos
    };
    assert(all3 =~= all1.insert(gpos, r)) by {
        if r.side == OrderSide::Buy {
            assert(b3.sells == b.sells);
            assert(flat(b3.buys) =~= flat(b.buys).insert(fpos, r));
        } else {
            assert(b3.buys == b.buys);
            assert(flat(b3.sells) =~= flat(b.sells).insert(fpos, r));
        }
    }
    assert(all3.len() == all1.len() + 1);
    assert(forall|i: int| 0 <= i < gpos ==> #[trigger] all3[i] == all1[i]);
    assert(all3[gpos] == r);
    assert(forall|i: int| gpos < i < all3.len() ==> #[trigger] all3[i] == all1[i - 1]);
    // Sides stay well-formed.
    assert(side_ok(b3.buys, OrderSide::Buy) && side_ok(b3.sells, OrderSide::Sell)) by {
        if r.side == OrderSide::Buy {
            assert(b3.buys == own2 && b3.sells == b.sells);
        } else {
            assert(b3.sells == own2 && b3.buys == b.buys);
        }
    }
    // Still uncrossed: the new best on the residue's side is its price or
    // the old best.
    assert(crate::model::uncrossed(b3)) by {
        if r.side == OrderSide::Buy {
            if b3.sells.len() > 0 {
                assert(own2[0].price == p || (own.len() > 0 && own2[0].price == own[0].price));
            }
        } else {
            if b3.buys.len() > 0 {
                assert(own2[0].price == p || (own.len() > 0 && own2[0].price == own[0].price));
            }
        }
    }
    // Ids stay unique and engine-assigned.
    assert(ids_unique(all3)) by {
        assert forall|i: int, j: int| 0 <= i < j < all3.len() implies (#[trigger] all3[i]).id
            != (#[trigger] all3[j]).id by {
            if i != gpos && j != gpos {
                let wi: int = if i < gpos { i } else { i - 1 };
                let wj: int = if j < gpos { j } else { j - 1 };
                if wi < wj {
                    assert(all1[wi].id != all1[wj].id);
                } else {
                    assert(all3[i].id == all3[j].id ==> false) by {
                        assert(all1[wj].id != all1[wi].id || wi == wj);
                    }
                }
            } else {
                let other: int = if i == gpos { j } else { i };
                let wo: int = if other < gpos { other } else { other - 1 };
                assert(all3[other] == all1[wo]);
                assert(all1[wo].id != r.id) by {
                    if all1[wo].id == r.id {
                        assert(has_order(all1, r.id));
                    }
                }
            }
        }
    }
    assert(crate::model::ids_fresh(b3)) by {
        assert forall|i: int| 0 <= i < all3.len() implies (#[trigger] all3[i]).id
            < b3.next_order_id by {
            if i != gpos {
                let w: int = if i < gpos { i } else { i - 1 };
                assert(all3[i] == all1[w]);
            }
        }
    }
    // Index correspondence, with the residue newly mapped.
    assert(crate::model::index_ok(b3)) by {
        assert forall|i: int| 0 <= i < all3.len() implies {
            let ro = #[trigger] all3[i];
            b3.index.contains_key(ro.id) && b3.index[ro.id] == (ro.side, limit_price(ro))
        } by {
            if i == gpos {
            } else {
                let w: int = if i < gpos { i } else { i - 1 };
                assert(all3[i] == all1[w]);
                assert(all1[w].id != r.id) by {
                    if all1[w].id == r.id {
                        assert(has_order(all1, r.id));
                    }
                }
            }
        }
        assert forall|id: u64| b3.index.contains_key(id) implies has_order(all3, id) by {
            if id == r.id {
                assert(all3[gpos].id == id);
            } else {
                assert(b.index.contains_key(id));
                assert(has_order(all1, id));
                let w = choose|x: int| 0 <= x < all1.len() && all1[x].id == id;
                if w < gpos {
                    assert(all3[w].id == id);
                } else {
                    assert(all3[w + 1].id == id);
                }
            }
        }
    }
    assert(crate::model::trades_ok(b3));
    assert(crate::model::counters_ok(b3));
    // Accounting: the residue enters with exactly its traded quantity.
    assert(crate::model::accounting_ok(b3)) by {
        assert forall|i: int| 0 <= i < all3.len() implies traded_qty(
            b3.trades,
            (#[trigger] all3[i]).id,
        ) == all3[i].filled_quantity by {
            if i == gpos {
            } else {
                let w: int = if i < gpos { i } else { i - 1 };
                assert(all3[i] == all1[w]);
            }
        }
    }
}


/// Processing one fresh order preserves the invariant.
#[verifier::rlimit(100)]
pub proof fn lemma_apply_order_inv(b: BookView, o: Order)
    requires
        inv(b),
        fresh_taker(b, o),
        valid_submission(o.order_type, o.price, o.quantity),
    ensures
        inv(apply_order(b, o)),
{
    if o.order_type == OrderType::Market {
        lemma_after_match_inv(b, o, Option::None);
        assert(apply_order(b, o) == book_after_match(b, o.side, taker_out(b, o, Option::None)));
    } else {
        let p = limit_price(o);
        assert(o.price == Option::Some(p) && p > 0);
        let out = taker_out(b, o, Option::Some(p));
        let b2 = book_after_match(b, o.side, out);
        lemma_after_match_inv(b, o, Option::Some(p));
        lemma_match_sizes(b, o, Option::Some(p));
        if out.rem > 0 {
            let r = resting_residue(o, out.rem);
            assert(order_ok(r, r.side, limit_price(r)));
            // The residue's id is fresh in the post-match book.
            assert(!has_order(all_resting(b2), r.id)) by {
                if has_order(all_resting(b2), r.id) {
                    let w = choose|x: int|
                        0 <= x < all_resting(b2).len() && all_resting(b2)[x].id == r.id;
                    lemma_match_survivor_at(b, o, Option::Some(p), w);
                    let d = out.removed.len() as int;
                    assert(all_resting(b)[old_pos(b, o, w, d)].id == r.id);
                }
            }
            // Its fill is exactly what the new trades matched against it.
            assert(traded_qty(b2.trades, r.id) == r.filled_quantity) by {
                lemma_traded_qty_concat(b.trades, out.trades, o.id);
                lemma_traded_qty_zero(b.trades, o.id);
            }
            // The opposite best no longer crosses its price.
            lemma_taker_walk_pre(b, o);
            lemma_match_book_shape(
                o,
                o.remaining_quantity as int,
                b.next_trade_id,
                side_levels(b, opposite(o.side)),
                Option::Some(p),
                opposite(o.side),
            );
            assert(out.levels.len() == 0 || !crosses(o.side, out.levels[0].price, Option::Some(
                p,
            )));
            if o.side == OrderSide::Buy {
                assert(b2.sells == out.levels);
                assert(b2.sells.len() > 0 ==> p < b2.sells[0].price);
            } else {
                assert(b2.buys == out.levels);
                assert(b2.buys.len() > 0 ==> p > b2.buys[0].price);
            }
            lemma_rest_residue_inv(b2, r);
            assert(apply_order(b, o) == apply_limit(b, o));
            let own2 = insert_resting(side_levels(b2, r.side), r.side, r);
            let b3a = with_side_levels(b2, r.side, own2);
            assert(apply_limit(b, o) == BookView {
                index: b3a.index.insert(r.id, (r.side, p)),
                ..b3a
            });
        } else {
            assert(apply_order(b, o) == b2);
        }
    }
}

/// Assigning the next id and bumping the counters keeps the invariant
/// and makes the new order a fresh taker.
pub proof fn lemma_submit_setup(
    b: BookView,
    side: OrderSide,
    order_type: OrderType,
    price: Option<u64>,
    quantity: u64,
    timestamp: u64,
    symbol: Option<String>,
)
    requires
        inv(b),
        0 < quantity,
        b.next_order_id + 1 <= u64::MAX,
        b.next_trade_id + quantity <= u64::MAX,
    ensures
        ({
            let o = make_order(
                (b.next_order_id as u64),
                side,
                order_type,
                price,
                quantity,
                timestamp,
                symbol,
            );
            let b1 = BookView {
                next_order_id: b.next_order_id + 1,
                orders_processed: b.orders_processed + 1,
                ..b
            };
            &&& inv(b1)
            &&& fresh_taker(b1, o)
            &&& book_submit(b, side, order_type, price, quantity, timestamp, symbol)
                == apply_order(b1, o)
        }),
{
    let o = make_order(
        (b.next_order_id as u64),
        side,
        order_type,
        price,
        quantity,
        timestamp,
        symbol,
    );
    let b1 = BookView {
        next_order_id: b.next_order_id + 1,
        orders_processed: b.orders_processed + 1,
        ..b
    };
    assert(all_resting(b1) == all_resting(b));
    assert(inv(b1)) by {
        assert(crate::model::ids_fresh(b1)) by {
            assert(forall|i: int|
                0 <= i < all_resting(b1).len() ==> (#[trigger] all_resting(b1)[i]).id
                    < b1.next_order_id);
        }
    }
    assert(fresh_taker(b1, o)) by {
        assert(o.id == b.next_order_id);
        assert(forall|i: int|
            0 <= i < all_resting(b1).len() ==> (#[trigger] all_resting(b1)[i]).id != o.id);
        assert(forall|i: int|
            0 <= i < b1.trades.len() ==> (#[trigger] b1.trades[i]).buy_order_id != o.id
                && b1.trades[i].sell_order_id != o.id);
    }
}

/// A whole submit — id assignment, counter bumps, then processing —
/// preserves the invariant.
pub proof fn lemma_book_submit_inv(
    b: BookView,
    side: OrderSide,
    order_type: OrderType,
    price: Option<u64>,
    quantity: u64,
    timestamp: u64,
    symbol: Option<String>,
)
    requires
        inv(b),
        valid_submission(order_type, price, quantity),
        b.next_order_id + 1 <= u64::MAX,
        b.next_trade_id + quantity <= u64::MAX,
    ensures
        inv(book_submit(b, side, order_type, price, quantity, timestamp, symbol)),
{
    let o = make_order(
        (b.next_order_id as u64),
        side,
        order_type,
        price,
        quantity,
        timestamp,
        symbol,
    );
    let b1 = BookView {
        next_order_id: b.next_order_id + 1,
        orders_processed: b.orders_processed + 1,
        ..b
    };
    assert(all_resting(b1) == all_resting(b));
    assert(inv(b1)) by {
        assert(crate::model::ids_fresh(b1)) by {
            assert(forall|i: int|
                0 <= i < all_resting(b1).len() ==> (#[trigger] all_resting(b1)[i]).id
                    < b1.next_order_id);
        }
        assert(crate::model::trades_ok(b1));
        assert(crate::model::counters_ok(b1));
        assert(crate::model::index_ok(b1));
        assert(crate::model::accounting_ok(b1));
    }
    assert(fresh_taker(b1, o)) by {
        assert(o.id == b.next_order_id);
        assert(forall|i: int|
            0 <= i < all_resting(b1).len() ==> (#[trigger] all_resting(b1)[i]).id != o.id);
        assert(forall|i: int|
            0 <= i < b1.trades.len() ==> (#[trigger] b1.trades[i]).buy_order_id != o.id
                && b1.trades[i].sell_order_id != o.id);
    }
    lemma_apply_order_inv(b1, o);
}


/// Removing one resting order from its level: the side book stays
/// sorted, the best price does not improve, and exactly that order
/// leaves the flattening.
pub proof fn lemma_remove_resting_props(ls: Seq<LevelSnap>, side: OrderSide, price: u64, id: u64)
    requires
        side_ok(ls, side),
        exists|li: int, oi: int|
            0 <= li < ls.len() && 0 <= oi < (#[trigger] ls[li]).orders.len() && ls[li].price
                == price && (#[trigger] ls[li].orders[oi]).id == id,
    ensures
        ({
            let r = crate::model::remove_resting(ls, price, id);
            &&& side_ok(r, side)
            &&& (r.len() > 0 ==> ls.len() > 0 && (r[0].price == ls[0].price || better(
                side,
                ls[0].price,
                r[0].price,
            )))
            &&& exists|pos: int|
                0 <= pos < flat(ls).len() && (#[trigger] flat(ls)[pos]).id == id && flat(r)
                    =~= flat(ls).remove(pos)
        }),
    decreases ls.len(),
{
    let r = crate::model::remove_resting(ls, price, id);
    if ls[0].price == price {
        let l0 = ls[0].orders;
        assert(has_order(l0, id)) by {
            let (wl, wo) = choose|wl: int, wo: int|
                0 <= wl < ls.len() && 0 <= wo < (#[trigger] ls[wl]).orders.len() && ls[wl].price
                    == price && (#[trigger] ls[wl].orders[wo]).id == id;
            assert(wl == 0) by {
                if wl > 0 {
                    assert(better(side, ls[0].price, ls[wl].price));
                }
            }
            assert(l0[wo].id == id);
        }
        crate::level::lemma_find_order(l0, id);
        let f = crate::level::find_order(l0, id);
        let kept = l0.remove(f);
        assert(forall|i: int| 0 <= i < l0.len() ==> flat(ls)[i] == l0[i]);
        assert(forall|i: int|
            0 <= i < flat(ls.drop_first()).len() ==> flat(ls)[l0.len() + i] == #[trigger] flat(
                ls.drop_first(),
            )[i]);
        if kept.len() == 0 {
            assert(r == ls.drop_first());
            assert(l0.len() == 1 && f == 0);
            assert(flat(r) =~= flat(ls).remove(0));
            assert(flat(ls)[0].id == id);
            if r.len() > 0 {
                assert(r[0] == ls[1]);
                assert(better(side, ls[0].price, ls[1].price));
            }
        } else {
            assert(r =~= seq![LevelSnap { price, orders: kept }] + ls.drop_first());
            assert(level_ok(r[0], side)) by {
                assert(forall|i: int|
                    0 <= i < kept.len() ==> kept[i] == if i < f {
                        l0[i]
                    } else {
                        l0[i + 1]
                    });
            }
            assert(forall|i: int| 1 <= i < r.len() ==> (#[trigger] r[i]) == ls[i]);
            assert(side_ok(r, side)) by {
                assert(forall|i: int, j: int|
                    0 <= i < j < r.len() ==> better(
                        side,
                        (#[trigger] r[i]).price,
                        (#[trigger] r[j]).price,
                    ));
            }
            crate::lemmas::lemma_flat_unfold(r);
            assert(r[0].orders == kept);
            assert(r.drop_first() =~= ls.drop_first());
            assert(flat(r) =~= kept + flat(ls.drop_first()));
            assert(flat(r) =~= flat(ls).remove(f));
            assert(flat(ls)[f].id == id);
        }
    } else {
        let l0 = ls[0].orders;
        assert(exists|wl: int, wo: int|
            0 <= wl < ls.drop_first().len() && 0 <= wo < (#[trigger] ls.drop_first()[
            wl]).orders.len() && ls.drop_first()[wl].price == price && (#[trigger] ls.drop_first()[
        wl].orders[wo]).id == id) by {
            let (wl, wo) = choose|wl: int, wo: int|
                0 <= wl < ls.len() && 0 <= wo < (#[trigger] ls[wl]).orders.len() && ls[wl].price
                    == price && (#[trigger] ls[wl].orders[wo]).id == id;
            assert(wl >= 1);
            assert(ls.drop_first()[wl - 1] == ls[wl]);
            assert(ls.drop_first()[wl - 1].orders[wo].id == id);
        }
        assert(side_ok(ls.drop_first(), side)) by {
            assert(forall|i: int|
                0 <= i < ls.drop_first().len() ==> level_ok(#[trigger] ls.drop_first()[i], side));
            assert(forall|i: int, j: int|
                0 <= i < j < ls.drop_first().len() ==> better(
                    side,
                    (#[trigger] ls.drop_first()[i]).price,
                    (#[trigger] ls.drop_first()[j]).price,
                ));
        }
        lemma_remove_resting_props(ls.drop_first(), side, price, id);
        let sub = crate::model::remove_resting(ls.drop_first(), price, id);
        assert(r =~= seq![ls[0]] + sub);
        assert(forall|i: int| 1 <= i < r.len() ==> (#[trigger] r[i]) == sub[i - 1]);
        assert(side_ok(r, side)) by {
            assert forall|i: int, j: int| 0 <= i < j < r.len() implies better(
                side,
                (#[trigger] r[i]).price,
                (#[trigger] r[j]).price,
            ) by {
                if i == 0 {
                    assert(r[j] == sub[j - 1]);
                    assert(sub[0].price == ls.drop_first()[0].price || better(
                        side,
                        ls.drop_first()[0].price,
                        sub[0].price,
                    ));
                    assert(ls.drop_first()[0] == ls[1]);
                    assert(better(side, ls[0].price, ls[1].price));
                    if j > 1 {
                        assert(better(side, sub[0].price, sub[j - 1].price));
                    }
                }
            }
        }
        let spos = choose|pos: int|
            0 <= pos < flat(ls.drop_first()).len() && (#[trigger] flat(ls.drop_first())[pos]).id
                == id && flat(sub) =~= flat(ls.drop_first()).remove(pos);
        let pos = l0.len() + spos;
        assert(forall|i: int| 0 <= i < l0.len() ==> flat(ls)[i] == l0[i]);
        assert(forall|i: int|
            0 <= i < flat(ls.drop_first()).len() ==> flat(ls)[l0.len() + i] == #[trigger] flat(
                ls.drop_first(),
            )[i]);
        crate::lemmas::lemma_flat_unfold(r);
        assert(r[0].orders == l0);
        assert(r.drop_first() =~= sub);
        assert(flat(r) =~= l0 + flat(sub));
        assert(flat(ls)[pos].id == id);
        assert(flat(r) =~= flat(ls).remove(pos));
    }
}

/// A cancel preserves the invariant.
#[verifier::rlimit(100)]
#[verifier::spinoff_prover]
pub proof fn lemma_book_cancel_inv(b: BookView, id: u64)
    requires
        inv(b),
    ensures
        inv(crate::model::book_cancel(b, id)),
{
    if !b.index.contains_key(id) {
        return;
    }
    let (side, price) = b.index[id];
    let own = side_levels(b, side);
    let own2 = crate::model::remove_resting(own, price, id);
    let b3a = with_side_levels(b, side, own2);
    let b3 = BookView { index: b3a.index.remove(id), ..b3a };
    assert(crate::model::book_cancel(b, id) == b3);
    let all1 = all_resting(b);
    let all3 = all_resting(b3);
    lemma_all_resting_parts(b);
    lemma_all_resting_parts(b3);
    // The indexed order rests on that side at that price.
    assert(has_order(all1, id));
    let w = choose|x: int| 0 <= x < all1.len() && all1[x].id == id;
    let ro = all1[w];
    assert(ro.side == side && limit_price(ro) == price);
    let ol = flat(b.buys).len() as int;
    let off: int = if side == OrderSide::Buy {
        0
    } else {
        ol
    };
    let fw = w - off;
    assert(exists|li: int, oi: int|
        0 <= li < own.len() && 0 <= oi < (#[trigger] own[li]).orders.len() && own[li].price
            == price && (#[trigger] own[li].orders[oi]).id == id) by {
        assert(0 <= fw < flat(own).len()) by {
            if side == OrderSide::Buy {
                assert(all1[w] == flat(b.buys)[w] || w >= ol);
                assert(w < ol) by {
                    if w >= ol {
                        assert(all1[w] == flat(b.sells)[w - ol]);
                        lemma_flat_order_ok(b.sells, OrderSide::Sell);
                        assert(order_ok(all1[w], OrderSide::Sell, limit_price(all1[w])));
                    }
                }
            } else {
                assert(w >= ol) by {
                    if w < ol {
                        assert(all1[w] == flat(b.buys)[w]);
                        lemma_flat_order_ok(b.buys, OrderSide::Buy);
                        assert(order_ok(all1[w], OrderSide::Buy, limit_price(all1[w])));
                    }
                }
            }
        }
        assert(flat(own)[fw] == ro);
        lemma_flat_witness(own, fw);
    }
    lemma_remove_resting_props(own, side, price, id);
    let fpos = choose|pos: int|
        0 <= pos < flat(own).len() && (#[trigger] flat(own)[pos]).id == id && flat(own2) =~= flat(
            own,
        ).remove(pos);
    let gpos: int = off + fpos;
    assert(all1[gpos].id == id);
    assert(gpos == w) by {
        if gpos != w {
            if gpos < w {
                assert(all1[gpos].id != all1[w].id);
            } else {
                assert(all1[w].id != all1[gpos].id);
            }
        }
    }
    assert(all3 =~= all1.remove(gpos)) by {
        if side == OrderSide::Buy {
            assert(b3.sells == b.sells);
            assert(flat(b3.buys) =~= flat(b.buys).remove(fpos));
        } else {
            assert(b3.buys == b.buys);
            assert(flat(b3.sells) =~= flat(b.sells).remove(fpos));
        }
    }
    assert(all3.len() == all1.len() - 1);
    assert(forall|i: int| 0 <= i < gpos ==> #[trigger] all3[i] == all1[i]);
    assert(forall|i: int| gpos <= i < all3.len() ==> #[trigger] all3[i] == all1[i + 1]);
    assert(side_ok(b3.buys, OrderSide::Buy) && side_ok(b3.sells, OrderSide::Sell)) by {
        if side == OrderSide::Buy {
            assert(b3.buys == own2 && b3.sells == b.sells);
        } else {
            assert(b3.sells == own2 && b3.buys == b.buys);
        }
    }
    assert(crate::model::uncrossed(b3)) by {
        if own2.len() > 0 {
            assert(own2[0].price == own[0].price || better(side, own[0].price, own2[0].price));
        }
    }
    assert(ids_unique(all3)) by {
        assert forall|i: int, j: int| 0 <= i < j < all3.len() implies (#[trigger] all3[i]).id
            != (#[trigger] all3[j]).id by {
            let wi: int = if i < gpos { i } else { i + 1 };
            let wj: int = if j < gpos { j } else { j + 1 };
            assert(all1[wi].id != all1[wj].id);
        }
    }
    assert(crate::model::ids_fresh(b3)) by {
        assert forall|i: int| 0 <= i < all3.len() implies (#[trigger] all3[i]).id
            < b3.next_order_id by {
            let wi: int = if i < gpos { i } else { i + 1 };
            assert(all3[i] == all1[wi]);
        }
    }
    assert(crate::model::index_ok(b3)) by {
        assert forall|i: int| 0 <= i < all3.len() implies {
            let o2 = #[trigger] all3[i];
            b3.index.contains_key(o2.id) && b3.index[o2.id] == (o2.side, limit_price(o2))
        } by {
            let wi: int = if i < gpos { i } else { i + 1 };
            assert(all3[i] == all1[wi]);
            assert(all1[wi].id != id) by {
                if wi < gpos {
                    assert(all1[wi].id != all1[gpos].id);
                } else {
                    assert(all1[gpos].id != all1[wi].id);
                }
            }
        }
        assert forall|k: u64| b3.index.contains_key(k) implies has_order(all3, k) by {
            assert(k != id);
            assert(has_order(all1, k));
            let x = choose|y: int| 0 <= y < all1.len() && all1[y].id == k;
            assert(x != gpos);
            if x < gpos {
                assert(all3[x].id == k);
            } else {
                assert(all3[x - 1].id == k);
            }
        }
    }
    assert(crate::model::trades_ok(b3));
    assert(crate::model::counters_ok(b3));
    assert(crate::model::accounting_ok(b3)) by {
        assert forall|i: int| 0 <= i < all3.len() implies traded_qty(
            b3.trades,
            (#[trigger] all3[i]).id,
        ) == all3[i].filled_quantity by {
            let wi: int = if i < gpos { i } else { i + 1 };
            assert(all3[i] == all1[wi]);
        }
    }
}

/// A flat position comes from some level and offset within it.
pub proof fn lemma_flat_witness(ls: Seq<LevelSnap>, pos: int)
    requires
        0 <= pos < flat(ls).len(),
    ensures
        exists|li: int, oi: int|
            0 <= li < ls.len() && 0 <= oi < (#[trigger] ls[li]).orders.len() && ls[li].price
                == ls[li].price && (#[trigger] ls[li].orders[oi]) == flat(ls)[pos],
    decreases ls.len(),
{
    if ls.len() > 0 {
        let l0 = ls[0].orders;
        assert(forall|i: int| 0 <= i < l0.len() ==> flat(ls)[i] == l0[i]);
        assert(forall|i: int|
            0 <= i < flat(ls.drop_first()).len() ==> flat(ls)[l0.len() + i] == #[trigger] flat(
                ls.drop_first(),
            )[i]);
        if pos < l0.len() {
            assert(ls[0].orders[pos] == flat(ls)[pos]);
        } else {
            lemma_flat_witness(ls.drop_first(), pos - l0.len());
            let (li, oi) = choose|li: int, oi: int|
                0 <= li < ls.drop_first().len() && 0 <= oi < (#[trigger] ls.drop_first()[
                li]).orders.len() && ls.drop_first()[li].price == ls.drop_first()[li].price && (
                #[trigger] ls.drop_first()[li].orders[oi]) == flat(ls.drop_first())[pos
                - l0.len()];
            assert(ls[li + 1].orders[oi] == flat(ls)[pos]);
        }
    }
}


/// `sum_remaining` distributes over concatenation.
pub proof fn lemma_sum_remaining_concat(a: Seq<Order>, b: Seq<Order>)
    ensures
        crate::level::sum_remaining(a + b) == crate::level::sum_remaining(a)
            + crate::level::sum_remaining(b),
    decreases a.len(),
{
    if a.len() == 0 {
        assert(a + b =~= b);
    } else {
        assert((a + b)[0] == a[0]);
        assert((a + b).drop_first() =~= a.drop_first() + b);
        lemma_sum_remaining_concat(a.drop_first(), b);
    }
}

/// A side's depth is the remaining sum over its flattening.
pub proof fn lemma_side_depth_flat(ls: Seq<LevelSnap>)
    ensures
        crate::model::side_depth(ls) == crate::level::sum_remaining(flat(ls)),
    decreases ls.len(),
{
    if ls.len() > 0 {
        lemma_side_depth_flat(ls.drop_first());
        lemma_sum_remaining_concat(ls[0].orders, flat(ls.drop_first()));
    }
}

/// Dropping a prefix cannot increase the remaining sum.
pub proof fn lemma_sum_skip_le(s: Seq<Order>, d: int)
    requires
        0 <= d <= s.len(),
    ensures
        crate::level::sum_remaining(s.skip(d)) <= crate::level::sum_remaining(s),
{
    assert(s =~= s.take(d) + s.skip(d));
    lemma_sum_remaining_concat(s.take(d), s.skip(d));
    crate::level::lemma_sum_remaining_nonneg(s.take(d));
}

/// A pointwise bound on remaining quantities bounds the sums.
pub proof fn lemma_sum_pointwise_le(a: Seq<Order>, b: Seq<Order>)
    requires
        a.len() == b.len(),
        forall|i: int|
            0 <= i < a.len() ==> (#[trigger] a[i]).remaining_quantity
                <= b[i].remaining_quantity,
    ensures
        crate::level::sum_remaining(a) <= crate::level::sum_remaining(b),
    decreases a.len(),
{
    if a.len() > 0 {
        assert(forall|i: int|
            0 <= i < a.drop_first().len() ==> (#[trigger] a.drop_first()[i])
                == a[i + 1]);
        assert(forall|i: int|
            0 <= i < b.drop_first().len() ==> (#[trigger] b.drop_first()[i])
                == b[i + 1]);
        lemma_sum_pointwise_le(a.drop_first(), b.drop_first());
    }
}

/// Inserting one order adds its remaining quantity to the sum.
pub proof fn lemma_sum_insert(s: Seq<Order>, pos: int, o: Order)
    requires
        0 <= pos <= s.len(),
    ensures
        crate::level::sum_remaining(s.insert(pos, o)) == crate::level::sum_remaining(s)
            + o.remaining_quantity,
{
    assert(s.insert(pos, o) =~= s.take(pos) + (seq![o] + s.skip(pos)));
    lemma_sum_remaining_concat(s.take(pos), seq![o] + s.skip(pos));
    lemma_sum_remaining_concat(seq![o], s.skip(pos));
    assert(crate::level::sum_remaining(seq![o]) == o.remaining_quantity as int) by {
        assert(seq![o][0] == o);
        assert(seq![o].drop_first() =~= Seq::<Order>::empty());
        assert(crate::level::sum_remaining(Seq::<Order>::empty()) == 0);
        assert(crate::level::sum_remaining(seq![o]) == o.remaining_quantity
            + crate::level::sum_remaining(Seq::<Order>::empty()));
    }
    assert(s =~= s.take(pos) + s.skip(pos));
    lemma_sum_remaining_concat(s.take(pos), s.skip(pos));
}

/// How one processed order can change the book: the counters it leaves
/// alone, the bounded growth of the trade-id counter, and the bounded
/// growth of the book's depth.
#[verifier::rlimit(100)]
pub proof fn lemma_apply_order_growth(b: BookView, o: Order)
    requires
        inv(b),
        fresh_taker(b, o),
        valid_submission(o.order_type, o.price, o.quantity),
    ensures
        ({
            let b2 = apply_order(b, o);
            &&& b2.next_order_id == b.next_order_id
            &&& b2.orders_processed == b.orders_processed
            &&& b.next_trade_id <= b2.next_trade_id <= b.next_trade_id + o.quantity
            &&& crate::model::book_depth(b2) <= crate::model::book_depth(b) + o.quantity
            &&& b2.trades.len() == b2.next_trade_id - 1
        }),
{
    let ms = opposite(o.side);
    let opp = side_levels(b, ms);
    let limit: Option<u64> = if o.order_type == OrderType::Market {
        Option::None
    } else {
        Option::Some(limit_price(o))
    };
    let out = taker_out(b, o, limit);
    let d = out.removed.len() as int;
    let bam = book_after_match(b, o.side, out);
    lemma_taker_walk_pre(b, o);
    lemma_match_sizes(b, o, limit);
    lemma_match_book_ids(
        o,
        o.remaining_quantity as int,
        b.next_trade_id,
        opp,
        limit,
        ms,
    );
    lemma_apply_order_inv(b, o);
    // Depth of the walked side shrinks.
    assert(crate::model::side_depth(out.levels) <= crate::model::side_depth(opp)) by {
        lemma_side_depth_flat(out.levels);
        lemma_side_depth_flat(opp);
        let fm = flat(opp);
        let fm2 = flat(out.levels);
        assert forall|i: int| 0 <= i < fm2.len() implies (
        #[trigger] fm2[i]).remaining_quantity <= fm.skip(d)[i].remaining_quantity by {
            lemma_match_book_accounting_at(
                o,
                o.remaining_quantity as int,
                b.next_trade_id,
                opp,
                limit,
                ms,
                i,
            );
            assert(fm.skip(d)[i] == fm[i + d]);
        }
        lemma_sum_pointwise_le(fm2, fm.skip(d));
        lemma_sum_skip_le(fm, d);
    }
    lemma_side_depth_flat(b.buys);
    lemma_side_depth_flat(b.sells);
    if o.order_type == OrderType::Market {
        assert(apply_order(b, o) == bam);
        assert(crate::model::book_depth(bam) <= crate::model::book_depth(b)) by {
            if o.side == OrderSide::Buy {
                assert(bam.buys == b.buys && bam.sells == out.levels);
            } else {
                assert(bam.sells == b.sells && bam.buys == out.levels);
            }
        }
        crate::level::lemma_sum_remaining_nonneg(flat(b.buys));
        crate::level::lemma_sum_remaining_nonneg(flat(b.sells));
    } else {
        if out.rem > 0 {
            let r = resting_residue(o, out.rem);
            let own = side_levels(bam, o.side);
            let own2 = insert_resting(own, o.side, r);
            lemma_insert_resting_flat(own, o.side, r);
            let pos = choose|pos: int|
                0 <= pos <= flat(own).len() && flat(own2) =~= #[trigger] flat(own).insert(
                    pos,
                    r,
                );
            assert(crate::model::side_depth(own2) == crate::model::side_depth(own)
                + r.remaining_quantity) by {
                lemma_side_depth_flat(own2);
                lemma_side_depth_flat(own);
                lemma_sum_insert(flat(own), pos, r);
            }
            assert(r.remaining_quantity <= o.quantity);
            assert(crate::model::book_depth(apply_order(b, o)) <= crate::model::book_depth(b)
                + o.quantity) by {
                if o.side == OrderSide::Buy {
                    assert(bam.buys == b.buys && bam.sells == out.levels);
                    assert(apply_order(b, o).buys == own2);
                    assert(apply_order(b, o).sells == out.levels);
                } else {
                    assert(bam.sells == b.sells && bam.buys == out.levels);
                    assert(apply_order(b, o).sells == own2);
                    assert(apply_order(b, o).buys == out.levels);
                }
            }
        } else {
            assert(apply_order(b, o) == bam);
            assert(crate::model::book_depth(bam) <= crate::model::book_depth(b)) by {
                if o.side == OrderSide::Buy {
                    assert(bam.buys == b.buys && bam.sells == out.levels);
                } else {
                    assert(bam.sells == b.sells && bam.buys == out.levels);
                }
            }
        }
    }
}

/// An id neither resting nor ever traded stays that way when some other
/// fresh order is processed.
pub proof fn lemma_apply_order_footprint(b: BookView, o: Order, id: u64)
    requires
        inv(b),
        fresh_taker(b, o),
        valid_submission(o.order_type, o.price, o.quantity),
        id != o.id,
        !has_order(all_resting(b), id),
        forall|i: int|
            0 <= i < b.trades.len() ==> (#[trigger] b.trades[i]).buy_order_id != id
                && b.trades[i].sell_order_id != id,
    ensures
        ({
            let b2 = apply_order(b, o);
            &&& !has_order(all_resting(b2), id)
            &&& forall|i: int|
                0 <= i < b2.trades.len() ==> (#[trigger] b2.trades[i]).buy_order_id != id
                    && b2.trades[i].sell_order_id != id
        }),
{
    let ms = opposite(o.side);
    let opp = side_levels(b, ms);
    let limit: Option<u64> = if o.order_type == OrderType::Market {
        Option::None
    } else {
        Option::Some(limit_price(o))
    };
    let out = taker_out(b, o, limit);
    let b2 = apply_order(b, o);
    lemma_taker_walk_pre(b, o);
    lemma_apply_order_inv(b, o);
    lemma_all_resting_parts(b);
    let off: int = if o.side == OrderSide::Buy {
        flat(b.buys).len() as int
    } else {
        0
    };
    // The new trades reference only the taker and old resting makers.
    assert(b2.trades == b.trades + out.trades);
    assert forall|i: int| 0 <= i < b2.trades.len() implies (
    #[trigger] b2.trades[i]).buy_order_id != id && b2.trades[i].sell_order_id != id by {
        if i < b.trades.len() {
            assert(b2.trades[i] == b.trades[i]);
        } else {
            let k = i - b.trades.len();
            assert(b2.trades[i] == out.trades[k]);
            lemma_match_book_trades_at(
                o,
                o.remaining_quantity as int,
                b.next_trade_id,
                opp,
                limit,
                ms,
                k,
            );
            assert(flat(opp)[k] == all_resting(b)[off + k]);
            assert(flat(opp)[k].id != id);
        }
    }
    // The id is not resting afterwards either: it would be indexed.
    assert(!has_order(all_resting(b2), id)) by {
        if has_order(all_resting(b2), id) {
            let w = choose|x: int|
                0 <= x < all_resting(b2).len() && all_resting(b2)[x].id == id;
            assert(b2.index.contains_key(id));
            if o.order_type == OrderType::Market {
                lemma_remove_ids_semantics(b.index, out.removed, id);
                assert(b.index.contains_key(id));
                assert(has_order(all_resting(b), id));
            } else {
                if out.rem > 0 {
                    lemma_remove_ids_semantics(b.index, out.removed, id);
                    assert(b.index.contains_key(id));
                    assert(has_order(all_resting(b), id));
                } else {
                    lemma_remove_ids_semantics(b.index, out.removed, id);
                    assert(b.index.contains_key(id));
                    assert(has_order(all_resting(b), id));
                }
            }
        }
    }
}

/// Folding one more order onto a processed run.
pub proof fn lemma_apply_seq_push(b: BookView, s: Seq<Order>, x: Order)
    ensures
        crate::model::apply_seq(b, s.push(x)) == crate::model::apply_order(
            crate::model::apply_seq(b, s),
            x,
        ),
    decreases s.len(),
{
    if s.len() == 0 {
        assert(s.push(x)[0] == x);
        assert(s.push(x).drop_first() =~= Seq::<Order>::empty());
        assert(crate::model::apply_seq(b, s) == b);
        assert(crate::model::apply_seq(crate::model::apply_order(b, x), Seq::<Order>::empty())
            == crate::model::apply_order(b, x));
        assert(crate::model::apply_seq(b, s.push(x)) == crate::model::apply_seq(
            crate::model::apply_order(b, x),
            s.push(x).drop_first(),
        ));
    } else {
        assert(s.push(x)[0] == s[0]);
        assert(s.push(x).drop_first() =~= s.drop_first().push(x));
        lemma_apply_seq_push(crate::model::apply_order(b, s[0]), s.drop_first(), x);
        assert(crate::model::apply_seq(b, s.push(x)) == crate::model::apply_seq(
            crate::model::apply_order(b, s[0]),
            s.drop_first().push(x),
        ));
        assert(crate::model::apply_seq(b, s) == crate::model::apply_seq(
            crate::model::apply_order(b, s[0]),
            s.drop_first(),
        ));
    }
}

/// Reserving a run of ids preserves the invariant.
pub proof fn lemma_bump_inv(b: BookView, n: int)
    requires
        inv(b),
        n >= 0,
    ensures
        inv(
            BookView {
                next_order_id: b.next_order_id + n,
                orders_processed: b.orders_processed + n,
                ..b
            },
        ),
{
    let b1 = BookView {
        next_order_id: b.next_order_id + n,
        orders_processed: b.orders_processed + n,
        ..b
    };
    assert(all_resting(b1) == all_resting(b));
    assert(crate::model::ids_fresh(b1)) by {
        assert(forall|i: int|
            0 <= i < all_resting(b1).len() ==> (#[trigger] all_resting(b1)[i]).id
                < b1.next_order_id);
    }
}

} // verus!