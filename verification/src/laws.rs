//! The engine's stated laws, proved once and for all over the book model:
//! the book at rest is never crossed, empty sides carry their sentinel
//! quotes, matching respects time priority within a level, a cancelled id is
//! gone, and a full match leaves both sides empty.

use vstd::prelude::*;

use crate::book_model::book_wf;
use crate::book_model::cancel_found;
use crate::book_model::derived_best_ask_price;
use crate::book_model::derived_best_ask_size;
use crate::book_model::derived_best_bid_price;
use crate::book_model::derived_best_bid_size;
use crate::book_model::highest_side_below;
use crate::book_model::is_aggressive;
use crate::book_model::is_side_level;
use crate::book_model::lemma_highest_side_below;
use crate::book_model::lemma_highest_unique;
use crate::book_model::lemma_lowest_side_from;
use crate::book_model::lemma_lowest_unique;
use crate::book_model::levels_after_submit;
use crate::book_model::lowest_side_from;
use crate::book_model::sweep_end;
use crate::book_model::sweep_start;
use crate::book_model::sweep_up_levels;
use crate::book_model::sweep_up_leftover;
use crate::book_model::BookView;
use crate::order::OrderType;
use crate::order::OrderView;
use crate::order::Side;
use crate::price_level::active_after;
use crate::price_level::consumed_count;

verus! {

/// The book at rest is never crossed: the best bid is strictly below the
/// best ask. The one state the sentinels cannot separate is an ask resting
/// at the market minimum while the bid side is empty, where both quotes
/// collapse to the minimum; that state is excluded here.
pub proof fn lemma_book_uncrossed(v: BookView)
    requires
        book_wf(v),
        v.best_bid_size > 0 || !is_side_level(v.levels[0], Side::Sell),
    ensures
        v.best_bid_price < v.best_ask_price,
{
    let n = v.levels.len() as int;
    let h = highest_side_below(v.levels, Side::Buy, n);
    let l = lowest_side_from(v.levels, Side::Sell, 0);
    lemma_highest_side_below(v.levels, Side::Buy, n);
    lemma_lowest_side_from(v.levels, Side::Sell, 0);
    crate::book_model::lemma_best_bid_shape(v);
    if h >= 0 {
        if l < n {
            assert(is_side_level(v.levels[h], Side::Buy));
            assert(is_side_level(v.levels[l], Side::Sell));
            assert(h < l);
        }
    } else {
        if l < n {
            assert(l != 0);
        }
    }
}

/// An empty side shows its sentinel: minimum price with size 0 for bids,
/// maximum price with size 0 for asks.
pub proof fn lemma_empty_side_sentinels(v: BookView)
    requires
        book_wf(v),
    ensures
        (forall|i: int| 0 <= i < v.levels.len() ==> !is_side_level(#[trigger] v.levels[i], Side::Buy))
            ==> v.best_bid_price == v.min_price && v.best_bid_size == 0,
        (forall|i: int|
            0 <= i < v.levels.len() ==> !is_side_level(#[trigger] v.levels[i], Side::Sell))
            ==> v.best_ask_price == v.max_price && v.best_ask_size == 0,
{
    if forall|i: int| 0 <= i < v.levels.len() ==> !is_side_level(#[trigger] v.levels[i], Side::Buy) {
        lemma_highest_unique(v.levels, Side::Buy, v.levels.len() as int, -1);
    }
    if forall|i: int|
        0 <= i < v.levels.len() ==> !is_side_level(#[trigger] v.levels[i], Side::Sell) {
        lemma_lowest_unique(v.levels, Side::Sell, 0, v.levels.len() as int);
    }
}

/// Whether matching an aggressor of size `qty` against a level's queue
/// touches the order at position `j`: it is either consumed completely or its
/// unfilled part is reduced.
pub open spec fn order_touched(s: Seq<OrderView>, qty: u64, j: int) -> bool {
    ||| j < consumed_count(s, qty)
    ||| (j == consumed_count(s, qty) && j < s.len() && active_after(s, qty)[0].remaining != s[
        j
    ].remaining)
}

/// Time priority within a level is first-in-first-out: an aggressor never
/// touches an order before every order ahead of it in the queue has been
/// consumed completely.
pub proof fn lemma_level_fifo(s: Seq<OrderView>, qty: u64, a: int, b: int)
    requires
        0 <= a < b < s.len(),
        order_touched(s, qty, b),
    ensures
        a < consumed_count(s, qty),
        b <= consumed_count(s, qty),
{
    crate::price_level::lemma_match_shape(s, qty);
}

/// After a cancellation removes an id, the id is gone from the book's index:
/// a second cancellation of the same id reports "order not found".
pub proof fn lemma_cancel_clears_id(v: BookView, id: u64)
    requires
        book_wf(v),
        cancel_found(v, id),
    ensures
        ({
            let v2 = BookView {
                levels: crate::book_model::levels_after_cancel(v, id),
                price_by_id: v.price_by_id.remove(id),
                ..v
            };
            !cancel_found(v2, id)
        }),
{
}

/// Assigned ids are never shared: two distinct resting orders of a
/// well-formed book always carry different ids, within a level by the
/// level's own uniqueness, across levels because the id index points each id
/// at a single price.
pub proof fn lemma_ids_globally_unique(v: BookView, i1: int, j1: int, i2: int, j2: int)
    requires
        book_wf(v),
        0 <= i1 < v.levels.len(),
        0 <= j1 < v.levels[i1].len(),
        0 <= i2 < v.levels.len(),
        0 <= j2 < v.levels[i2].len(),
        (i1, j1) != (i2, j2),
    ensures
        v.levels[i1][j1].id != v.levels[i2][j2].id,
{
    if i1 == i2 {
        assert(crate::book_model::ids_unique_level(v.levels[i1]));
    } else {
        let o1 = v.levels[i1][j1];
        let o2 = v.levels[i2][j2];
        assert(v.price_by_id[o1.id].0 == v.min_price + i1);
        assert(v.price_by_id[o2.id].0 == v.min_price + i2);
    }
}

/// Full-match symmetry: a buy limit at price `p` of size `n` against a book
/// whose only resting order is a sell limit at `p` of size `n` crosses,
/// consumes it completely, rests nothing, and leaves both sides empty with
/// their sentinel quotes.
pub proof fn lemma_full_match_symmetry(v: BookView, p: u64, n: u64)
    requires
        book_wf(v),
        1 <= n,
        v.min_price <= p < v.max_price,
        ({
            let x = p - v.min_price;
            &&& v.levels[x].len() == 1
            &&& v.levels[x][0].side == Side::Sell
            &&& v.levels[x][0].remaining == n
            &&& forall|m: int|
                0 <= m < v.levels.len() && m != x ==> (#[trigger] v.levels[m]).len() == 0
        }),
    ensures
        is_aggressive(v, p, Side::Buy, OrderType::Limit),
        ({
            let after = levels_after_submit(v, p, n, Side::Buy, OrderType::Limit);
            &&& forall|m: int| 0 <= m < after.len() ==> (#[trigger] after[m]).len() == 0
            &&& derived_best_bid_price(after, v.min_price) == v.min_price
            &&& derived_best_bid_size(after) == 0
            &&& derived_best_ask_price(after, v.min_price, v.max_price) == v.max_price
            &&& derived_best_ask_size(after) == 0
        }),
{
    let x = p - v.min_price;
    let s = v.levels[x];
    assert(is_side_level(s, Side::Sell));
    lemma_lowest_unique(v.levels, Side::Sell, 0, x);
    assert(v.best_ask_price == p);
    assert(is_aggressive(v, p, Side::Buy, OrderType::Limit));
    assert(sweep_start(v, Side::Buy) == x);
    assert(sweep_end(v, p, Side::Buy, OrderType::Limit) == x + 1);
    // one level is swept, and it is consumed exactly
    let b = active_after(s, n);
    let lo = crate::price_level::leftover_after(s, n);
    assert(s.skip(1) =~= Seq::<OrderView>::empty());
    assert(b == active_after(s.skip(1), 0));
    assert(b.len() == 0);
    assert(lo == crate::price_level::leftover_after(s.skip(1), (n - s[0].remaining) as u64));
    assert(lo == 0);
    let l2 = v.levels.update(x, b);
    assert(sweep_up_levels(v.levels, x, x + 1, n) == sweep_up_levels(l2, x + 1, x + 1, 0));
    assert(sweep_up_levels(l2, x + 1, x + 1, 0) == l2);
    assert(sweep_up_leftover(v.levels, x, x + 1, n) == sweep_up_leftover(l2, x + 1, x + 1, 0));
    assert(sweep_up_leftover(l2, x + 1, x + 1, 0) == 0);
    let after = levels_after_submit(v, p, n, Side::Buy, OrderType::Limit);
    assert(!crate::book_model::rests(v, p, n, Side::Buy, OrderType::Limit));
    assert(after == l2);
    assert forall|m: int| 0 <= m < after.len() implies (#[trigger] after[m]).len() == 0 by {
        if m != x {
            assert(after[m] == v.levels[m]);
        }
    }
    lemma_highest_unique(after, Side::Buy, after.len() as int, -1);
    lemma_lowest_unique(after, Side::Sell, 0, after.len() as int);
}

} // verus!
