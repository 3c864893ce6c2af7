//! The mathematical model of an order book's resting state: a sequence of
//! order queues, one per integer price in the market's band, indexed by the
//! offset from the minimum price. The matching algorithm and the derived
//! best quotes are defined here as functions of that model.

use vstd::prelude::*;

use crate::order::OrderType;
use crate::order::OrderView;
use crate::order::Side;
use crate::price_level::active_after;
use crate::price_level::consumed_count;
use crate::price_level::has_order_id;
use crate::price_level::ids_of;
use crate::price_level::index_of_id;
use crate::price_level::leftover_after;
use crate::price_level::lemma_index_of_id;
use crate::price_level::lemma_match_shape;
use crate::price_level::lemma_match_sum_le;
use crate::price_level::lemma_match_wf;
use crate::price_level::lemma_sum_remaining_remove;
use crate::price_level::level_orders_wf;
use crate::price_level::sum_remaining;
use crate::price_level::MAX_ORDERS_PER_LEVEL;

verus! {

/// The queue is non-empty and rests on the given side.
pub open spec fn is_side_level(s: Seq<OrderView>, side: Side) -> bool {
    s.len() > 0 && s[0].side == side
}

/// All orders of one queue rest on the same side.
pub open spec fn level_side_uniform(s: Seq<OrderView>) -> bool {
    forall|j: int| 0 <= j < s.len() ==> (#[trigger] s[j]).side == s[0].side
}

/// Every level of the book is side-homogeneous.
pub open spec fn sides_uniform(levels: Seq<Seq<OrderView>>) -> bool {
    forall|i: int| 0 <= i < levels.len() ==> level_side_uniform(#[trigger] levels[i])
}

/// Every resting bid is priced strictly below every resting ask.
pub open spec fn noncrossing(levels: Seq<Seq<OrderView>>) -> bool {
    forall|i: int, j: int|
        0 <= i < levels.len() && 0 <= j < levels.len() && is_side_level(
            #[trigger] levels[i],
            Side::Buy,
        ) && is_side_level(#[trigger] levels[j], Side::Sell) ==> i < j
}

/// No two orders of one queue share an id.
pub open spec fn ids_unique_level(s: Seq<OrderView>) -> bool {
    forall|j1: int, j2: int|
        0 <= j1 < j2 < s.len() ==> (#[trigger] s[j1]).id != (#[trigger] s[j2]).id
}

/// Every id in the book was assigned no later than `bound`.
pub open spec fn ids_below(s: Seq<OrderView>, bound: u64) -> bool {
    forall|j: int| 0 <= j < s.len() ==> (#[trigger] s[j]).id <= bound
}

/// The queue holds an order with this id on this side.
pub open spec fn level_has_entry(s: Seq<OrderView>, id: u64, side: Side) -> bool {
    exists|j: int| 0 <= j < s.len() && (#[trigger] s[j]).id == id && s[j].side == side
}

/// The id index is exact: it maps an id to a price and side if and only if an
/// order with that id rests at that price, on that side.
pub open spec fn id_map_matches(
    m: Map<u64, (u64, Side)>,
    levels: Seq<Seq<OrderView>>,
    min_price: u64,
) -> bool {
    &&& forall|id: u64| #[trigger]
        m.dom().contains(id) ==> {
            &&& min_price <= m[id].0
            &&& m[id].0 - min_price < levels.len()
            &&& level_has_entry(levels[m[id].0 - min_price], id, m[id].1)
        }
    &&& forall|i: int, j: int|
        0 <= i < levels.len() && 0 <= j < levels[i].len() ==> {
            let o = #[trigger] levels[i][j];
            &&& m.dom().contains(o.id)
            &&& m[o.id].0 == min_price + i
            &&& m[o.id].1 == o.side
        }
}

/// The highest index below `n` holding a non-empty level of the given side,
/// or -1 if there is none.
pub open spec fn highest_side_below(levels: Seq<Seq<OrderView>>, side: Side, n: int) -> int
    decreases n,
{
    if n <= 0 {
        -1
    } else if is_side_level(levels[n - 1], side) {
        n - 1
    } else {
        highest_side_below(levels, side, n - 1)
    }
}

/// The lowest index at or above `i` holding a non-empty level of the given
/// side, or the book's length if there is none.
pub open spec fn lowest_side_from(levels: Seq<Seq<OrderView>>, side: Side, i: int) -> int
    decreases levels.len() - i,
{
    if i < 0 || i >= levels.len() {
        levels.len() as int
    } else if is_side_level(levels[i], side) {
        i
    } else {
        lowest_side_from(levels, side, i + 1)
    }
}

pub proof fn lemma_highest_side_below(levels: Seq<Seq<OrderView>>, side: Side, n: int)
    requires
        0 <= n <= levels.len(),
    ensures
        -1 <= highest_side_below(levels, side, n) < n,
        highest_side_below(levels, side, n) >= 0 ==> is_side_level(
            levels[highest_side_below(levels, side, n)],
            side,
        ),
        forall|i: int|
            highest_side_below(levels, side, n) < i < n ==> !is_side_level(
                #[trigger] levels[i],
                side,
            ),
    decreases n,
{
    if n > 0 && !is_side_level(levels[n - 1], side) {
        lemma_highest_side_below(levels, side, n - 1);
    }
}

pub proof fn lemma_lowest_side_from(levels: Seq<Seq<OrderView>>, side: Side, i: int)
    requires
        0 <= i <= levels.len(),
    ensures
        i <= lowest_side_from(levels, side, i) <= levels.len(),
        lowest_side_from(levels, side, i) < levels.len() ==> is_side_level(
            levels[lowest_side_from(levels, side, i)],
            side,
        ),
        forall|j: int|
            i <= j < lowest_side_from(levels, side, i) ==> !is_side_level(
                #[trigger] levels[j],
                side,
            ),
    decreases levels.len() - i,
{
    if i < levels.len() && !is_side_level(levels[i], side) {
        lemma_lowest_side_from(levels, side, i + 1);
    }
}

/// The best bid price derived from the resting state: the highest non-empty
/// bid level, or the market minimum when the bid side is empty.
pub open spec fn derived_best_bid_price(levels: Seq<Seq<OrderView>>, min_price: u64) -> u64 {
    let h = highest_side_below(levels, Side::Buy, levels.len() as int);
    if h >= 0 {
        (min_price + h) as u64
    } else {
        min_price
    }
}

/// The size resting at the best bid level, or 0 when the bid side is empty.
pub open spec fn derived_best_bid_size(levels: Seq<Seq<OrderView>>) -> u64 {
    let h = highest_side_below(levels, Side::Buy, levels.len() as int);
    if h >= 0 {
        sum_remaining(levels[h]) as u64
    } else {
        0
    }
}

/// The best ask price derived from the resting state: the lowest non-empty
/// ask level, or the market maximum when the ask side is empty.
pub open spec fn derived_best_ask_price(
    levels: Seq<Seq<OrderView>>,
    min_price: u64,
    max_price: u64,
) -> u64 {
    let l = lowest_side_from(levels, Side::Sell, 0);
    if l < levels.len() {
        (min_price + l) as u64
    } else {
        max_price
    }
}

/// The size resting at the best ask level, or 0 when the ask side is empty.
pub open spec fn derived_best_ask_size(levels: Seq<Seq<OrderView>>) -> u64 {
    let l = lowest_side_from(levels, Side::Sell, 0);
    if l < levels.len() {
        sum_remaining(levels[l]) as u64
    } else {
        0
    }
}

/// The book after an aggressor of size `qty` has swept the levels at indices
/// `i, i+1, ..., end-1`, best price first.
pub open spec fn sweep_up_levels(
    levels: Seq<Seq<OrderView>>,
    i: int,
    end: int,
    qty: u64,
) -> Seq<Seq<OrderView>>
    decreases end - i,
{
    if i < 0 || i >= end || end > levels.len() || qty == 0 {
        levels
    } else {
        sweep_up_levels(
            levels.update(i, active_after(levels[i], qty)),
            i + 1,
            end,
            leftover_after(levels[i], qty),
        )
    }
}

/// The aggressor size still unfilled after the upward sweep.
pub open spec fn sweep_up_leftover(levels: Seq<Seq<OrderView>>, i: int, end: int, qty: u64) -> u64
    decreases end - i,
{
    if i < 0 || i >= end || end > levels.len() || qty == 0 {
        qty
    } else {
        sweep_up_leftover(
            levels.update(i, active_after(levels[i], qty)),
            i + 1,
            end,
            leftover_after(levels[i], qty),
        )
    }
}

/// The book after an aggressor of size `qty` has swept the levels at indices
/// `i, i-1, ..., end`, best price first.
pub open spec fn sweep_down_levels(
    levels: Seq<Seq<OrderView>>,
    i: int,
    end: int,
    qty: u64,
) -> Seq<Seq<OrderView>>
    decreases i - end + 1,
{
    if i < end || end < 0 || i >= levels.len() || qty == 0 {
        levels
    } else {
        sweep_down_levels(
            levels.update(i, active_after(levels[i], qty)),
            i - 1,
            end,
            leftover_after(levels[i], qty),
        )
    }
}

/// The aggressor size still unfilled after the downward sweep.
pub open spec fn sweep_down_leftover(levels: Seq<Seq<OrderView>>, i: int, end: int, qty: u64) -> u64
    decreases i - end + 1,
{
    if i < end || end < 0 || i >= levels.len() || qty == 0 {
        qty
    } else {
        sweep_down_leftover(
            levels.update(i, active_after(levels[i], qty)),
            i - 1,
            end,
            leftover_after(levels[i], qty),
        )
    }
}

/// An upward sweep never touches a level outside its range and never grows
/// the unfilled size.
pub proof fn lemma_sweep_up_frame(levels: Seq<Seq<OrderView>>, i: int, end: int, qty: u64)
    ensures
        sweep_up_levels(levels, i, end, qty).len() == levels.len(),
        sweep_up_leftover(levels, i, end, qty) <= qty,
        forall|m: int|
            0 <= m < levels.len() && !(i <= m < end) ==> sweep_up_levels(levels, i, end, qty)[m]
                == levels[m],
    decreases end - i,
{
    if i < 0 || i >= end || end > levels.len() || qty == 0 {
    } else {
        let l2 = levels.update(i, active_after(levels[i], qty));
        let q2 = leftover_after(levels[i], qty);
        lemma_match_shape(levels[i], qty);
        lemma_sweep_up_frame(l2, i + 1, end, q2);
        assert(sweep_up_levels(levels, i, end, qty) == sweep_up_levels(l2, i + 1, end, q2));
        assert(sweep_up_leftover(levels, i, end, qty) == sweep_up_leftover(l2, i + 1, end, q2));
        assert forall|m: int|
            0 <= m < levels.len() && !(i <= m < end) implies sweep_up_levels(levels, i, end, qty)[m]
            == levels[m] by {
            assert(sweep_up_levels(l2, i + 1, end, q2)[m] == l2[m]);
            assert(l2[m] == levels[m]);
        }
    }
}

/// A downward sweep never touches a level outside its range and never grows
/// the unfilled size.
pub proof fn lemma_sweep_down_frame(levels: Seq<Seq<OrderView>>, i: int, end: int, qty: u64)
    ensures
        sweep_down_levels(levels, i, end, qty).len() == levels.len(),
        sweep_down_leftover(levels, i, end, qty) <= qty,
        forall|m: int|
            0 <= m < levels.len() && !(end <= m <= i) ==> sweep_down_levels(levels, i, end, qty)[m]
                == levels[m],
    decreases i - end + 1,
{
    if i < end || end < 0 || i >= levels.len() || qty == 0 {
    } else {
        let l2 = levels.update(i, active_after(levels[i], qty));
        let q2 = leftover_after(levels[i], qty);
        lemma_match_shape(levels[i], qty);
        lemma_sweep_down_frame(l2, i - 1, end, q2);
        assert(sweep_down_levels(levels, i, end, qty) == sweep_down_levels(l2, i - 1, end, q2));
        assert(sweep_down_leftover(levels, i, end, qty) == sweep_down_leftover(l2, i - 1, end, q2));
        assert forall|m: int|
            0 <= m < levels.len() && !(end <= m <= i) implies sweep_down_levels(
            levels,
            i,
            end,
            qty,
        )[m] == levels[m] by {
            assert(sweep_down_levels(l2, i - 1, end, q2)[m] == l2[m]);
            assert(l2[m] == levels[m]);
        }
    }
}

/// What an upward sweep leaves at each level it visits: the level matched
/// against the aggressor size that was still unfilled when the sweep reached
/// it.
pub proof fn lemma_sweep_up_at(levels: Seq<Seq<OrderView>>, i: int, end: int, qty: u64, m: int)
    requires
        0 <= i <= m < end,
        end <= levels.len(),
    ensures
        sweep_up_levels(levels, i, end, qty)[m] == active_after(
            levels[m],
            sweep_up_leftover(levels, i, m, qty),
        ),
    decreases m - i,
{
    if qty == 0 {
        assert(sweep_up_levels(levels, i, end, qty) == levels);
        assert(sweep_up_leftover(levels, i, m, qty) == qty);
        lemma_match_shape(levels[m], 0);
        assert(active_after(levels[m], 0) == levels[m]);
    } else if m == i {
        let l2 = levels.update(i, active_after(levels[i], qty));
        let q2 = leftover_after(levels[i], qty);
        assert(sweep_up_levels(levels, i, end, qty) == sweep_up_levels(l2, i + 1, end, q2));
        lemma_sweep_up_frame(l2, i + 1, end, q2);
        assert(sweep_up_levels(l2, i + 1, end, q2)[i] == l2[i]);
        assert(sweep_up_leftover(levels, i, i, qty) == qty);
    } else {
        let l2 = levels.update(i, active_after(levels[i], qty));
        let q2 = leftover_after(levels[i], qty);
        assert(sweep_up_levels(levels, i, end, qty) == sweep_up_levels(l2, i + 1, end, q2));
        assert(sweep_up_leftover(levels, i, m, qty) == sweep_up_leftover(l2, i + 1, m, q2));
        lemma_sweep_up_at(l2, i + 1, end, q2, m);
        assert(l2[m] == levels[m]);
    }
}

/// What a downward sweep leaves at each level it visits.
pub proof fn lemma_sweep_down_at(levels: Seq<Seq<OrderView>>, i: int, end: int, qty: u64, m: int)
    requires
        0 <= end <= m <= i,
        i < levels.len(),
    ensures
        sweep_down_levels(levels, i, end, qty)[m] == active_after(
            levels[m],
            sweep_down_leftover(levels, i, m + 1, qty),
        ),
    decreases i - m,
{
    if qty == 0 {
        assert(sweep_down_levels(levels, i, end, qty) == levels);
        assert(sweep_down_leftover(levels, i, m + 1, qty) == qty);
        lemma_match_shape(levels[m], 0);
        assert(active_after(levels[m], 0) == levels[m]);
    } else if m == i {
        let l2 = levels.update(i, active_after(levels[i], qty));
        let q2 = leftover_after(levels[i], qty);
        assert(sweep_down_levels(levels, i, end, qty) == sweep_down_levels(l2, i - 1, end, q2));
        lemma_sweep_down_frame(l2, i - 1, end, q2);
        assert(sweep_down_levels(l2, i - 1, end, q2)[i] == l2[i]);
        assert(sweep_down_leftover(levels, i, i + 1, qty) == qty);
    } else {
        let l2 = levels.update(i, active_after(levels[i], qty));
        let q2 = leftover_after(levels[i], qty);
        assert(sweep_down_levels(levels, i, end, qty) == sweep_down_levels(l2, i - 1, end, q2));
        assert(sweep_down_leftover(levels, i, m + 1, qty) == sweep_down_leftover(
            l2,
            i - 1,
            m + 1,
            q2,
        ));
        lemma_sweep_down_at(l2, i - 1, end, q2, m);
        assert(l2[m] == levels[m]);
    }
}

/// If an upward sweep ends with part of the aggressor unfilled, every level
/// it visited was fully consumed.
pub proof fn lemma_sweep_up_exhausts(levels: Seq<Seq<OrderView>>, i: int, end: int, qty: u64)
    requires
        0 <= i,
        end <= levels.len(),
        sweep_up_leftover(levels, i, end, qty) > 0,
    ensures
        forall|m: int|
            i <= m < end && 0 <= m ==> #[trigger] sweep_up_levels(levels, i, end, qty)[m].len()
                == 0,
    decreases end - i,
{
    if i < 0 || i >= end || end > levels.len() || qty == 0 {
    } else {
        let l2 = levels.update(i, active_after(levels[i], qty));
        let q2 = leftover_after(levels[i], qty);
        assert(sweep_up_levels(levels, i, end, qty) == sweep_up_levels(l2, i + 1, end, q2));
        assert(sweep_up_leftover(levels, i, end, qty) == sweep_up_leftover(l2, i + 1, end, q2));
        assert(q2 > 0) by {
            if q2 == 0 {
                lemma_sweep_up_frame(l2, i + 1, end, q2);
            }
        }
        lemma_sweep_up_exhausts(l2, i + 1, end, q2);
        lemma_sweep_up_frame(l2, i + 1, end, q2);
        lemma_match_shape(levels[i], qty);
        assert(sweep_up_levels(levels, i, end, qty)[i] == l2[i]);
        assert(active_after(levels[i], qty).len() == 0);
        assert forall|m: int|
            i <= m < end && 0 <= m implies #[trigger] sweep_up_levels(levels, i, end, qty)[m].len()
            == 0 by {
            if m > i {
                assert(sweep_up_levels(l2, i + 1, end, q2)[m].len() == 0);
            }
        }
    }
}

/// Level-local well-formedness of every level of a book, each at its own
/// price: well-formed orders, bounded occupancy and volume, one side per
/// level, no repeated ids.
pub open spec fn levels_wf(levels: Seq<Seq<OrderView>>, min_price: u64) -> bool {
    forall|i: int|
        0 <= i < levels.len() ==> {
            let s = #[trigger] levels[i];
            &&& level_orders_wf(s, (min_price + i) as u64)
            &&& s.len() <= MAX_ORDERS_PER_LEVEL
            &&& sum_remaining(s) <= u64::MAX
            &&& level_side_uniform(s)
            &&& ids_unique_level(s)
        }
}

/// Every id in the book was assigned no later than `bound`.
pub open spec fn levels_ids_below(levels: Seq<Seq<OrderView>>, bound: u64) -> bool {
    forall|i: int| 0 <= i < levels.len() ==> ids_below(#[trigger] levels[i], bound)
}

/// Everything matching at one level preserves, stated together: survivors are
/// the original orders past the consumed front, with only the first
/// survivor's unfilled part reduced.
pub proof fn lemma_level_match_props(s: Seq<OrderView>, qty: u64, price: u64, bound: u64)
    ensures
        ({
            let b = active_after(s, qty);
            let k = consumed_count(s, qty);
            &&& 0 <= k <= s.len()
            &&& b.len() == s.len() - k
            &&& sum_remaining(b) <= sum_remaining(s)
            &&& (level_orders_wf(s, price) ==> level_orders_wf(b, price))
            &&& (level_side_uniform(s) ==> level_side_uniform(b))
            &&& (ids_unique_level(s) ==> ids_unique_level(b))
            &&& (ids_below(s, bound) ==> ids_below(b, bound))
            &&& forall|j: int|
                0 <= j < b.len() ==> (#[trigger] b[j]).id == s[j + k].id && b[j].side == s[
                    j + k
                ].side
        }),
{
    lemma_match_shape(s, qty);
    lemma_match_sum_le(s, qty);
    if level_orders_wf(s, price) {
        lemma_match_wf(s, qty, price);
    }
    let b = active_after(s, qty);
    let k = consumed_count(s, qty);
    assert forall|j: int|
        0 <= j < b.len() implies (#[trigger] b[j]).id == s[j + k].id && b[j].side == s[
        j + k
    ].side by {
        if j > 0 {
            assert(b[j] == s[j + k]);
        }
    }
    if level_side_uniform(s) {
        assert forall|j: int| 0 <= j < b.len() implies (#[trigger] b[j]).side == b[0].side by {
            assert(b[j].side == s[j + k].side);
            assert(s[j + k].side == s[0].side);
            assert(b[0].side == s[k].side);
            assert(s[k].side == s[0].side);
        }
    }
    if ids_unique_level(s) {
        assert forall|j1: int, j2: int|
            0 <= j1 < j2 < b.len() implies (#[trigger] b[j1]).id != (#[trigger] b[j2]).id by {
            assert(b[j1].id == s[j1 + k].id);
            assert(b[j2].id == s[j2 + k].id);
        }
    }
    if ids_below(s, bound) {
        assert forall|j: int| 0 <= j < b.len() implies (#[trigger] b[j]).id <= bound by {
            assert(b[j].id == s[j + k].id);
        }
    }
}

/// An upward sweep keeps every level well-formed, keeps ids bounded, keeps
/// each level's side, and never makes a level non-empty.
pub proof fn lemma_sweep_up_preserves(
    levels: Seq<Seq<OrderView>>,
    i: int,
    end: int,
    qty: u64,
    min_price: u64,
    bound: u64,
)
    requires
        0 <= i,
        end <= levels.len(),
        levels_wf(levels, min_price),
        levels_ids_below(levels, bound),
    ensures
        ({
            let r = sweep_up_levels(levels, i, end, qty);
            &&& levels_wf(r, min_price)
            &&& levels_ids_below(r, bound)
            &&& forall|m: int|
                0 <= m < levels.len() && #[trigger] r[m].len() > 0 ==> levels[m].len() > 0
                    && r[m][0].side == levels[m][0].side
        }),
{
    let r = sweep_up_levels(levels, i, end, qty);
    lemma_sweep_up_frame(levels, i, end, qty);
    assert forall|m: int| 0 <= m < levels.len() implies {
        let s2 = #[trigger] r[m];
        &&& level_orders_wf(s2, (min_price + m) as u64)
        &&& s2.len() <= MAX_ORDERS_PER_LEVEL
        &&& sum_remaining(s2) <= u64::MAX
        &&& level_side_uniform(s2)
        &&& ids_unique_level(s2)
        &&& ids_below(s2, bound)
        &&& (s2.len() > 0 ==> levels[m].len() > 0 && s2[0].side == levels[m][0].side)
    } by {
        if i <= m < end {
            lemma_sweep_up_at(levels, i, end, qty, m);
            let qm = sweep_up_leftover(levels, i, m, qty);
            lemma_level_match_props(levels[m], qm, (min_price + m) as u64, bound);
            lemma_match_shape(levels[m], qm);
        } else {
            assert(r[m] == levels[m]);
        }
    }
}

/// A downward sweep keeps every level well-formed, keeps ids bounded, keeps
/// each level's side, and never makes a level non-empty.
pub proof fn lemma_sweep_down_preserves(
    levels: Seq<Seq<OrderView>>,
    i: int,
    end: int,
    qty: u64,
    min_price: u64,
    bound: u64,
)
    requires
        0 <= end,
        i < levels.len(),
        levels_wf(levels, min_price),
        levels_ids_below(levels, bound),
    ensures
        ({
            let r = sweep_down_levels(levels, i, end, qty);
            &&& levels_wf(r, min_price)
            &&& levels_ids_below(r, bound)
            &&& forall|m: int|
                0 <= m < levels.len() && #[trigger] r[m].len() > 0 ==> levels[m].len() > 0
                    && r[m][0].side == levels[m][0].side
        }),
{
    let r = sweep_down_levels(levels, i, end, qty);
    lemma_sweep_down_frame(levels, i, end, qty);
    assert forall|m: int| 0 <= m < levels.len() implies {
        let s2 = #[trigger] r[m];
        &&& level_orders_wf(s2, (min_price + m) as u64)
        &&& s2.len() <= MAX_ORDERS_PER_LEVEL
        &&& sum_remaining(s2) <= u64::MAX
        &&& level_side_uniform(s2)
        &&& ids_unique_level(s2)
        &&& ids_below(s2, bound)
        &&& (s2.len() > 0 ==> levels[m].len() > 0 && s2[0].side == levels[m][0].side)
    } by {
        if end <= m <= i {
            lemma_sweep_down_at(levels, i, end, qty, m);
            let qm = sweep_down_leftover(levels, i, m + 1, qty);
            lemma_level_match_props(levels[m], qm, (min_price + m) as u64, bound);
            lemma_match_shape(levels[m], qm);
        } else {
            assert(r[m] == levels[m]);
        }
    }
}

/// Sweeping, in either direction, preserves the non-crossing of the book and
/// the one-side-per-level discipline (both follow from side preservation).
pub proof fn lemma_side_shrink_noncrossing(l1: Seq<Seq<OrderView>>, l2: Seq<Seq<OrderView>>)
    requires
        l1.len() == l2.len(),
        noncrossing(l1),
        forall|m: int|
            0 <= m < l1.len() && #[trigger] l2[m].len() > 0 ==> l1[m].len() > 0 && l2[m][0].side
                == l1[m][0].side,
    ensures
        noncrossing(l2),
{
    assert forall|i: int, j: int|
        0 <= i < l2.len() && 0 <= j < l2.len() && is_side_level(#[trigger] l2[i], Side::Buy)
            && is_side_level(#[trigger] l2[j], Side::Sell) implies i < j by {
        assert(is_side_level(l1[i], Side::Buy));
        assert(is_side_level(l1[j], Side::Sell));
    }
}

/// The highest side index is the unique position that carries the side with
/// none above it.
pub proof fn lemma_highest_unique(levels: Seq<Seq<OrderView>>, side: Side, n: int, h: int)
    requires
        0 <= n <= levels.len(),
        -1 <= h < n,
        h >= 0 ==> is_side_level(levels[h], side),
        forall|i: int| h < i < n ==> !is_side_level(#[trigger] levels[i], side),
    ensures
        highest_side_below(levels, side, n) == h,
    decreases n,
{
    if n > 0 {
        if n - 1 == h {
        } else {
            assert(!is_side_level(levels[n - 1], side));
            lemma_highest_unique(levels, side, n - 1, h);
        }
    }
}

/// The lowest side index is the unique position that carries the side with
/// none below it.
pub proof fn lemma_lowest_unique(levels: Seq<Seq<OrderView>>, side: Side, i: int, l: int)
    requires
        0 <= i <= levels.len(),
        i <= l <= levels.len(),
        l < levels.len() ==> is_side_level(levels[l], side),
        forall|j: int| i <= j < l ==> !is_side_level(#[trigger] levels[j], side),
    ensures
        lowest_side_from(levels, side, i) == l,
    decreases levels.len() - i,
{
    if i < levels.len() {
        if i == l {
        } else {
            assert(!is_side_level(levels[i], side));
            lemma_lowest_unique(levels, side, i + 1, l);
        }
    }
}

/// In a well-formed book the stored best-ask size is zero exactly when the
/// ask side is empty, and otherwise the stored best-ask price points at the
/// lowest ask level.
pub proof fn lemma_best_ask_shape(v: BookView)
    requires
        book_wf(v),
    ensures
        ({
            let l = lowest_side_from(v.levels, Side::Sell, 0);
            &&& 0 <= l <= v.levels.len()
            &&& (v.best_ask_size == 0 <==> l == v.levels.len())
            &&& (l < v.levels.len() ==> v.best_ask_price == v.min_price + l && is_side_level(
                v.levels[l],
                Side::Sell,
            ))
            &&& (l == v.levels.len() ==> v.best_ask_price == v.max_price)
        }),
{
    let l = lowest_side_from(v.levels, Side::Sell, 0);
    lemma_lowest_side_from(v.levels, Side::Sell, 0);
    if l < v.levels.len() {
        crate::price_level::lemma_sum_remaining_pos(v.levels[l], (v.min_price + l) as u64);
    }
}

/// In a well-formed book the stored best-bid size is zero exactly when the
/// bid side is empty, and otherwise the stored best-bid price points at the
/// highest bid level.
pub proof fn lemma_best_bid_shape(v: BookView)
    requires
        book_wf(v),
    ensures
        ({
            let h = highest_side_below(v.levels, Side::Buy, v.levels.len() as int);
            &&& -1 <= h < v.levels.len()
            &&& (v.best_bid_size == 0 <==> h == -1)
            &&& (h >= 0 ==> v.best_bid_price == v.min_price + h && is_side_level(
                v.levels[h],
                Side::Buy,
            ))
            &&& (h == -1 ==> v.best_bid_price == v.min_price)
        }),
{
    let h = highest_side_below(v.levels, Side::Buy, v.levels.len() as int);
    lemma_highest_side_below(v.levels, Side::Buy, v.levels.len() as int);
    if h >= 0 {
        crate::price_level::lemma_sum_remaining_pos(v.levels[h], (v.min_price + h) as u64);
    }
}

/// Two books whose levels carry the given side at exactly the same places
/// have the same extrema for that side.
pub proof fn lemma_extrema_same_pattern(
    l1: Seq<Seq<OrderView>>,
    l2: Seq<Seq<OrderView>>,
    side: Side,
)
    requires
        l1.len() == l2.len(),
        forall|m: int|
            0 <= m < l1.len() ==> is_side_level(#[trigger] l2[m], side) == is_side_level(
                l1[m],
                side,
            ),
    ensures
        highest_side_below(l2, side, l2.len() as int) == highest_side_below(
            l1,
            side,
            l1.len() as int,
        ),
        lowest_side_from(l2, side, 0) == lowest_side_from(l1, side, 0),
{
    let n = l1.len() as int;
    lemma_highest_side_below(l1, side, n);
    let h = highest_side_below(l1, side, n);
    lemma_highest_unique(l2, side, n, h);
    lemma_lowest_side_from(l1, side, 0);
    let l = lowest_side_from(l1, side, 0);
    lemma_lowest_unique(l2, side, 0, l);
}

/// Pruning the id index after matching at one level keeps it exact: the
/// consumed front's ids leave the index, the survivors' entries stay.
#[verifier::rlimit(100)]
pub proof fn lemma_map_after_consume(
    m: Map<u64, (u64, Side)>,
    levels: Seq<Seq<OrderView>>,
    min_price: u64,
    x: int,
    qty: u64,
)
    requires
        id_map_matches(m, levels, min_price),
        levels_wf(levels, min_price),
        0 <= x < levels.len(),
    ensures
        ({
            let k = consumed_count(levels[x], qty);
            let gone = ids_of(levels[x].take(k)).to_set();
            id_map_matches(
                m.remove_keys(gone),
                levels.update(x, active_after(levels[x], qty)),
                min_price,
            )
        }),
{
    let s = levels[x];
    let b = active_after(s, qty);
    let k = consumed_count(s, qty);
    let gone = ids_of(s.take(k)).to_set();
    let m2 = m.remove_keys(gone);
    let l2 = levels.update(x, b);
    lemma_level_match_props(s, qty, (min_price + x) as u64, 0);
    lemma_match_shape(s, qty);
    // an id is pruned exactly when it stood in the consumed front
    assert forall|id: u64| #[trigger] gone.contains(id) implies exists|j: int|
        0 <= j < k && s[j].id == id by {
        let j = choose|j: int| 0 <= j < ids_of(s.take(k)).len() && ids_of(s.take(k))[j] == id;
        assert(s.take(k)[j] == s[j]);
        assert(0 <= j < k && s[j].id == id);
    }
    assert forall|id: u64| #[trigger] m2.dom().contains(id) implies {
        &&& min_price <= m2[id].0
        &&& m2[id].0 - min_price < l2.len()
        &&& level_has_entry(l2[m2[id].0 - min_price], id, m2[id].1)
    } by {
        assert(m.dom().contains(id));
        let y = m[id].0 - min_price;
        if y != x {
            assert(l2[y] == levels[y]);
        } else {
            let j = choose|j: int|
                0 <= j < s.len() && (#[trigger] s[j]).id == id && s[j].side == m[id].1;
            if j < k {
                assert(ids_of(s.take(k))[j] == s.take(k)[j].id);
                assert(s.take(k)[j] == s[j]);
                assert(gone.contains(id));
            } else {
                assert(b[j - k].id == s[j].id && b[j - k].side == s[j].side);
                assert(level_has_entry(l2[y], id, m2[id].1));
            }
        }
    }
    assert forall|i: int, j: int| 0 <= i < l2.len() && 0 <= j < l2[i].len() implies {
        let o = #[trigger] l2[i][j];
        &&& m2.dom().contains(o.id)
        &&& m2[o.id].0 == min_price + i
        &&& m2[o.id].1 == o.side
    } by {
        let o = l2[i][j];
        if i == x {
            assert(o.id == s[j + k].id && o.side == s[j + k].side);
            assert(m.dom().contains(s[j + k].id));
            // not pruned: a front id at the same level would repeat s[j+k].id
            if gone.contains(o.id) {
                let jj = choose|jj: int| 0 <= jj < k && s[jj].id == o.id;
                assert(s[jj].id == s[j + k].id);
                assert(jj < j + k);
                assert(ids_unique_level(s));
                assert(false);
            }
        } else {
            assert(l2[i] == levels[i]);
            assert(m.dom().contains(o.id));
            assert(m[o.id].0 == min_price + i);
            // not pruned: a front id at level x points at price x, not i
            if gone.contains(o.id) {
                let jj = choose|jj: int| 0 <= jj < k && s[jj].id == o.id;
                assert(s[jj] == levels[x][jj]);
                assert(m[s[jj].id].0 == min_price + x);
                assert(false);
            }
        }
    }
}

/// Adding a fresh order at one level keeps the id index exact once the new
/// id is recorded there.
pub proof fn lemma_map_after_add(
    m: Map<u64, (u64, Side)>,
    levels: Seq<Seq<OrderView>>,
    min_price: u64,
    x: int,
    o: OrderView,
)
    requires
        id_map_matches(m, levels, min_price),
        0 <= x < levels.len(),
        min_price + x <= u64::MAX,
        forall|i: int, j: int|
            0 <= i < levels.len() && 0 <= j < levels[i].len() ==> (#[trigger] levels[i][j]).id
                != o.id,
    ensures
        id_map_matches(
            m.insert(o.id, ((min_price + x) as u64, o.side)),
            levels.update(x, levels[x].push(o)),
            min_price,
        ),
{
    let m2 = m.insert(o.id, ((min_price + x) as u64, o.side));
    let l2 = levels.update(x, levels[x].push(o));
    assert forall|id: u64| #[trigger] m2.dom().contains(id) implies {
        &&& min_price <= m2[id].0
        &&& m2[id].0 - min_price < l2.len()
        &&& level_has_entry(l2[m2[id].0 - min_price], id, m2[id].1)
    } by {
        if id == o.id {
            let s2 = l2[x];
            assert(s2[s2.len() - 1] == o);
            assert(level_has_entry(s2, id, o.side));
        } else {
            assert(m.dom().contains(id));
            let y = m[id].0 - min_price;
            let j = choose|j: int|
                0 <= j < levels[y].len() && (#[trigger] levels[y][j]).id == id && levels[y][j].side
                    == m[id].1;
            if y == x {
                assert(l2[x][j] == levels[x][j]);
                assert(level_has_entry(l2[y], id, m2[id].1));
            } else {
                assert(l2[y] == levels[y]);
            }
        }
    }
    assert forall|i: int, j: int| 0 <= i < l2.len() && 0 <= j < l2[i].len() implies {
        let q = #[trigger] l2[i][j];
        &&& m2.dom().contains(q.id)
        &&& m2[q.id].0 == min_price + i
        &&& m2[q.id].1 == q.side
    } by {
        let q = l2[i][j];
        if i == x && j == levels[x].len() {
            assert(q == o);
        } else {
            assert(q == levels[i][j]);
            assert(q.id != o.id);
        }
    }
}

/// Removing one resting order and its index entry keeps the index exact.
pub proof fn lemma_map_after_remove(
    m: Map<u64, (u64, Side)>,
    levels: Seq<Seq<OrderView>>,
    min_price: u64,
    id: u64,
)
    requires
        id_map_matches(m, levels, min_price),
        levels_wf(levels, min_price),
        m.dom().contains(id),
    ensures
        ({
            let x = m[id].0 - min_price;
            let j = index_of_id(levels[x], id);
            &&& 0 <= x < levels.len()
            &&& 0 <= j < levels[x].len()
            &&& levels[x][j].id == id
            &&& id_map_matches(m.remove(id), levels.update(x, levels[x].remove(j)), min_price)
        }),
{
    let x = m[id].0 - min_price;
    let s = levels[x];
    lemma_index_of_id(s, id);
    assert(has_order_id(s, id)) by {
        let j = choose|j: int| 0 <= j < s.len() && (#[trigger] s[j]).id == id && s[j].side == m[id].1;
        assert(0 <= j < s.len() && s[j].id == id);
    }
    let j = index_of_id(s, id);
    let b = s.remove(j);
    let m2 = m.remove(id);
    let l2 = levels.update(x, b);
    assert(forall|jj: int| 0 <= jj < j ==> #[trigger] b[jj] == s[jj]);
    assert(forall|jj: int| j <= jj < b.len() ==> #[trigger] b[jj] == s[jj + 1]);
    assert forall|idq: u64| #[trigger] m2.dom().contains(idq) implies {
        &&& min_price <= m2[idq].0
        &&& m2[idq].0 - min_price < l2.len()
        &&& level_has_entry(l2[m2[idq].0 - min_price], idq, m2[idq].1)
    } by {
        assert(m.dom().contains(idq));
        let y = m[idq].0 - min_price;
        if y != x {
            assert(l2[y] == levels[y]);
        } else {
            let jj = choose|jj: int|
                0 <= jj < s.len() && (#[trigger] s[jj]).id == idq && s[jj].side == m[idq].1;
            assert(jj != j);
            if jj < j {
                assert(b[jj] == s[jj]);
                assert(level_has_entry(b, idq, m2[idq].1));
            } else {
                assert(b[jj - 1] == s[jj]);
                assert(level_has_entry(b, idq, m2[idq].1));
            }
        }
    }
    assert forall|i: int, jj: int| 0 <= i < l2.len() && 0 <= jj < l2[i].len() implies {
        let q = #[trigger] l2[i][jj];
        &&& m2.dom().contains(q.id)
        &&& m2[q.id].0 == min_price + i
        &&& m2[q.id].1 == q.side
    } by {
        let q = l2[i][jj];
        if i == x {
            let src = if jj < j {
                jj
            } else {
                jj + 1
            };
            assert(q == s[src]);
            assert(m.dom().contains(q.id));
            assert(q.id != id) by {
                if q.id == id {
                    assert(s[src].id == s[j].id);
                    assert(ids_unique_level(s));
                }
            }
        } else {
            assert(q == levels[i][jj]);
            assert(m.dom().contains(q.id));
            assert(q.id != id) by {
                if q.id == id {
                    assert(m[q.id].0 == min_price + i);
                    assert(m[id].0 == min_price + x);
                }
            }
        }
    }
}

/// Mathematical image of an order book.
pub ghost struct BookView {
    pub symbol: Seq<char>,
    pub min_price: u64,
    pub max_price: u64,
    pub levels: Seq<Seq<OrderView>>,
    pub best_bid_price: u64,
    pub best_bid_size: u64,
    pub best_ask_price: u64,
    pub best_ask_size: u64,
    pub price_by_id: Map<u64, (u64, Side)>,
    pub last_order_id: u64,
}

/// The book invariant: a dense level per price in `[min_price, max_price)`,
/// well-formed side-homogeneous levels, bids strictly below asks, an exact id
/// index, ids no newer than the id counter, and best quotes that are exactly
/// the derived top of each side.
pub open spec fn book_wf(v: BookView) -> bool {
    &&& 1 <= v.min_price < v.max_price
    &&& v.levels.len() == v.max_price - v.min_price
    &&& levels_wf(v.levels, v.min_price)
    &&& noncrossing(v.levels)
    &&& levels_ids_below(v.levels, v.last_order_id)
    &&& id_map_matches(v.price_by_id, v.levels, v.min_price)
    &&& v.best_bid_price == derived_best_bid_price(v.levels, v.min_price)
    &&& v.best_bid_size == derived_best_bid_size(v.levels)
    &&& v.best_ask_price == derived_best_ask_price(v.levels, v.min_price, v.max_price)
    &&& v.best_ask_size == derived_best_ask_size(v.levels)
}

/// A limit order's price passes validation against the market's band; market
/// orders skip price validation.
pub open spec fn submit_price_ok(v: BookView, price: u64, typ: OrderType) -> bool {
    typ == OrderType::Market || (v.min_price <= price && price < v.max_price)
}

/// Whether an incoming order crosses the book: market orders always do, a
/// limit buy does when priced at or above the best ask, a limit sell when
/// priced at or below the best bid.
pub open spec fn is_aggressive(v: BookView, price: u64, side: Side, typ: OrderType) -> bool {
    ||| typ == OrderType::Market
    ||| side == Side::Buy && price >= v.best_ask_price
    ||| side == Side::Sell && price <= v.best_bid_price
}

/// Where a crossing order starts consuming the opposite side: the best
/// opposite level.
pub open spec fn sweep_start(v: BookView, side: Side) -> int {
    if side == Side::Buy {
        lowest_side_from(v.levels, Side::Sell, 0)
    } else {
        highest_side_below(v.levels, Side::Buy, v.levels.len() as int)
    }
}

/// Where a crossing order stops consuming: at its own limit price, or at the
/// far end of the book for a market order.
pub open spec fn sweep_end(v: BookView, price: u64, side: Side, typ: OrderType) -> int {
    if side == Side::Buy {
        if typ == OrderType::Market {
            v.levels.len() as int
        } else {
            price - v.min_price + 1
        }
    } else {
        if typ == OrderType::Market {
            0
        } else {
            price - v.min_price
        }
    }
}

/// The book's levels after a crossing order has swept the opposite side.
pub open spec fn swept_levels(
    v: BookView,
    price: u64,
    size: u64,
    side: Side,
    typ: OrderType,
) -> Seq<Seq<OrderView>> {
    if side == Side::Buy {
        sweep_up_levels(v.levels, sweep_start(v, side), sweep_end(v, price, side, typ), size)
    } else {
        sweep_down_levels(v.levels, sweep_start(v, side), sweep_end(v, price, side, typ), size)
    }
}

/// The part of a crossing order's size the opposite side could not fill.
pub open spec fn swept_leftover(
    v: BookView,
    price: u64,
    size: u64,
    side: Side,
    typ: OrderType,
) -> u64 {
    if side == Side::Buy {
        sweep_up_leftover(v.levels, sweep_start(v, side), sweep_end(v, price, side, typ), size)
    } else {
        sweep_down_leftover(v.levels, sweep_start(v, side), sweep_end(v, price, side, typ), size)
    }
}

/// The levels an incoming order finds once any crossing part has matched.
pub open spec fn base_levels(
    v: BookView,
    price: u64,
    size: u64,
    side: Side,
    typ: OrderType,
) -> Seq<Seq<OrderView>> {
    if is_aggressive(v, price, side, typ) {
        swept_levels(v, price, size, side, typ)
    } else {
        v.levels
    }
}

/// The size that is left to rest passively: the unfilled remainder of a
/// crossing order, or the whole size of a passive one.
pub open spec fn rest_qty(v: BookView, price: u64, size: u64, side: Side, typ: OrderType) -> u64 {
    if is_aggressive(v, price, side, typ) {
        swept_leftover(v, price, size, side, typ)
    } else {
        size
    }
}

/// Whether anything rests on the book: only limit orders rest; a market
/// order's unfilled remainder is dropped.
pub open spec fn rests(v: BookView, price: u64, size: u64, side: Side, typ: OrderType) -> bool {
    typ == OrderType::Limit && rest_qty(v, price, size, side, typ) > 0
}

/// The record that rests after a submission: the next id, the limit price,
/// and the unmatched size as both size and unfilled part.
pub open spec fn rested_order(
    v: BookView,
    price: u64,
    size: u64,
    side: Side,
    typ: OrderType,
) -> OrderView {
    OrderView {
        id: (v.last_order_id + 1) as u64,
        price,
        size: rest_qty(v, price, size, side, typ),
        remaining: rest_qty(v, price, size, side, typ),
        side,
        status: crate::order::OrderStatus::Open,
        typ,
    }
}

/// The book's levels after a submission that passed validation: any crossing
/// part matched best-first against the opposite side, any unmatched limit
/// remainder appended at its price level.
pub open spec fn levels_after_submit(
    v: BookView,
    price: u64,
    size: u64,
    side: Side,
    typ: OrderType,
) -> Seq<Seq<OrderView>> {
    let base = base_levels(v, price, size, side, typ);
    if rests(v, price, size, side, typ) {
        let x = price - v.min_price;
        base.update(x, base[x].push(rested_order(v, price, size, side, typ)))
    } else {
        base
    }
}

/// The machine limits a submission must respect to rest: a free slot at its
/// level and a level volume that still fits in a machine word.
pub open spec fn submit_can_rest(
    v: BookView,
    price: u64,
    size: u64,
    side: Side,
    typ: OrderType,
) -> bool {
    rests(v, price, size, side, typ) ==> {
        let base = base_levels(v, price, size, side, typ);
        let x = price - v.min_price;
        &&& base[x].len() < MAX_ORDERS_PER_LEVEL
        &&& sum_remaining(base[x]) + rest_qty(v, price, size, side, typ) <= u64::MAX
    }
}

/// Whether a cancellation finds its order: exactly when the id index holds
/// the id.
pub open spec fn cancel_found(v: BookView, id: u64) -> bool {
    v.price_by_id.dom().contains(id)
}

/// The book's levels after a cancellation: the found order leaves its level,
/// the survivors keep their arrival order.
pub open spec fn levels_after_cancel(v: BookView, id: u64) -> Seq<Seq<OrderView>> {
    if cancel_found(v, id) {
        let x = v.price_by_id[id].0 - v.min_price;
        v.levels.update(x, v.levels[x].remove(index_of_id(v.levels[x], id)))
    } else {
        v.levels
    }
}

/// The indices of the non-empty levels of one side in ascending price order,
/// scanning from `i` up.
pub open spec fn asc_side_indices(levels: Seq<Seq<OrderView>>, side: Side, i: int) -> Seq<int>
    decreases levels.len() - i,
{
    if i < 0 || i >= levels.len() {
        Seq::empty()
    } else if is_side_level(levels[i], side) {
        seq![i] + asc_side_indices(levels, side, i + 1)
    } else {
        asc_side_indices(levels, side, i + 1)
    }
}

/// The indices of the non-empty levels of one side in descending price
/// order, scanning from just below `i` down.
pub open spec fn desc_side_indices(levels: Seq<Seq<OrderView>>, side: Side, i: int) -> Seq<int>
    decreases i,
{
    if i <= 0 || i > levels.len() {
        Seq::empty()
    } else if is_side_level(levels[i - 1], side) {
        seq![i - 1] + desc_side_indices(levels, side, i - 1)
    } else {
        desc_side_indices(levels, side, i - 1)
    }
}

/// The orders resting at the given level indices, flattened in index order,
/// oldest first within each level.
pub open spec fn orders_at_indices(levels: Seq<Seq<OrderView>>, idxs: Seq<int>) -> Seq<OrderView>
    decreases idxs.len(),
{
    if idxs.len() == 0 {
        Seq::empty()
    } else {
        levels[idxs[0]] + orders_at_indices(levels, idxs.skip(1))
    }
}

/// The occupied levels of one side, best price first: descending for bids,
/// ascending for asks.
pub open spec fn side_indices(v: BookView, side: Side) -> Seq<int> {
    if side == Side::Buy {
        desc_side_indices(v.levels, side, v.levels.len() as int)
    } else {
        asc_side_indices(v.levels, side, 0)
    }
}

/// The book's full open-order snapshot: bids best (highest) first, then asks
/// best (lowest) first, first-in-first-out within each level.
pub open spec fn book_snapshot(v: BookView) -> Seq<OrderView> {
    orders_at_indices(v.levels, side_indices(v, Side::Buy)) + orders_at_indices(
        v.levels,
        side_indices(v, Side::Sell),
    )
}

/// Flattening one more level appends its queue at the back.
pub proof fn lemma_orders_at_indices_push(levels: Seq<Seq<OrderView>>, idxs: Seq<int>, i: int)
    ensures
        orders_at_indices(levels, idxs.push(i)) == orders_at_indices(levels, idxs) + levels[i],
    decreases idxs.len(),
{
    if idxs.len() == 0 {
        let u = idxs.push(i);
        assert(u[0] == i);
        assert(u.skip(1) =~= Seq::<int>::empty());
        assert(orders_at_indices(levels, u) == levels[i] + orders_at_indices(
            levels,
            Seq::<int>::empty(),
        ));
        assert(orders_at_indices(levels, Seq::<int>::empty()) == Seq::<OrderView>::empty());
        assert(levels[i] + Seq::<OrderView>::empty() =~= levels[i]);
        assert(orders_at_indices(levels, idxs) + levels[i] =~= levels[i]);
    } else {
        assert(idxs.push(i).skip(1) =~= idxs.skip(1).push(i));
        assert(idxs.push(i)[0] == idxs[0]);
        lemma_orders_at_indices_push(levels, idxs.skip(1), i);
        assert(orders_at_indices(levels, idxs) == levels[idxs[0]] + orders_at_indices(
            levels,
            idxs.skip(1),
        ));
        assert(orders_at_indices(levels, idxs.push(i)) == levels[idxs[0]] + orders_at_indices(
            levels,
            idxs.skip(1).push(i),
        ));
        assert(levels[idxs[0]] + (orders_at_indices(levels, idxs.skip(1)) + levels[i]) =~= (
        levels[idxs[0]] + orders_at_indices(levels, idxs.skip(1))) + levels[i]);
    }
}

/// The submission transition depends only on the levels, the stored quotes
/// and the market band, not on the id counter or the id index.
pub proof fn lemma_submit_specs_same(v1: BookView, v2: BookView, p: u64, s: u64, sd: Side, ty: OrderType)
    requires
        v1.levels == v2.levels,
        v1.best_bid_price == v2.best_bid_price,
        v1.best_ask_price == v2.best_ask_price,
        v1.min_price == v2.min_price,
        v1.max_price == v2.max_price,
    ensures
        is_aggressive(v1, p, sd, ty) == is_aggressive(v2, p, sd, ty),
        sweep_start(v1, sd) == sweep_start(v2, sd),
        sweep_end(v1, p, sd, ty) == sweep_end(v2, p, sd, ty),
        swept_levels(v1, p, s, sd, ty) == swept_levels(v2, p, s, sd, ty),
        swept_leftover(v1, p, s, sd, ty) == swept_leftover(v2, p, s, sd, ty),
        base_levels(v1, p, s, sd, ty) == base_levels(v2, p, s, sd, ty),
        rest_qty(v1, p, s, sd, ty) == rest_qty(v2, p, s, sd, ty),
        rests(v1, p, s, sd, ty) == rests(v2, p, s, sd, ty),
        submit_can_rest(v1, p, s, sd, ty) == submit_can_rest(v2, p, s, sd, ty),
{
}

/// A market order's transition ignores its price field.
pub proof fn lemma_market_price_irrelevant(v: BookView, p1: u64, p2: u64, s: u64, sd: Side)
    ensures
        swept_levels(v, p1, s, sd, OrderType::Market) == swept_levels(
            v,
            p2,
            s,
            sd,
            OrderType::Market,
        ),
        swept_leftover(v, p1, s, sd, OrderType::Market) == swept_leftover(
            v,
            p2,
            s,
            sd,
            OrderType::Market,
        ),
        !rests(v, p1, s, sd, OrderType::Market),
        submit_can_rest(v, p1, s, sd, OrderType::Market),
        levels_after_submit(v, p1, s, sd, OrderType::Market) == swept_levels(
            v,
            p1,
            s,
            sd,
            OrderType::Market,
        ),
{
}

/// What a passive (non-crossing) limit order finds in a well-formed book:
/// its level is empty or already rests on its own side, and the whole
/// opposite side is strictly beyond its price.
pub proof fn lemma_passive_setup(v: BookView, p: u64, s: u64, sd: Side, ty: OrderType)
    requires
        book_wf(v),
        ty == OrderType::Limit,
        1 <= s,
        v.min_price <= p < v.max_price,
        !is_aggressive(v, p, sd, ty),
    ensures
        ({
            let x = p - v.min_price;
            &&& (v.levels[x].len() > 0 ==> v.levels[x][0].side == sd)
            &&& (sd == Side::Buy ==> forall|m: int|
                0 <= m < v.levels.len() && is_side_level(#[trigger] v.levels[m], Side::Sell)
                    ==> m > x)
            &&& (sd == Side::Sell ==> forall|m: int|
                0 <= m < v.levels.len() && is_side_level(#[trigger] v.levels[m], Side::Buy) ==> m
                    < x)
            &&& rests(v, p, s, sd, ty)
            &&& rest_qty(v, p, s, sd, ty) == s
            &&& levels_after_submit(v, p, s, sd, ty) == v.levels.update(
                x,
                v.levels[x].push(rested_order(v, p, s, sd, ty)),
            )
        }),
{
    let x = p - v.min_price;
    lemma_best_ask_shape(v);
    lemma_best_bid_shape(v);
    lemma_lowest_side_from(v.levels, Side::Sell, 0);
    lemma_highest_side_below(v.levels, Side::Buy, v.levels.len() as int);
    if sd == Side::Buy {
        assert(p < v.best_ask_price);
        if v.levels[x].len() > 0 && v.levels[x][0].side != Side::Buy {
            assert(is_side_level(v.levels[x], Side::Sell));
            let l = lowest_side_from(v.levels, Side::Sell, 0);
            assert(l <= x);
        }
        assert forall|m: int|
            0 <= m < v.levels.len() && is_side_level(#[trigger] v.levels[m], Side::Sell) implies m
            > x by {
            let l = lowest_side_from(v.levels, Side::Sell, 0);
            assert(m >= l);
        }
    } else {
        assert(p > v.best_bid_price);
        if v.levels[x].len() > 0 && v.levels[x][0].side != Side::Sell {
            assert(is_side_level(v.levels[x], Side::Buy));
            let h = highest_side_below(v.levels, Side::Buy, v.levels.len() as int);
            assert(h >= x);
        }
        assert forall|m: int|
            0 <= m < v.levels.len() && is_side_level(#[trigger] v.levels[m], Side::Buy) implies m
            < x by {
            let h = highest_side_below(v.levels, Side::Buy, v.levels.len() as int);
            assert(m <= h);
        }
    }
}

/// Resting a passive order moves the best quote of its own side only: the
/// opposite side's derived top is unchanged.
pub proof fn lemma_passive_quotes(
    v: BookView,
    l2: Seq<Seq<OrderView>>,
    p: u64,
    sd: Side,
    o: OrderView,
)
    requires
        book_wf(v),
        v.min_price <= p < v.max_price,
        o.side == sd,
        ({
            let x = p - v.min_price;
            &&& (v.levels[x].len() > 0 ==> v.levels[x][0].side == sd)
            &&& l2 == v.levels.update(x, v.levels[x].push(o))
        }),
    ensures
        sd == Side::Buy ==> derived_best_ask_price(l2, v.min_price, v.max_price)
            == v.best_ask_price && derived_best_ask_size(l2) == v.best_ask_size,
        sd == Side::Sell ==> derived_best_bid_price(l2, v.min_price) == v.best_bid_price
            && derived_best_bid_size(l2) == v.best_bid_size,
{
    let x = p - v.min_price;
    if sd == Side::Buy {
        assert forall|m: int|
            0 <= m < v.levels.len() implies is_side_level(#[trigger] l2[m], Side::Sell)
            == is_side_level(v.levels[m], Side::Sell) by {
            if m == x {
                if v.levels[x].len() > 0 {
                    assert(l2[x][0] == v.levels[x][0]);
                } else {
                    assert(l2[x][0] == o);
                }
            } else {
                assert(l2[m] == v.levels[m]);
            }
        }
        lemma_extrema_same_pattern(v.levels, l2, Side::Sell);
        let l = lowest_side_from(l2, Side::Sell, 0);
        lemma_lowest_side_from(l2, Side::Sell, 0);
        if l < l2.len() {
            assert(l2[l] == v.levels[l]);
        }
    } else {
        assert forall|m: int|
            0 <= m < v.levels.len() implies is_side_level(#[trigger] l2[m], Side::Buy)
            == is_side_level(v.levels[m], Side::Buy) by {
            if m == x {
                if v.levels[x].len() > 0 {
                    assert(l2[x][0] == v.levels[x][0]);
                } else {
                    assert(l2[x][0] == o);
                }
            } else {
                assert(l2[m] == v.levels[m]);
            }
        }
        lemma_extrema_same_pattern(v.levels, l2, Side::Buy);
        let h = highest_side_below(l2, Side::Buy, l2.len() as int);
        lemma_highest_side_below(l2, Side::Buy, l2.len() as int);
        if h >= 0 {
            assert(l2[h] == v.levels[h]);
        }
    }
}

/// Where the unmatched remainder of a crossing limit order comes to rest:
/// after the sweep its own level is empty or already carries its side, and
/// the whole surviving opposite side is strictly beyond its price.
pub proof fn lemma_cross_rest_setup(v: BookView, p: u64, s0: u64, sd: Side)
    requires
        book_wf(v),
        is_aggressive(v, p, sd, OrderType::Limit),
        v.min_price <= p < v.max_price,
        swept_leftover(v, p, s0, sd, OrderType::Limit) > 0,
    ensures
        ({
            let x = p - v.min_price;
            let swept = swept_levels(v, p, s0, sd, OrderType::Limit);
            &&& (swept[x].len() > 0 ==> swept[x][0].side == sd)
            &&& (sd == Side::Buy ==> forall|m: int|
                0 <= m < swept.len() && is_side_level(#[trigger] swept[m], Side::Sell) ==> m > x)
            &&& (sd == Side::Sell ==> forall|m: int|
                0 <= m < swept.len() && is_side_level(#[trigger] swept[m], Side::Buy) ==> m < x)
        }),
{
    let ty = OrderType::Limit;
    let x = p - v.min_price;
    let gs = sweep_start(v, sd);
    let ge = sweep_end(v, p, sd, ty);
    let swept = swept_levels(v, p, s0, sd, ty);
    if sd == Side::Buy {
        lemma_lowest_side_from(v.levels, Side::Sell, 0);
        lemma_best_ask_shape(v);
        assert(gs < v.levels.len()) by {
            if gs == v.levels.len() {
                assert(v.best_ask_price == v.max_price);
            }
        }
        assert(p >= v.best_ask_price);
        assert(gs <= x);
        assert(ge == x + 1);
        lemma_sweep_up_preserves(v.levels, gs, ge, s0, v.min_price, v.last_order_id);
        lemma_sweep_up_exhausts(v.levels, gs, ge, s0);
        lemma_sweep_up_frame(v.levels, gs, ge, s0);
        assert(swept == sweep_up_levels(v.levels, gs, ge, s0));
        assert(swept.len() == v.levels.len());
        assert(swept[x].len() == 0);
        assert forall|m: int|
            0 <= m < swept.len() && is_side_level(#[trigger] swept[m], Side::Sell) implies m
            > x by {
            let r = sweep_up_levels(v.levels, gs, ge, s0);
            assert(r[m].len() > 0);
            assert(v.levels[m].len() > 0 && r[m][0].side == v.levels[m][0].side);
            assert(is_side_level(v.levels[m], Side::Sell));
            assert(m >= gs);
            if m < ge {
                assert(swept[m].len() == 0);
            }
        }
    } else {
        lemma_highest_side_below(v.levels, Side::Buy, v.levels.len() as int);
        lemma_best_bid_shape(v);
        assert(gs < v.levels.len());
        lemma_sweep_down_preserves(v.levels, gs, ge, s0, v.min_price, v.last_order_id);
        assert(ge == x);
        assert(p <= v.best_bid_price);
        if gs == -1 {
            lemma_sweep_down_frame(v.levels, gs, ge, s0);
            assert(swept =~= v.levels);
            if swept[x].len() > 0 {
                assert(!is_side_level(v.levels[x], Side::Buy));
                assert(v.levels[x][0].side == Side::Sell);
            }
            assert forall|m: int|
                0 <= m < swept.len() && is_side_level(#[trigger] swept[m], Side::Buy) implies m
                < x by {
                assert(is_side_level(v.levels[m], Side::Buy));
                assert(false);
            }
        } else {
            assert(v.best_bid_price == v.min_price + gs);
            assert(x <= gs);
            lemma_sweep_down_exhausts(v.levels, gs, ge, s0);
            lemma_sweep_down_frame(v.levels, gs, ge, s0);
            assert(swept == sweep_down_levels(v.levels, gs, ge, s0));
            assert(swept.len() == v.levels.len());
            assert(swept[x].len() == 0);
            assert forall|m: int|
                0 <= m < swept.len() && is_side_level(#[trigger] swept[m], Side::Buy) implies m
                < x by {
                let r = sweep_down_levels(v.levels, gs, ge, s0);
                assert(r[m].len() > 0);
                assert(v.levels[m].len() > 0 && r[m][0].side == v.levels[m][0].side);
                assert(is_side_level(v.levels[m], Side::Buy));
                assert(m <= gs);
                if m >= ge {
                    assert(swept[m].len() == 0);
                }
            }
        }
    }
}

/// Cancelling keeps every level well-formed, the book uncrossed, and ids
/// bounded: the survivors are the original orders in their original order.
pub proof fn lemma_cancel_levels_wf(v: BookView, id: u64)
    requires
        book_wf(v),
        cancel_found(v, id),
    ensures
        ({
            let l2 = levels_after_cancel(v, id);
            let x = v.price_by_id[id].0 - v.min_price;
            &&& 0 <= x < v.levels.len()
            &&& 0 <= index_of_id(v.levels[x], id) < v.levels[x].len()
            &&& l2.len() == v.levels.len()
            &&& levels_wf(l2, v.min_price)
            &&& noncrossing(l2)
            &&& levels_ids_below(l2, v.last_order_id)
            &&& id_map_matches(v.price_by_id.remove(id), l2, v.min_price)
            &&& forall|m: int|
                0 <= m < l2.len() && #[trigger] l2[m].len() > 0 ==> v.levels[m].len() > 0
                    && l2[m][0].side == v.levels[m][0].side
        }),
{
    lemma_map_after_remove(v.price_by_id, v.levels, v.min_price, id);
    let x = v.price_by_id[id].0 - v.min_price;
    let s = v.levels[x];
    let j = index_of_id(s, id);
    let b = s.remove(j);
    let l2 = levels_after_cancel(v, id);
    assert(l2 == v.levels.update(x, b));
    assert(forall|jj: int| 0 <= jj < j ==> #[trigger] b[jj] == s[jj]);
    assert(forall|jj: int| j <= jj < b.len() ==> #[trigger] b[jj] == s[jj + 1]);
    crate::price_level::lemma_sum_remaining_remove(s, j);
    assert(s[j].remaining >= 0);
    crate::price_level::lemma_sum_remaining_nonneg(b);
    assert forall|m: int| 0 <= m < l2.len() implies {
        let s2 = #[trigger] l2[m];
        &&& level_orders_wf(s2, (v.min_price + m) as u64)
        &&& s2.len() <= MAX_ORDERS_PER_LEVEL
        &&& sum_remaining(s2) <= u64::MAX
        &&& level_side_uniform(s2)
        &&& ids_unique_level(s2)
        &&& ids_below(s2, v.last_order_id)
        &&& (s2.len() > 0 ==> v.levels[m].len() > 0 && s2[0].side == v.levels[m][0].side)
    } by {
        if m == x {
            assert(level_orders_wf(b, (v.min_price + m) as u64)) by {
                assert forall|jj: int|
                    0 <= jj < b.len() implies crate::price_level::order_wf(
                    #[trigger] b[jj],
                    (v.min_price + m) as u64,
                ) by {
                    if jj < j {
                        assert(b[jj] == s[jj]);
                    } else {
                        assert(b[jj] == s[jj + 1]);
                    }
                }
            }
            assert(level_side_uniform(b)) by {
                assert forall|jj: int| 0 <= jj < b.len() implies (#[trigger] b[jj]).side
                    == b[0].side by {
                    assert(b[jj].side == s[0].side) by {
                        if jj < j {
                            assert(b[jj] == s[jj]);
                        } else {
                            assert(b[jj] == s[jj + 1]);
                        }
                    }
                    assert(b[0].side == s[0].side) by {
                        if 0 < j {
                            assert(b[0] == s[0]);
                        } else {
                            assert(b[0] == s[1]);
                        }
                    }
                }
            }
            assert(ids_unique_level(b)) by {
                assert forall|j1: int, j2: int|
                    0 <= j1 < j2 < b.len() implies (#[trigger] b[j1]).id != (
                #[trigger] b[j2]).id by {
                    let src1: int = if j1 < j {
                        j1
                    } else {
                        j1 + 1
                    };
                    let src2: int = if j2 < j {
                        j2
                    } else {
                        j2 + 1
                    };
                    assert(b[j1] == s[src1]);
                    assert(b[j2] == s[src2]);
                    assert(src1 < src2);
                }
            }
            assert(ids_below(b, v.last_order_id)) by {
                assert forall|jj: int| 0 <= jj < b.len() implies (#[trigger] b[jj]).id
                    <= v.last_order_id by {
                    if jj < j {
                        assert(b[jj] == s[jj]);
                    } else {
                        assert(b[jj] == s[jj + 1]);
                    }
                }
            }
            if b.len() > 0 {
                assert(b[0].side == s[0].side) by {
                    if 0 < j {
                        assert(b[0] == s[0]);
                    } else {
                        assert(b[0] == s[1]);
                    }
                }
            }
        } else {
            assert(l2[m] == v.levels[m]);
        }
    }
    lemma_side_shrink_noncrossing(v.levels, l2);
}

/// Cancelling moves at most the best quote of the cancelled order's own
/// side, and only when the order stood at that best price.
#[verifier::rlimit(100)]
pub proof fn lemma_cancel_quotes(v: BookView, id: u64)
    requires
        book_wf(v),
        cancel_found(v, id),
    ensures
        ({
            let l2 = levels_after_cancel(v, id);
            let pr = v.price_by_id[id].0;
            let sd = v.price_by_id[id].1;
            &&& (sd == Side::Buy ==> derived_best_ask_price(l2, v.min_price, v.max_price)
                == v.best_ask_price && derived_best_ask_size(l2) == v.best_ask_size)
            &&& (sd == Side::Sell ==> derived_best_bid_price(l2, v.min_price) == v.best_bid_price
                && derived_best_bid_size(l2) == v.best_bid_size)
            &&& (sd == Side::Buy && pr != v.best_bid_price ==> derived_best_bid_price(
                l2,
                v.min_price,
            ) == v.best_bid_price && derived_best_bid_size(l2) == v.best_bid_size)
            &&& (sd == Side::Sell && pr != v.best_ask_price ==> derived_best_ask_price(
                l2,
                v.min_price,
                v.max_price,
            ) == v.best_ask_price && derived_best_ask_size(l2) == v.best_ask_size)
        }),
{
    lemma_cancel_levels_wf(v, id);
    let l2 = levels_after_cancel(v, id);
    let pr = v.price_by_id[id].0;
    let sd = v.price_by_id[id].1;
    let x = pr - v.min_price;
    let s = v.levels[x];
    let j = index_of_id(s, id);
    assert(s[j].side == sd);
    assert(s[0].side == sd);
    assert(is_side_level(s, sd));
    assert(forall|m: int| 0 <= m < l2.len() && m != x ==> #[trigger] l2[m] == v.levels[m]);
    if sd == Side::Buy {
        assert forall|m: int|
            0 <= m < v.levels.len() implies is_side_level(#[trigger] l2[m], Side::Sell)
            == is_side_level(v.levels[m], Side::Sell) by {
            if m == x {
                if l2[x].len() > 0 {
                    assert(l2[x][0].side == Side::Buy);
                }
            }
        }
        lemma_extrema_same_pattern(v.levels, l2, Side::Sell);
        let l = lowest_side_from(l2, Side::Sell, 0);
        lemma_lowest_side_from(l2, Side::Sell, 0);
        if l < l2.len() {
            assert(is_side_level(l2[l], Side::Sell));
            assert(l != x);
            assert(l2[l] == v.levels[l]);
        }
        if pr != v.best_bid_price {
            lemma_best_bid_shape(v);
            let h = highest_side_below(v.levels, Side::Buy, v.levels.len() as int);
            lemma_highest_side_below(v.levels, Side::Buy, v.levels.len() as int);
            assert(h >= 0) by {
                if h == -1 {
                    assert(!is_side_level(v.levels[x], Side::Buy));
                }
            }
            assert(x <= h);
            assert(x != h);
            lemma_highest_unique(l2, Side::Buy, l2.len() as int, h);
            assert(l2[h] == v.levels[h]);
        }
    } else {
        assert forall|m: int|
            0 <= m < v.levels.len() implies is_side_level(#[trigger] l2[m], Side::Buy)
            == is_side_level(v.levels[m], Side::Buy) by {
            if m == x {
                if l2[x].len() > 0 {
                    assert(l2[x][0].side == Side::Sell);
                }
            }
        }
        lemma_extrema_same_pattern(v.levels, l2, Side::Buy);
        let h = highest_side_below(l2, Side::Buy, l2.len() as int);
        lemma_highest_side_below(l2, Side::Buy, l2.len() as int);
        if h >= 0 {
            assert(is_side_level(l2[h], Side::Buy));
            assert(h != x);
            assert(l2[h] == v.levels[h]);
        }
        if pr != v.best_ask_price {
            lemma_best_ask_shape(v);
            let l = lowest_side_from(v.levels, Side::Sell, 0);
            lemma_lowest_side_from(v.levels, Side::Sell, 0);
            assert(l < v.levels.len()) by {
                if l == v.levels.len() {
                    assert(!is_side_level(v.levels[x], Side::Sell));
                }
            }
            assert(l <= x);
            assert(x != l);
            lemma_lowest_unique(l2, Side::Sell, 0, l);
            assert(l2[l] == v.levels[l]);
        }
    }
}

/// The ascending side indices are exactly the occupied levels of that side,
/// in strictly ascending order.
pub proof fn lemma_asc_side_indices(levels: Seq<Seq<OrderView>>, side: Side, i: int)
    requires
        0 <= i <= levels.len(),
    ensures
        ({
            let idxs = asc_side_indices(levels, side, i);
            &&& forall|k: int|
                0 <= k < idxs.len() ==> i <= #[trigger] idxs[k] < levels.len() && is_side_level(
                    levels[idxs[k]],
                    side,
                )
            &&& forall|k1: int, k2: int|
                0 <= k1 < k2 < idxs.len() ==> #[trigger] idxs[k1] < #[trigger] idxs[k2]
        }),
    decreases levels.len() - i,
{
    if i < levels.len() {
        lemma_asc_side_indices(levels, side, i + 1);
        let rest = asc_side_indices(levels, side, i + 1);
        if is_side_level(levels[i], side) {
            let idxs = asc_side_indices(levels, side, i);
            assert(idxs == seq![i] + rest);
            assert(forall|k: int| 0 <= k < rest.len() ==> #[trigger] idxs[k + 1] == rest[k]);
            assert(idxs[0] == i);
        }
    }
}

/// The descending side indices are exactly the occupied levels of that side,
/// in strictly descending order.
pub proof fn lemma_desc_side_indices(levels: Seq<Seq<OrderView>>, side: Side, i: int)
    requires
        0 <= i <= levels.len(),
    ensures
        ({
            let idxs = desc_side_indices(levels, side, i);
            &&& forall|k: int|
                0 <= k < idxs.len() ==> 0 <= #[trigger] idxs[k] < i && is_side_level(
                    levels[idxs[k]],
                    side,
                )
            &&& forall|k1: int, k2: int|
                0 <= k1 < k2 < idxs.len() ==> #[trigger] idxs[k1] > #[trigger] idxs[k2]
        }),
    decreases i,
{
    if i > 0 {
        lemma_desc_side_indices(levels, side, i - 1);
        let rest = desc_side_indices(levels, side, i - 1);
        if is_side_level(levels[i - 1], side) {
            let idxs = desc_side_indices(levels, side, i);
            assert(idxs == seq![i - 1] + rest);
            assert(forall|k: int| 0 <= k < rest.len() ==> #[trigger] idxs[k + 1] == rest[k]);
            assert(idxs[0] == i - 1);
        }
    }
}

/// Every order in a flattened snapshot over well-formed levels has an
/// unfilled part between 1 and its size.
pub proof fn lemma_orders_at_indices_wf(
    levels: Seq<Seq<OrderView>>,
    idxs: Seq<int>,
    min_price: u64,
)
    requires
        levels_wf(levels, min_price),
        forall|k: int| 0 <= k < idxs.len() ==> 0 <= #[trigger] idxs[k] < levels.len(),
    ensures
        ({
            let os = orders_at_indices(levels, idxs);
            forall|k: int|
                0 <= k < os.len() ==> 0 < (#[trigger] os[k]).remaining && os[k].remaining <= os[
                    k
                ].size
        }),
    decreases idxs.len(),
{
    if idxs.len() > 0 {
        assert(forall|k: int| 0 <= k < idxs.skip(1).len() ==> idxs.skip(1)[k] == idxs[k + 1]);
        lemma_orders_at_indices_wf(levels, idxs.skip(1), min_price);
        let head = levels[idxs[0]];
        let rest = orders_at_indices(levels, idxs.skip(1));
        let os = orders_at_indices(levels, idxs);
        assert(os == head + rest);
        assert forall|k: int|
            0 <= k < os.len() implies 0 < (#[trigger] os[k]).remaining && os[k].remaining <= os[
            k
        ].size by {
            if k < head.len() {
                assert(os[k] == head[k]);
                assert(crate::price_level::order_wf(head[k], (min_price + idxs[0]) as u64));
            } else {
                assert(os[k] == rest[k - head.len()]);
            }
        }
    }
}

/// If a downward sweep ends with part of the aggressor unfilled, every level
/// it visited was fully consumed.
pub proof fn lemma_sweep_down_exhausts(levels: Seq<Seq<OrderView>>, i: int, end: int, qty: u64)
    requires
        0 <= end,
        i < levels.len(),
        sweep_down_leftover(levels, i, end, qty) > 0,
    ensures
        forall|m: int|
            end <= m <= i && 0 <= m ==> #[trigger] sweep_down_levels(levels, i, end, qty)[m].len()
                == 0,
    decreases i - end + 1,
{
    if i < end || end < 0 || i >= levels.len() || qty == 0 {
    } else {
        let l2 = levels.update(i, active_after(levels[i], qty));
        let q2 = leftover_after(levels[i], qty);
        assert(sweep_down_levels(levels, i, end, qty) == sweep_down_levels(l2, i - 1, end, q2));
        assert(sweep_down_leftover(levels, i, end, qty) == sweep_down_leftover(l2, i - 1, end, q2));
        assert(q2 > 0) by {
            if q2 == 0 {
                lemma_sweep_down_frame(l2, i - 1, end, q2);
            }
        }
        lemma_sweep_down_exhausts(l2, i - 1, end, q2);
        lemma_sweep_down_frame(l2, i - 1, end, q2);
        lemma_match_shape(levels[i], qty);
        assert(sweep_down_levels(levels, i, end, qty)[i] == l2[i]);
        assert(active_after(levels[i], qty).len() == 0);
        assert forall|m: int|
            end <= m <= i && 0 <= m implies #[trigger] sweep_down_levels(
            levels,
            i,
            end,
            qty,
        )[m].len() == 0 by {
            if m < i {
                assert(sweep_down_levels(l2, i - 1, end, q2)[m].len() == 0);
            }
        }
    }
}

} // verus!
