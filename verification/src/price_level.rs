use vstd::prelude::*;

use crate::order::Order;
use crate::order::OrderStatus;
use crate::order::OrderType;
use crate::order::OrderView;
use crate::order::Side;

verus! {

/// Hard capacity of one price level: a level never holds more concurrent
/// orders than this, by design.
pub const MAX_ORDERS_PER_LEVEL: usize = 200;

/// Well-formedness of one resting order at a level priced `price`: the order
/// carries the level's price (so it is not the price-0 empty sentinel), it
/// has an assigned id, and an unfilled part between 1 and its size.
pub open spec fn order_wf(o: OrderView, price: u64) -> bool {
    &&& o.price == price
    &&& 1 <= o.remaining <= o.size
    &&& o.id >= 1
}

/// All orders of the sequence are well-formed resting orders at `price`.
pub open spec fn level_orders_wf(s: Seq<OrderView>, price: u64) -> bool {
    forall|i: int| 0 <= i < s.len() ==> order_wf(#[trigger] s[i], price)
}

/// Total unfilled volume of a sequence of orders.
pub open spec fn sum_remaining(s: Seq<OrderView>) -> int
    decreases s.len(),
{
    if s.len() == 0 {
        0
    } else {
        sum_remaining(s.drop_last()) + s.last().remaining
    }
}

/// The ids of a sequence of orders, in order.
pub open spec fn ids_of(s: Seq<OrderView>) -> Seq<u64> {
    s.map_values(|o: OrderView| o.id)
}

/// How many orders at the front of the queue an aggressor of size `qty`
/// consumes completely, matching in first-in-first-out order.
pub open spec fn consumed_count(s: Seq<OrderView>, qty: u64) -> int
    decreases s.len(),
{
    if s.len() == 0 || qty == 0 {
        0
    } else if s[0].remaining <= qty {
        1 + consumed_count(s.skip(1), (qty - s[0].remaining) as u64)
    } else {
        0
    }
}

/// The part of the aggressor size left unfilled after matching against the
/// whole queue in first-in-first-out order.
pub open spec fn leftover_after(s: Seq<OrderView>, qty: u64) -> u64
    decreases s.len(),
{
    if s.len() == 0 || qty == 0 {
        qty
    } else if s[0].remaining <= qty {
        leftover_after(s.skip(1), (qty - s[0].remaining) as u64)
    } else {
        0
    }
}

/// The queue after an aggressor of size `qty` has matched against it: the
/// fully consumed front is dropped, and the first survivor, if the aggressor
/// ended inside it, keeps the rest of its unfilled part.
pub open spec fn active_after(s: Seq<OrderView>, qty: u64) -> Seq<OrderView>
    decreases s.len(),
{
    if s.len() == 0 || qty == 0 {
        s
    } else if s[0].remaining <= qty {
        active_after(s.skip(1), (qty - s[0].remaining) as u64)
    } else {
        s.update(0, OrderView { remaining: (s[0].remaining - qty) as u64, ..s[0] })
    }
}

/// The index of the first order with the given id, or -1 if there is none.
pub open spec fn index_of_id(s: Seq<OrderView>, id: u64) -> int
    decreases s.len(),
{
    if s.len() == 0 {
        -1
    } else if s[0].id == id {
        0
    } else if index_of_id(s.skip(1), id) == -1 {
        -1
    } else {
        index_of_id(s.skip(1), id) + 1
    }
}

/// Whether the sequence holds an order with the given id.
pub open spec fn has_order_id(s: Seq<OrderView>, id: u64) -> bool {
    exists|i: int| 0 <= i < s.len() && s[i].id == id
}

pub proof fn lemma_sum_remaining_nonneg(s: Seq<OrderView>)
    ensures
        sum_remaining(s) >= 0,
    decreases s.len(),
{
    if s.len() > 0 {
        lemma_sum_remaining_nonneg(s.drop_last());
    }
}

/// Appending one order adds its unfilled part to the total.
pub proof fn lemma_sum_remaining_push(s: Seq<OrderView>, o: OrderView)
    ensures
        sum_remaining(s.push(o)) == sum_remaining(s) + o.remaining,
{
    assert(s.push(o).drop_last() =~= s);
}

/// The total of a prefix one longer grows by the element at its end.
pub proof fn lemma_sum_remaining_take_step(s: Seq<OrderView>, i: int)
    requires
        0 <= i < s.len(),
    ensures
        sum_remaining(s.take(i + 1)) == sum_remaining(s.take(i)) + s[i].remaining,
{
    assert(s.take(i + 1).drop_last() =~= s.take(i));
}

/// A prefix never sums to more than the whole sequence.
pub proof fn lemma_sum_remaining_take_le(s: Seq<OrderView>, i: int)
    requires
        0 <= i <= s.len(),
    ensures
        sum_remaining(s.take(i)) <= sum_remaining(s),
    decreases s.len() - i,
{
    if i == s.len() {
        assert(s.take(i) =~= s);
    } else {
        lemma_sum_remaining_take_step(s, i);
        lemma_sum_remaining_take_le(s, i + 1);
        let oi = s[i];
        assert(oi.remaining >= 0);
    }
}

/// Unfolding the total at the front of the queue.
pub proof fn lemma_sum_remaining_skip1(s: Seq<OrderView>)
    requires
        s.len() > 0,
    ensures
        sum_remaining(s) == s[0].remaining + sum_remaining(s.skip(1)),
    decreases s.len(),
{
    if s.len() == 1 {
        assert(s.skip(1) =~= Seq::<OrderView>::empty());
        assert(s.drop_last() =~= Seq::<OrderView>::empty());
    } else {
        lemma_sum_remaining_skip1(s.drop_last());
        assert(s.skip(1).drop_last() =~= s.drop_last().skip(1));
        assert(s.drop_last()[0] == s[0]);
        assert(s.skip(1).last() == s.last());
    }
}

/// Basic shape facts about matching at one level: the count of fully
/// consumed orders is a front segment, survivors keep their order, and the
/// leftover never exceeds the aggressor size.
pub proof fn lemma_match_shape(s: Seq<OrderView>, qty: u64)
    ensures
        0 <= consumed_count(s, qty) <= s.len(),
        active_after(s, qty).len() == s.len() - consumed_count(s, qty),
        leftover_after(s, qty) <= qty,
        forall|j: int|
            0 < j < active_after(s, qty).len() ==> active_after(s, qty)[j] == s[
                j + consumed_count(s, qty)
            ],
        active_after(s, qty).len() > 0 ==> {
            let k = consumed_count(s, qty);
            let h = active_after(s, qty)[0];
            h.id == s[k].id && h.price == s[k].price && h.size == s[k].size && h.side == s[k].side
                && h.status == s[k].status && h.typ == s[k].typ && 0 <= h.remaining <= s[
                k
            ].remaining
        },
        leftover_after(s, qty) > 0 ==> consumed_count(s, qty) == s.len(),
        qty == 0 ==> active_after(s, qty) == s && leftover_after(s, qty) == 0 && consumed_count(
            s,
            qty,
        ) == 0,
    decreases s.len(),
{
    if s.len() == 0 || qty == 0 {
    } else if s[0].remaining <= qty {
        lemma_match_shape(s.skip(1), (qty - s[0].remaining) as u64);
        assert(forall|j: int| 0 <= j < s.skip(1).len() ==> s.skip(1)[j] == s[j + 1]);
    } else {
    }
}

/// Matching only ever shrinks the total unfilled volume at a level.
pub proof fn lemma_match_sum_le(s: Seq<OrderView>, qty: u64)
    ensures
        sum_remaining(active_after(s, qty)) <= sum_remaining(s),
    decreases s.len(),
{
    if s.len() == 0 || qty == 0 {
    } else if s[0].remaining <= qty {
        lemma_match_sum_le(s.skip(1), (qty - s[0].remaining) as u64);
        lemma_sum_remaining_skip1(s);
    } else {
        let s2 = active_after(s, qty);
        lemma_sum_remaining_skip1(s);
        lemma_sum_remaining_skip1(s2);
        assert(s2.skip(1) =~= s.skip(1));
    }
}

/// Matching preserves well-formedness of the surviving orders.
pub proof fn lemma_match_wf(s: Seq<OrderView>, qty: u64, price: u64)
    requires
        level_orders_wf(s, price),
    ensures
        level_orders_wf(active_after(s, qty), price),
    decreases s.len(),
{
    if s.len() == 0 || qty == 0 {
    } else if s[0].remaining <= qty {
        assert(forall|j: int| 0 <= j < s.skip(1).len() ==> s.skip(1)[j] == s[j + 1]);
        lemma_match_wf(s.skip(1), (qty - s[0].remaining) as u64, price);
    } else {
    }
}

/// An occupied well-formed level holds at least one unit of volume.
pub proof fn lemma_sum_remaining_pos(s: Seq<OrderView>, price: u64)
    requires
        level_orders_wf(s, price),
        s.len() > 0,
    ensures
        sum_remaining(s) >= 1,
{
    lemma_sum_remaining_nonneg(s.drop_last());
    assert(s.last().remaining >= 1);
}

/// Totals add up across concatenation.
pub proof fn lemma_sum_remaining_concat(a: Seq<OrderView>, b: Seq<OrderView>)
    ensures
        sum_remaining(a + b) == sum_remaining(a) + sum_remaining(b),
    decreases b.len(),
{
    if b.len() == 0 {
        assert(a + b =~= a);
    } else {
        lemma_sum_remaining_concat(a, b.drop_last());
        assert((a + b).drop_last() =~= a + b.drop_last());
        assert((a + b).last() == b.last());
    }
}

/// Removing one order takes exactly its unfilled part out of the total.
pub proof fn lemma_sum_remaining_remove(s: Seq<OrderView>, i: int)
    requires
        0 <= i < s.len(),
    ensures
        sum_remaining(s.remove(i)) == sum_remaining(s) - s[i].remaining,
{
    assert(s =~= s.take(i) + seq![s[i]] + s.skip(i + 1));
    assert(s.remove(i) =~= s.take(i) + s.skip(i + 1));
    lemma_sum_remaining_concat(s.take(i) + seq![s[i]], s.skip(i + 1));
    lemma_sum_remaining_concat(s.take(i), seq![s[i]]);
    lemma_sum_remaining_concat(s.take(i), s.skip(i + 1));
    assert(sum_remaining(seq![s[i]]) == s[i].remaining) by {
        let u = seq![s[i]];
        assert(u.len() == 1);
        assert(u.last() == s[i]);
        assert(u.drop_last() =~= Seq::<OrderView>::empty());
        assert(sum_remaining(u.drop_last()) == 0);
    }
}

/// Where the first order with a given id stands, if anywhere.
pub proof fn lemma_index_of_id(s: Seq<OrderView>, id: u64)
    ensures
        has_order_id(s, id) <==> 0 <= index_of_id(s, id) < s.len(),
        has_order_id(s, id) ==> s[index_of_id(s, id)].id == id,
        has_order_id(s, id) ==> forall|j: int| 0 <= j < index_of_id(s, id) ==> s[j].id != id,
        !has_order_id(s, id) ==> index_of_id(s, id) == -1,
    decreases s.len(),
{
    if s.len() == 0 {
    } else if s[0].id == id {
    } else {
        lemma_index_of_id(s.skip(1), id);
        assert(forall|j: int| 0 <= j < s.skip(1).len() ==> s.skip(1)[j] == s[j + 1]);
        if has_order_id(s.skip(1), id) {
            assert(has_order_id(s, id));
        }
        if has_order_id(s, id) {
            let w = choose|i: int| 0 <= i < s.len() && s[i].id == id;
            assert(s.skip(1)[w - 1] == s[w]);
            assert(has_order_id(s.skip(1), id));
            assert forall|j: int| 0 <= j < index_of_id(s, id) implies s[j].id != id by {
                if j >= 1 {
                    assert(s.skip(1)[j - 1] == s[j]);
                }
            }
        }
    }
}

/// A fixed-capacity first-in-first-out queue of orders at one price. The
/// first `order_cursor` slots are the live orders in arrival order; the
/// remaining slots are zeroed sentinels.
#[derive(Debug)]
pub struct PriceLevel {
    orders: Vec<Order>,
    order_cursor: usize,
    price: u64,
}

impl PriceLevel {
    /// The live orders of the level, oldest first.
    pub closed spec fn active(&self) -> Seq<OrderView> {
        self.orders@.take(self.order_cursor as int).map_values(|o: Order| o@)
    }

    /// The price this level represents.
    pub closed spec fn spec_price(&self) -> u64 {
        self.price
    }

    /// Internal invariant: full backing capacity, live orders well-formed at
    /// this price, zeroed sentinels behind them, and a total unfilled volume
    /// that fits in a machine word.
    pub closed spec fn wf(&self) -> bool {
        &&& self.price >= 1
        &&& self.orders@.len() == MAX_ORDERS_PER_LEVEL
        &&& self.order_cursor <= MAX_ORDERS_PER_LEVEL
        &&& level_orders_wf(self.active(), self.price)
        &&& forall|i: int|
            self.order_cursor <= i < self.orders@.len() ==> (#[trigger] self.orders@[i])@.price
                == 0
        &&& sum_remaining(self.active()) <= u64::MAX
    }

    /// What a reader of the level may rely on from its invariant.
    pub proof fn lemma_wf_properties(&self)
        requires
            self.wf(),
        ensures
            level_orders_wf(self.active(), self.spec_price()),
            sum_remaining(self.active()) <= u64::MAX,
            self.spec_price() >= 1,
            self.active().len() <= MAX_ORDERS_PER_LEVEL,
    {
    }

    /// Creates a level with the given price and all slots pre-allocated and
    /// zeroed, so that later additions never allocate.
    pub fn new(price: u64) -> (r: Self)
        requires
            price >= 1,
        ensures
            r.wf(),
            r.spec_price() == price,
            r.active() == Seq::<OrderView>::empty(),
    {
        let mut orders: Vec<Order> = Vec::new();
        let mut i: usize = 0;
        while i < MAX_ORDERS_PER_LEVEL
            invariant
                orders@.len() == i,
                i <= MAX_ORDERS_PER_LEVEL,
                forall|j: int| 0 <= j < i ==> (#[trigger] orders@[j])@.price == 0,
            decreases MAX_ORDERS_PER_LEVEL - i,
        {
            orders.push(Order::new(0, 0, Side::Buy, OrderStatus::Open, OrderType::Limit));
            i = i + 1;
        }
        let r = Self { price, order_cursor: 0, orders };
        proof {
            assert(r.active() =~= Seq::<OrderView>::empty());
        }
        r
    }

    /// Returns copies of the live orders, oldest first.
    pub fn get_orders(&self) -> (r: Vec<Order>)
        requires
            self.wf(),
        ensures
            r@.map_values(|o: Order| o@) == self.active(),
    {
        let mut r: Vec<Order> = Vec::new();
        let mut i: usize = 0;
        while i < self.order_cursor
            invariant
                self.wf(),
                i <= self.order_cursor,
                r@.len() == i,
                forall|j: int| 0 <= j < i ==> (#[trigger] r@[j])@ == self.active()[j],
            decreases self.order_cursor - i,
        {
            let o = self.orders[i];
            r.push(o);
            i = i + 1;
        }
        proof {
            assert(r@.map_values(|o: Order| o@) =~= self.active());
        }
        r
    }

    /// Returns the total unfilled volume resting at this level.
    pub fn get_size(&self) -> (r: u64)
        requires
            self.wf(),
        ensures
            r as int == sum_remaining(self.active()),
    {
        let mut total: u64 = 0;
        let mut i: usize = 0;
        proof {
            assert(self.active().take(0) =~= Seq::<OrderView>::empty());
        }
        while i < self.order_cursor
            invariant
                self.wf(),
                i <= self.order_cursor,
                total as int == sum_remaining(self.active().take(i as int)),
            decreases self.order_cursor - i,
        {
            proof {
                lemma_sum_remaining_take_step(self.active(), i as int);
                lemma_sum_remaining_take_le(self.active(), i + 1);
                lemma_sum_remaining_nonneg(self.active().take(i as int));
            }
            total = total + self.orders[i].get_remaining();
            i = i + 1;
        }
        proof {
            assert(self.active().take(self.order_cursor as int) =~= self.active());
        }
        total
    }

    /// Returns the number of live orders at this level.
    pub fn order_count(&self) -> (r: usize)
        requires
            self.wf(),
        ensures
            r as int == self.active().len(),
    {
        self.order_cursor
    }

    /// Returns the side of the oldest live order, if the level is occupied.
    /// Levels are side-homogeneous, so this is the side of the whole level.
    pub(crate) fn front_side(&self) -> (r: Option<Side>)
        requires
            self.wf(),
        ensures
            r == if self.active().len() > 0 {
                Some(self.active()[0].side)
            } else {
                None::<Side>
            },
    {
        if self.order_cursor > 0 {
            Some(self.orders[0].get_side())
        } else {
            None
        }
    }

    /// Returns the price of this price level.
    pub fn get_price(&self) -> (r: u64)
        ensures
            r == self.spec_price(),
    {
        self.price
    }

    /// Appends a new open order at the back of the queue, preserving time
    /// priority. The caller guarantees the price matches the level, a free
    /// slot exists, and the level's total volume stays within a machine word.
    pub fn add_order(&mut self, price: u64, size: u64, side: Side, order_type: OrderType, id: u64)
        requires
            old(self).wf(),
            price == old(self).spec_price(),
            1 <= size,
            id >= 1,
            old(self).active().len() < MAX_ORDERS_PER_LEVEL,
            sum_remaining(old(self).active()) + size <= u64::MAX,
        ensures
            final(self).wf(),
            final(self).spec_price() == old(self).spec_price(),
            final(self).active() == old(self).active().push(
                OrderView {
                    id,
                    price,
                    size,
                    remaining: size,
                    side,
                    status: OrderStatus::Open,
                    typ: order_type,
                },
            ),
    {
        let c = self.order_cursor;
        let slot = &mut self.orders[c];
        slot.set_price(price);
        slot.set_remaining(size);
        slot.set_side(side);
        slot.set_size(size);
        slot.set_status(OrderStatus::Open);
        slot.set_type(order_type);
        slot.set_id(id);
        self.order_cursor = c + 1;
        proof {
            let o = OrderView {
                id,
                price,
                size,
                remaining: size,
                side,
                status: OrderStatus::Open,
                typ: order_type,
            };
            assert(self.active() =~= old(self).active().push(o));
            lemma_sum_remaining_push(old(self).active(), o);
        }
    }

    /// Removes the order with the given id, keeping the arrival order of the
    /// survivors and zeroing the vacated slot. Removing an unknown id is a
    /// silent no-op; callers that must report the failure guard the call with
    /// the book's id index.
    pub fn remove_order(&mut self, id: u64)
        requires
            old(self).wf(),
        ensures
            final(self).wf(),
            final(self).spec_price() == old(self).spec_price(),
            has_order_id(old(self).active(), id) ==> final(self).active() == old(
                self,
            ).active().remove(index_of_id(old(self).active(), id)),
            !has_order_id(old(self).active(), id) ==> *final(self) == *old(self),
    {
        let ghost a = old(self).active();
        proof {
            lemma_index_of_id(a, id);
        }
        let mut i: usize = 0;
        while i < self.order_cursor && self.orders[i].get_id() != id
            invariant
                *self == *old(self),
                old(self).wf(),
                a == self.active(),
                a.len() == self.order_cursor as int,
                i <= self.order_cursor,
                forall|j: int| 0 <= j < i ==> a[j].id != id,
            decreases self.order_cursor - i,
        {
            proof {
                assert(a[i as int] == self.orders@[i as int]@);
            }
            i = i + 1;
        }
        if i < self.order_cursor {
            assert(a[i as int].id == id);
            assert(has_order_id(a, id));
            assert(index_of_id(a, id) == i as int);
            let c = self.order_cursor;
            let mut t = i + 1;
            while t < c
                invariant
                    old(self).wf(),
                    self.order_cursor == c,
                    self.price == old(self).price,
                    c == old(self).order_cursor,
                    i < t <= c,
                    c <= self.orders@.len(),
                    self.orders@.len() == old(self).orders@.len(),
                    forall|m: int|
                        i <= m < t - 1 ==> (#[trigger] self.orders@[m]) == old(self).orders@[m
                            + 1],
                    forall|m: int|
                        0 <= m < self.orders@.len() && !(i <= m < t - 1) ==> (
                        #[trigger] self.orders@[m]) == old(self).orders@[m],
                decreases c - t,
            {
                let tmp = self.orders[t];
                self.orders[t - 1] = tmp;
                t = t + 1;
            }
            self.orders[c - 1] = Order::new(0, 0, Side::Buy, OrderStatus::Open, OrderType::Limit);
            self.order_cursor = c - 1;
            proof {
                assert(self.active() =~= a.remove(i as int));
                assert(level_orders_wf(self.active(), self.price)) by {
                    assert(forall|j: int|
                        0 <= j < self.active().len() ==> #[trigger] self.active()[j] == if j < i {
                            a[j]
                        } else {
                            a[j + 1]
                        });
                }
                lemma_sum_remaining_remove(a, i as int);
                lemma_sum_remaining_nonneg(a.remove(i as int));
                assert(a[i as int].remaining >= 0);
            }
        } else {
            proof {
                if has_order_id(a, id) {
                    let w = index_of_id(a, id);
                    assert(a[w].id != id);
                }
            }
        }
    }

    /// Matches an incoming aggressor of size `qty` against this level in
    /// first-in-first-out order. Fully consumed orders are removed (their ids
    /// are returned so the caller can prune its id index), a partially
    /// consumed survivor keeps the rest of its unfilled part, and the part of
    /// `qty` the level could not fill is returned.
    /// Walks the queue from the front, counting the orders an aggressor of
    /// size `qty` consumes completely and collecting their ids. Returns the
    /// count, the aggressor quantity still unfilled at that point, and the
    /// ids of the consumed front.
    fn match_scan(&self, qty: u64) -> (r: (usize, u64, Vec<u64>))
        requires
            self.wf(),
        ensures
            r.0 as int == consumed_count(self.active(), qty),
            r.1 <= qty,
            r.2@ == ids_of(self.active().take(r.0 as int)),
            leftover_after(self.active(), qty) == leftover_after(
                self.active().skip(r.0 as int),
                r.1,
            ),
            active_after(self.active(), qty) == active_after(self.active().skip(r.0 as int), r.1),
            (r.0 as int) < self.active().len() && r.1 > 0 ==> self.active()[r.0 as int].remaining
                > r.1,
            (r.0 as int) == self.active().len() ==> leftover_after(self.active(), qty) == r.1,
            r.1 == 0 ==> leftover_after(self.active(), qty) == 0,
    {
        let ghost a = self.active();
        let mut q: u64 = qty;
        let mut j: usize = 0;
        let mut removed: Vec<u64> = Vec::new();
        proof {
            assert(a.skip(0) =~= a);
            assert(ids_of(a.take(0)) =~= Seq::<u64>::empty());
        }
        while j < self.order_cursor && q > 0 && self.orders[j].get_remaining() <= q
            invariant
                self.wf(),
                a == self.active(),
                j <= self.order_cursor,
                self.order_cursor as int == a.len(),
                q <= qty,
                consumed_count(a, qty) == j + consumed_count(a.skip(j as int), q),
                leftover_after(a, qty) == leftover_after(a.skip(j as int), q),
                active_after(a, qty) == active_after(a.skip(j as int), q),
                removed@ == ids_of(a.take(j as int)),
            decreases self.order_cursor - j,
        {
            let r0 = self.orders[j].get_remaining();
            removed.push(self.orders[j].get_id());
            proof {
                assert(a.skip(j as int)[0] == a[j as int]);
                assert(a.skip(j as int).skip(1) =~= a.skip(j as int + 1));
                assert(ids_of(a.take(j as int + 1)) =~= ids_of(a.take(j as int)).push(
                    a[j as int].id,
                ));
            }
            q = q - r0;
            j = j + 1;
        }
        proof {
            if j < self.order_cursor && q > 0 {
                assert(a.skip(j as int)[0] == a[j as int]);
            } else if q > 0 {
                assert(a.skip(j as int) =~= Seq::<OrderView>::empty());
            }
            assert(consumed_count(a.skip(j as int), q) == 0);
        }
        (j, q, removed)
    }

    pub(crate) fn consume(&mut self, qty: u64) -> (r: (u64, Vec<u64>))
        requires
            old(self).wf(),
        ensures
            final(self).wf(),
            final(self).spec_price() == old(self).spec_price(),
            final(self).active() == active_after(old(self).active(), qty),
            r.0 == leftover_after(old(self).active(), qty),
            r.1@ == ids_of(old(self).active().take(consumed_count(old(self).active(), qty))),
    {
        let ghost a = old(self).active();
        proof {
            lemma_match_shape(a, qty);
        }
        let (j, q, removed) = self.match_scan(qty);
        let leftover: u64;
        if j < self.order_cursor && q > 0 {
            // the aggressor ends inside the order at `j`
            let r0 = self.orders[j].get_remaining();
            assert(r0 == a[j as int].remaining);
            let slot = &mut self.orders[j];
            slot.set_remaining(r0 - q);
            leftover = 0;
            proof {
                assert(a.skip(j as int)[0] == a[j as int]);
            }
        } else {
            leftover = q;
        }
        let ghost b = self.orders@.take(old(self).order_cursor as int).map_values(|o: Order| o@);
        proof {
            assert(active_after(a, qty) =~= b.skip(j as int));
        }
        // close the gap left by the consumed front, then zero the vacated tail
        if j > 0 {
            let c = self.order_cursor;
            let ghost mid = self.orders@;
            let mut t = j;
            while t < c
                invariant
                    j <= t <= c,
                    self.order_cursor == c,
                    self.price == old(self).price,
                    c <= self.orders@.len(),
                    self.orders@.len() == mid.len(),
                    0 < j <= c,
                    forall|m: int|
                        0 <= m < t - j ==> (#[trigger] self.orders@[m]) == mid[m + j],
                    forall|m: int|
                        t - j <= m < self.orders@.len() ==> (#[trigger] self.orders@[m]) == mid[m],
                decreases c - t,
            {
                let tmp = self.orders[t];
                self.orders[t - j] = tmp;
                t = t + 1;
            }
            let mut z = c - j;
            while z < c
                invariant
                    c - j <= z <= c,
                    self.order_cursor == c,
                    self.price == old(self).price,
                    c <= self.orders@.len(),
                    self.orders@.len() == mid.len(),
                    0 < j <= c,
                    forall|m: int|
                        0 <= m < c - j ==> (#[trigger] self.orders@[m]) == mid[m + j],
                    forall|m: int|
                        z <= m < self.orders@.len() ==> (#[trigger] self.orders@[m]) == mid[m],
                    forall|m: int|
                        c - j <= m < z ==> (#[trigger] self.orders@[m])@.price == 0,
                decreases c - z,
            {
                self.orders[z] = Order::new(0, 0, Side::Buy, OrderStatus::Open, OrderType::Limit);
                z = z + 1;
            }
            self.order_cursor = c - j;
        }
        proof {
            assert(self.active() =~= b.skip(j as int));
            assert(self.active() == active_after(a, qty));
            lemma_match_wf(a, qty, self.price);
            lemma_match_sum_le(a, qty);
            lemma_sum_remaining_nonneg(active_after(a, qty));
            assert(self.wf());
        }
        (leftover, removed)
    }
}

} // verus!
