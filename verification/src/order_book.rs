use std::collections::HashMap;

use vstd::prelude::*;

use crate::book_model::book_wf;
use crate::book_model::derived_best_ask_price;
use crate::book_model::derived_best_ask_size;
use crate::book_model::derived_best_bid_price;
use crate::book_model::derived_best_bid_size;
use crate::book_model::highest_side_below;
use crate::book_model::id_map_matches;
use crate::book_model::is_side_level;
use crate::book_model::lemma_highest_unique;
use crate::book_model::lemma_lowest_unique;
use crate::book_model::levels_ids_below;
use crate::book_model::levels_wf;
use crate::book_model::lowest_side_from;
use crate::book_model::noncrossing;
use crate::book_model::BookView;
use crate::book_model::is_aggressive;
use crate::book_model::lemma_best_ask_shape;
use crate::book_model::lemma_best_bid_shape;
use crate::book_model::lemma_highest_side_below;
use crate::book_model::lemma_lowest_side_from;
use crate::book_model::lemma_map_after_add;
use crate::book_model::lemma_side_shrink_noncrossing;
use crate::book_model::lemma_sweep_down_exhausts;
use crate::book_model::lemma_sweep_down_preserves;
use crate::book_model::lemma_sweep_up_exhausts;
use crate::book_model::lemma_sweep_up_preserves;
use crate::book_model::submit_can_rest;
use crate::book_model::sweep_down_levels;
use crate::book_model::sweep_down_leftover;
use crate::book_model::sweep_end;
use crate::book_model::sweep_start;
use crate::book_model::sweep_up_levels;
use crate::book_model::sweep_up_leftover;
use crate::book_model::swept_leftover;
use crate::book_model::swept_levels;
use crate::market::Market;
use crate::order::Order;
use crate::order::OrderType;
use crate::order::OrderStatus;
use crate::order::OrderView;
use crate::order::Side;
use crate::price_level::sum_remaining;
use crate::price_level::PriceLevel;
use crate::price_level::MAX_ORDERS_PER_LEVEL;
use crate::request::CancelOrderRequest;
use crate::request::SubmitOrderRequest;

verus! {

/// The top of the book: best bid and best ask with the total size resting at
/// each. An empty side carries its sentinel: the market minimum (bid) or
/// maximum (ask) with size 0.
#[derive(Debug)]
pub struct BestQuote {
    pub best_bid_price: u64,
    pub best_ask_price: u64,
    pub best_bid_size: u64,
    pub best_ask_size: u64,
}

/// A per-market central limit order book: one pre-allocated price level per
/// integer price in the market's band, price-time-priority matching, derived
/// best quotes, and an id index for constant-time cancellation.
pub struct OrderBook {
    market: Market,
    last_order_id: u64,
    best_quote: BestQuote,
    price_by_id: HashMap<u64, (u64, Side)>,
    price_levels: Vec<PriceLevel>,
}

impl View for OrderBook {
    type V = BookView;

    closed spec fn view(&self) -> BookView {
        BookView {
            symbol: self.market@.symbol,
            min_price: self.market@.min_price,
            max_price: self.market@.max_price,
            levels: self.price_levels@.map_values(|l: PriceLevel| l.active()),
            best_bid_price: self.best_quote.best_bid_price,
            best_bid_size: self.best_quote.best_bid_size,
            best_ask_price: self.best_quote.best_ask_price,
            best_ask_size: self.best_quote.best_ask_size,
            price_by_id: self.price_by_id@,
            last_order_id: self.last_order_id,
        }
    }
}

impl OrderBook {
    /// Structural part of the invariant: a well-formed pre-allocated level
    /// for each price of the band, in price order.
    pub closed spec fn levels_ok(&self) -> bool {
        &&& 1 <= self.market@.min_price < self.market@.max_price
        &&& self.price_levels@.len() == self.market@.max_price - self.market@.min_price
        &&& forall|i: int|
            0 <= i < self.price_levels@.len() ==> (#[trigger] self.price_levels@[i]).wf()
                && self.price_levels@[i].spec_price() == self.market@.min_price + i
    }

    /// The book invariant: the structural part plus the mathematical book
    /// invariant over the view.
    pub closed spec fn wf(&self) -> bool {
        &&& self.levels_ok()
        &&& book_wf(self@)
    }

    /// What a reader of the book may rely on from its invariant.
    pub proof fn lemma_wf_properties(&self)
        requires
            self.wf(),
        ensures
            book_wf(self@),
    {
    }

    /// Create a new order book covering the market's price band, with every
    /// level pre-allocated so the request path never allocates.
    pub fn new(market: Market) -> (r: Self)
        requires
            1 <= market@.min_price < market@.max_price,
            market@.max_price - market@.min_price <= usize::MAX,
        ensures
            r.wf(),
            r@.symbol == market@.symbol,
            r@.min_price == market@.min_price,
            r@.max_price == market@.max_price,
            r@.last_order_id == 0,
            r@.price_by_id == Map::<u64, (u64, Side)>::empty(),
            r@.levels.len() == market@.max_price - market@.min_price,
            forall|i: int| 0 <= i < r@.levels.len() ==> r@.levels[i].len() == 0,
            r@.best_bid_price == market@.min_price,
            r@.best_bid_size == 0,
            r@.best_ask_price == market@.max_price,
            r@.best_ask_size == 0,
    {
        let min_price = market.get_min_price();
        let max_price = market.get_max_price();
        let total_levels: usize = (max_price - min_price) as usize;
        let mut price_levels: Vec<PriceLevel> = Vec::new();
        let mut i: usize = 0;
        while i < total_levels
            invariant
                min_price == market@.min_price,
                max_price == market@.max_price,
                1 <= min_price < max_price,
                total_levels == max_price - min_price,
                i <= total_levels,
                price_levels@.len() == i,
                forall|j: int|
                    0 <= j < i ==> (#[trigger] price_levels@[j]).wf() && price_levels@[
                        j
                    ].spec_price() == min_price + j && price_levels@[j].active().len() == 0,
            decreases total_levels - i,
        {
            price_levels.push(PriceLevel::new(min_price + (i as u64)));
            i = i + 1;
        }
        let best_quote = BestQuote {
            best_ask_price: max_price,
            best_bid_price: min_price,
            best_bid_size: 0,
            best_ask_size: 0,
        };
        let r = Self {
            last_order_id: 0,
            price_levels,
            best_quote,
            market,
            price_by_id: HashMap::new(),
        };
        proof {
            let v = r@;
            assert(forall|j: int|
                0 <= j < v.levels.len() ==> #[trigger] v.levels[j] == price_levels@[j].active());
            assert(forall|j: int| 0 <= j < v.levels.len() ==> #[trigger] v.levels[j].len() == 0);
            lemma_highest_unique(v.levels, Side::Buy, v.levels.len() as int, -1);
            lemma_lowest_unique(v.levels, Side::Sell, 0, v.levels.len() as int);
            assert(book_wf(v));
        }
        r
    }

    /// Returns the best bid price.
    pub fn get_best_bid_price(&self) -> (r: u64)
        ensures
            r == self@.best_bid_price,
    {
        self.best_quote.best_bid_price
    }

    /// Returns the best bid size.
    pub fn get_best_bid_size(&self) -> (r: u64)
        ensures
            r == self@.best_bid_size,
    {
        self.best_quote.best_bid_size
    }

    /// Returns the best ask price.
    pub fn get_best_ask_price(&self) -> (r: u64)
        ensures
            r == self@.best_ask_price,
    {
        self.best_quote.best_ask_price
    }

    /// Returns the best ask size.
    pub fn get_best_ask_size(&self) -> (r: u64)
        ensures
            r == self@.best_ask_size,
    {
        self.best_quote.best_ask_size
    }

    /// Returns the best quote as one record.
    pub fn get_best_quote(&self) -> (r: BestQuote)
        ensures
            r.best_bid_price == self@.best_bid_price,
            r.best_bid_size == self@.best_bid_size,
            r.best_ask_price == self@.best_ask_price,
            r.best_ask_size == self@.best_ask_size,
    {
        BestQuote {
            best_bid_price: self.best_quote.best_bid_price,
            best_ask_price: self.best_quote.best_ask_price,
            best_bid_size: self.best_quote.best_bid_size,
            best_ask_size: self.best_quote.best_ask_size,
        }
    }

    /// Scans the whole band from the top down for the highest occupied bid
    /// level; returns its index and total size.
    fn find_best_bid(&self) -> (r: Option<(usize, u64)>)
        requires
            self.levels_ok(),
        ensures
            ({
                let h = highest_side_below(self@.levels, Side::Buy, self@.levels.len() as int);
                match r {
                    Some(p) => h == p.0 as int && p.1 as int == sum_remaining(self@.levels[h]),
                    None => h == -1,
                }
            }),
    {
        let n = self.price_levels.len();
        let mut i: usize = n;
        while i > 0
            invariant
                self.levels_ok(),
                n == self.price_levels@.len(),
                i <= n,
                forall|m: int|
                    i <= m < n ==> !is_side_level(#[trigger] self@.levels[m], Side::Buy),
            decreases i,
        {
            i = i - 1;
            proof {
                assert(self@.levels[i as int] == self.price_levels@[i as int].active());
            }
            let lvl = &self.price_levels[i];
            if lvl.order_count() > 0 {
                if matches!(lvl.front_side(), Some(Side::Buy)) {
                    let sz = lvl.get_size();
                    proof {
                        lemma_highest_unique(
                            self@.levels,
                            Side::Buy,
                            self@.levels.len() as int,
                            i as int,
                        );
                    }
                    return Some((i, sz));
                }
            }
            proof {
                assert(!is_side_level(self@.levels[i as int], Side::Buy));
            }
        }
        proof {
            lemma_highest_unique(self@.levels, Side::Buy, self@.levels.len() as int, -1);
        }
        None
    }

    /// Scans the whole band from the bottom up for the lowest occupied ask
    /// level; returns its index and total size.
    fn find_best_ask(&self) -> (r: Option<(usize, u64)>)
        requires
            self.levels_ok(),
        ensures
            ({
                let l = lowest_side_from(self@.levels, Side::Sell, 0);
                match r {
                    Some(p) => l == p.0 as int && l < self@.levels.len() && p.1 as int
                        == sum_remaining(self@.levels[l]),
                    None => l == self@.levels.len() as int,
                }
            }),
    {
        let n = self.price_levels.len();
        let mut i: usize = 0;
        while i < n
            invariant
                self.levels_ok(),
                n == self.price_levels@.len(),
                i <= n,
                forall|m: int|
                    0 <= m < i ==> !is_side_level(#[trigger] self@.levels[m], Side::Sell),
            decreases n - i,
        {
            proof {
                assert(self@.levels[i as int] == self.price_levels@[i as int].active());
            }
            let lvl = &self.price_levels[i];
            if lvl.order_count() > 0 {
                if matches!(lvl.front_side(), Some(Side::Sell)) {
                    let sz = lvl.get_size();
                    proof {
                        lemma_lowest_unique(self@.levels, Side::Sell, 0, i as int);
                    }
                    return Some((i, sz));
                }
            }
            proof {
                assert(!is_side_level(self@.levels[i as int], Side::Sell));
            }
            i = i + 1;
        }
        proof {
            lemma_lowest_unique(self@.levels, Side::Sell, 0, n as int);
        }
        None
    }

    /// Re-seats the best bid at the highest occupied bid level, or at the
    /// empty-side sentinel `(min_price, 0)`.
    fn update_best_bid(&mut self)
        requires
            old(self).levels_ok(),
        ensures
            final(self).levels_ok(),
            final(self).market == old(self).market,
            final(self).last_order_id == old(self).last_order_id,
            final(self).price_by_id == old(self).price_by_id,
            final(self).price_levels == old(self).price_levels,
            final(self).best_quote.best_ask_price == old(self).best_quote.best_ask_price,
            final(self).best_quote.best_ask_size == old(self).best_quote.best_ask_size,
            final(self).best_quote.best_bid_price == derived_best_bid_price(
                old(self)@.levels,
                old(self)@.min_price,
            ),
            final(self).best_quote.best_bid_size == derived_best_bid_size(old(self)@.levels),
    {
        proof {
            crate::book_model::lemma_highest_side_below(
                self@.levels,
                Side::Buy,
                self@.levels.len() as int,
            );
            assert(self@.levels.len() == self.price_levels@.len());
        }
        match self.find_best_bid() {
            Some((i, sz)) => {
                self.best_quote.best_bid_price = self.market.get_min_price() + (i as u64);
                self.best_quote.best_bid_size = sz;
            },
            None => {
                self.best_quote.best_bid_price = self.market.get_min_price();
                self.best_quote.best_bid_size = 0;
            },
        }
    }

    /// Rests an order at its price level and records its id in the index.
    /// The caller has already assigned the id (the current id counter) and
    /// guarantees the geometry that keeps the book uncrossed: a buy only
    /// rests strictly below every ask, a sell strictly above every bid.
    fn handle_passive_order(&mut self, request: &SubmitOrderRequest)
        requires
            old(self).levels_ok(),
            levels_wf(old(self)@.levels, old(self)@.min_price),
            noncrossing(old(self)@.levels),
            id_map_matches(old(self)@.price_by_id, old(self)@.levels, old(self)@.min_price),
            old(self)@.last_order_id >= 1,
            levels_ids_below(old(self)@.levels, (old(self)@.last_order_id - 1) as u64),
            old(self)@.min_price <= request.price < old(self)@.max_price,
            1 <= request.size,
            ({
                let x = request.price - old(self)@.min_price;
                &&& old(self)@.levels[x].len() < MAX_ORDERS_PER_LEVEL
                &&& sum_remaining(old(self)@.levels[x]) + request.size <= u64::MAX
                &&& (old(self)@.levels[x].len() > 0 ==> old(self)@.levels[x][0].side
                    == request.side)
            }),
            request.side == Side::Buy ==> forall|m: int|
                0 <= m < old(self)@.levels.len() && is_side_level(
                    #[trigger] old(self)@.levels[m],
                    Side::Sell,
                ) ==> m > request.price - old(self)@.min_price,
            request.side == Side::Sell ==> forall|m: int|
                0 <= m < old(self)@.levels.len() && is_side_level(
                    #[trigger] old(self)@.levels[m],
                    Side::Buy,
                ) ==> m < request.price - old(self)@.min_price,
        ensures
            final(self).levels_ok(),
            final(self)@.levels == old(self)@.levels.update(
                request.price - old(self)@.min_price,
                old(self)@.levels[request.price - old(self)@.min_price].push(
                    OrderView {
                        id: old(self)@.last_order_id,
                        price: request.price,
                        size: request.size,
                        remaining: request.size,
                        side: request.side,
                        status: OrderStatus::Open,
                        typ: request.order_type,
                    },
                ),
            ),
            final(self)@.price_by_id == old(self)@.price_by_id.insert(
                old(self)@.last_order_id,
                (request.price, request.side),
            ),
            final(self).market == old(self).market,
            final(self).last_order_id == old(self).last_order_id,
            final(self).best_quote == old(self).best_quote,
            levels_wf(final(self)@.levels, old(self)@.min_price),
            noncrossing(final(self)@.levels),
            id_map_matches(final(self)@.price_by_id, final(self)@.levels, old(self)@.min_price),
            levels_ids_below(final(self)@.levels, old(self)@.last_order_id),
    {
        let ghost v = old(self)@;
        let ghost x = request.price - v.min_price;
        let ghost o = OrderView {
            id: v.last_order_id,
            price: request.price,
            size: request.size,
            remaining: request.size,
            side: request.side,
            status: OrderStatus::Open,
            typ: request.order_type,
        };
        let n = self.price_levels.len();
        let idx = (request.price - self.market.get_min_price()) as usize;
        let id = self.last_order_id;
        proof {
            assert(v.levels.len() == self.price_levels@.len());
            assert(n as int == v.levels.len());
            assert(x < v.levels.len());
            assert(idx as int == x);
            assert(self.price_levels@[x].spec_price() == v.min_price + x);
            assert(v.levels[x] == self.price_levels@[x].active());
            crate::price_level::lemma_sum_remaining_nonneg(v.levels[x]);
        }
        let lvl = &mut self.price_levels[idx];
        lvl.add_order(request.price, request.size, request.side, request.order_type, id);
        self.price_by_id.insert(id, (request.price, request.side));
        proof {
            let v2 = self@;
            assert(v2.levels =~= v.levels.update(x, v.levels[x].push(o))) by {
                assert(forall|j: int|
                    0 <= j < v2.levels.len() ==> #[trigger] v2.levels[j]
                        == self.price_levels@[j].active());
                assert(self.price_levels@[x].active() == v.levels[x].push(o));
                assert(forall|j: int|
                    0 <= j < v.levels.len() && j != x ==> #[trigger] self.price_levels@[j]
                        == old(self).price_levels@[j]);
            }
            let l2 = v2.levels;
            // every existing id predates the new one
            assert(forall|i: int, j: int|
                0 <= i < v.levels.len() && 0 <= j < v.levels[i].len() ==> (
                #[trigger] v.levels[i][j]).id != o.id);
            lemma_map_after_add(v.price_by_id, v.levels, v.min_price, x, o);
            assert(id_map_matches(v2.price_by_id, l2, v.min_price));
            // the updated level stays well-formed at its price
            assert(levels_wf(l2, v.min_price)) by {
                assert forall|i: int| 0 <= i < l2.len() implies {
                    let s = #[trigger] l2[i];
                    &&& crate::price_level::level_orders_wf(s, (v.min_price + i) as u64)
                    &&& s.len() <= MAX_ORDERS_PER_LEVEL
                    &&& sum_remaining(s) <= u64::MAX
                    &&& crate::book_model::level_side_uniform(s)
                    &&& crate::book_model::ids_unique_level(s)
                } by {
                    if i == x {
                        let s = l2[x];
                        let a = v.levels[x];
                        assert(s == a.push(o));
                        assert(forall|j: int| 0 <= j < a.len() ==> #[trigger] s[j] == a[j]);
                        assert(s[a.len() as int] == o);
                        crate::price_level::lemma_sum_remaining_push(a, o);
                    } else {
                        assert(l2[i] == v.levels[i]);
                    }
                }
            }
            assert(noncrossing(l2)) by {
                assert forall|i: int, j: int|
                    0 <= i < l2.len() && 0 <= j < l2.len() && is_side_level(
                        #[trigger] l2[i],
                        Side::Buy,
                    ) && is_side_level(#[trigger] l2[j], Side::Sell) implies i < j by {
                    if i != x && j != x {
                        assert(is_side_level(v.levels[i], Side::Buy));
                        assert(is_side_level(v.levels[j], Side::Sell));
                    } else if i == x {
                        assert(l2[x][0].side == Side::Buy);
                        if v.levels[x].len() > 0 {
                            assert(l2[x][0] == v.levels[x][0]);
                        } else {
                            assert(l2[x][0] == o);
                        }
                        assert(request.side == Side::Buy);
                        assert(is_side_level(v.levels[j], Side::Sell));
                    } else {
                        assert(l2[x][0].side == Side::Sell);
                        if v.levels[x].len() > 0 {
                            assert(l2[x][0] == v.levels[x][0]);
                        } else {
                            assert(l2[x][0] == o);
                        }
                        assert(request.side == Side::Sell);
                        assert(is_side_level(v.levels[i], Side::Buy));
                    }
                }
            }
            assert(levels_ids_below(l2, v.last_order_id)) by {
                assert forall|i: int| 0 <= i < l2.len() implies crate::book_model::ids_below(
                    #[trigger] l2[i],
                    v.last_order_id,
                ) by {
                    if i == x {
                        let s = l2[x];
                        let a = v.levels[x];
                        assert(forall|j: int| 0 <= j < a.len() ==> #[trigger] s[j] == a[j]);
                        assert(s[a.len() as int] == o);
                    } else {
                        assert(l2[i] == v.levels[i]);
                    }
                }
            }
        }
    }

    /// Matches an aggressor of size `qty` against the level at index `i`,
    /// first-in-first-out, pruning the id index of every fully consumed
    /// order. Returns the aggressor size the level could not fill.
    fn consume_level(&mut self, i: usize, qty: u64) -> (left: u64)
        requires
            old(self).levels_ok(),
            levels_wf(old(self)@.levels, old(self)@.min_price),
            id_map_matches(old(self)@.price_by_id, old(self)@.levels, old(self)@.min_price),
            (i as int) < old(self)@.levels.len(),
        ensures
            final(self).levels_ok(),
            final(self).market == old(self).market,
            final(self).last_order_id == old(self).last_order_id,
            final(self).best_quote == old(self).best_quote,
            final(self)@.levels == old(self)@.levels.update(
                i as int,
                crate::price_level::active_after(old(self)@.levels[i as int], qty),
            ),
            left == crate::price_level::leftover_after(old(self)@.levels[i as int], qty),
            id_map_matches(final(self)@.price_by_id, final(self)@.levels, old(self)@.min_price),
            levels_wf(final(self)@.levels, old(self)@.min_price),
            forall|b: u64|
                levels_ids_below(old(self)@.levels, b) ==> levels_ids_below(
                    #[trigger] final(self)@.levels,
                    b,
                ),
            forall|m: int|
                0 <= m < old(self)@.levels.len() && #[trigger] final(self)@.levels[m].len() > 0
                    ==> old(self)@.levels[m].len() > 0 && final(self)@.levels[m][0].side == old(
                    self,
                )@.levels[m][0].side,
    {
        let ghost v = old(self)@;
        let ghost a = v.levels[i as int];
        let ghost m0 = v.price_by_id;
        let ghost k = crate::price_level::consumed_count(a, qty);
        proof {
            assert(v.levels.len() == self.price_levels@.len());
            assert(a == self.price_levels@[i as int].active());
        }
        let lvl = &mut self.price_levels[i];
        let (left, removed) = lvl.consume(qty);
        let ghost l2 = self@.levels;
        let ghost pl2 = self.price_levels@;
        proof {
            assert(l2 =~= v.levels.update(
                i as int,
                crate::price_level::active_after(a, qty),
            )) by {
                assert(forall|j: int|
                    0 <= j < l2.len() ==> #[trigger] l2[j] == self.price_levels@[j].active());
                assert(forall|j: int|
                    0 <= j < v.levels.len() && j != i as int ==> #[trigger] self.price_levels@[j]
                        == old(self).price_levels@[j]);
            }
            crate::book_model::lemma_map_after_consume(m0, v.levels, v.min_price, i as int, qty);
            assert(removed@ == crate::price_level::ids_of(a.take(k)));
            crate::price_level::lemma_match_shape(a, qty);
            assert(a.take(k).len() == k);
            assert(removed@.len() == k);
        }
        // prune the index of every id that was fully consumed
        let mut t: usize = 0;
        while t < removed.len()
            invariant
                t <= removed@.len(),
                self.market == old(self).market,
                self.last_order_id == old(self).last_order_id,
                self.best_quote == old(self).best_quote,
                self.price_levels@ == pl2,
                forall|id: u64| #[trigger]
                    self@.price_by_id.dom().contains(id) ==> m0.dom().contains(id)
                        && self@.price_by_id[id] == m0[id],
                forall|id: u64|
                    m0.dom().contains(id) && !removed@.take(t as int).contains(id)
                        ==> #[trigger] self@.price_by_id.dom().contains(id),
                forall|j: int|
                    0 <= j < t ==> !self@.price_by_id.dom().contains(#[trigger] removed@[j]),
            decreases removed@.len() - t,
        {
            let ghost prev = self@.price_by_id;
            self.price_by_id.remove(&removed[t]);
            proof {
                assert(self@.price_by_id == prev.remove(removed@[t as int]));
                assert forall|j: int|
                    0 <= j < t implies removed@.take(t as int + 1).contains(
                    #[trigger] removed@[j],
                ) by {
                    assert(removed@.take(t as int + 1)[j] == removed@[j]);
                }
                assert(removed@.take(t as int + 1)[t as int] == removed@[t as int]);
                assert forall|id: u64|
                    m0.dom().contains(id) && !removed@.take(t as int + 1).contains(
                        id,
                    ) implies #[trigger] self@.price_by_id.dom().contains(id) by {
                    assert(!removed@.take(t as int).contains(id)) by {
                        if removed@.take(t as int).contains(id) {
                            let j = choose|j: int|
                                0 <= j < t && removed@.take(t as int)[j] == id;
                            assert(removed@.take(t as int + 1)[j] == id);
                        }
                    }
                    assert(id != removed@[t as int]);
                }
            }
            t = t + 1;
        }
        proof {
            let gone = crate::price_level::ids_of(a.take(k)).to_set();
            assert(self@.price_by_id =~= m0.remove_keys(gone)) by {
                assert(removed@.take(k) =~= removed@);
                assert forall|id: u64| #[trigger]
                    self@.price_by_id.dom().contains(id) implies m0.dom().contains(id)
                    && !gone.contains(id) by {
                    if gone.contains(id) {
                        let j = choose|j: int| 0 <= j < removed@.len() && removed@[j] == id;
                        assert(!self@.price_by_id.dom().contains(removed@[j]));
                    }
                }
                assert forall|id: u64|
                    m0.dom().contains(id) && !gone.contains(
                        id,
                    ) implies #[trigger] self@.price_by_id.dom().contains(id) by {
                    assert(!removed@.take(k).contains(id)) by {
                        if removed@.take(k).contains(id) {
                            let j = choose|j: int| 0 <= j < k && removed@.take(k)[j] == id;
                            assert(removed@[j] == id);
                            assert(gone.contains(id));
                        }
                    }
                }
            }
            assert(self@.levels == l2);
            // each level stays well-formed, bounded, and on its side
            assert forall|m: int| 0 <= m < l2.len() implies {
                let s2 = #[trigger] l2[m];
                &&& crate::price_level::level_orders_wf(s2, (v.min_price + m) as u64)
                &&& s2.len() <= MAX_ORDERS_PER_LEVEL
                &&& sum_remaining(s2) <= u64::MAX
                &&& crate::book_model::level_side_uniform(s2)
                &&& crate::book_model::ids_unique_level(s2)
                &&& (s2.len() > 0 ==> v.levels[m].len() > 0 && s2[0].side == v.levels[m][0].side)
            } by {
                if m == i as int {
                    crate::book_model::lemma_level_match_props(a, qty, (v.min_price + m) as u64, 0);
                    crate::price_level::lemma_match_sum_le(a, qty);
                    if l2[m].len() > 0 {
                        assert(l2[m][0].side == a[k].side);
                        assert(a[k].side == a[0].side);
                    }
                } else {
                    assert(l2[m] == v.levels[m]);
                }
            }
            assert forall|b: u64|
                levels_ids_below(v.levels, b) implies #[trigger] levels_ids_below(l2, b) by {
                assert forall|m: int| 0 <= m < l2.len() implies crate::book_model::ids_below(
                    #[trigger] l2[m],
                    b,
                ) by {
                    if m == i as int {
                        crate::book_model::lemma_level_match_props(
                            a,
                            qty,
                            (v.min_price + m) as u64,
                            b,
                        );
                        assert(crate::book_model::ids_below(v.levels[m], b));
                    } else {
                        assert(l2[m] == v.levels[m]);
                        assert(crate::book_model::ids_below(v.levels[m], b));
                    }
                }
            }
        }
        left
    }

    /// Matches a crossing order against the opposite side of the book, best
    /// price first and first-in-first-out within each level, never through a
    /// limit price the aggressor would not trade at. Any unmatched limit
    /// remainder rests at its own price; a market order's remainder is
    /// dropped. Both best quotes are re-seated afterwards.
    #[verifier::rlimit(100)]
    fn handle_crossing_order(&mut self, request: &mut SubmitOrderRequest)
        requires
            old(self).wf(),
            old(self)@.last_order_id >= 1,
            levels_ids_below(old(self)@.levels, (old(self)@.last_order_id - 1) as u64),
            1 <= old(request).size,
            is_aggressive(
                old(self)@,
                old(request).price,
                old(request).side,
                old(request).order_type,
            ),
            old(request).order_type == OrderType::Limit ==> old(self)@.min_price <= old(
                request,
            ).price && old(request).price < old(self)@.max_price,
            submit_can_rest(
                old(self)@,
                old(request).price,
                old(request).size,
                old(request).side,
                old(request).order_type,
            ),
        ensures
            final(self).wf(),
            final(self)@.symbol == old(self)@.symbol,
            final(self)@.min_price == old(self)@.min_price,
            final(self)@.max_price == old(self)@.max_price,
            final(self)@.last_order_id == old(self)@.last_order_id,
            final(self)@.levels == ({
                let v = old(self)@;
                let swept = swept_levels(
                    v,
                    old(request).price,
                    old(request).size,
                    old(request).side,
                    old(request).order_type,
                );
                let lo = swept_leftover(
                    v,
                    old(request).price,
                    old(request).size,
                    old(request).side,
                    old(request).order_type,
                );
                if old(request).order_type == OrderType::Limit && lo > 0 {
                    let x = old(request).price - v.min_price;
                    swept.update(
                        x,
                        swept[x].push(
                            OrderView {
                                id: v.last_order_id,
                                price: old(request).price,
                                size: lo,
                                remaining: lo,
                                side: old(request).side,
                                status: OrderStatus::Open,
                                typ: old(request).order_type,
                            },
                        ),
                    )
                } else {
                    swept
                }
            }),
            final(request).size == swept_leftover(
                old(self)@,
                old(request).price,
                old(request).size,
                old(request).side,
                old(request).order_type,
            ),
            final(request).price == old(request).price,
            final(request).side == old(request).side,
            final(request).order_type == old(request).order_type,
            final(request).symbol == old(request).symbol,
            final(request).signature == old(request).signature,
            final(request).nonce == old(request).nonce,
            final(request).public_key == old(request).public_key,
    {
        let ghost v = old(self)@;
        let ghost p0 = old(request).price;
        let ghost s0 = old(request).size;
        let ghost sd = old(request).side;
        let ghost ty = old(request).order_type;
        let n = self.price_levels.len();
        let min = self.market.get_min_price();
        proof {
            assert(v.levels.len() == self.price_levels@.len());
            assert(n as int == v.levels.len());
        }
        let mut qty = request.size;
        if matches!(request.side, Side::Buy) {
            proof {
                lemma_best_ask_shape(v);
            }
            let start: usize = if self.best_quote.best_ask_size == 0 {
                n
            } else {
                (self.best_quote.best_ask_price - min) as usize
            };
            let end: usize = if matches!(request.order_type, OrderType::Market) {
                n
            } else {
                (request.price - min) as usize + 1
            };
            let ghost gs = start as int;
            let ghost ge = end as int;
            proof {
                assert(gs == sweep_start(v, sd));
                assert(ge == sweep_end(v, p0, sd, ty));
            }
            let mut i = start;
            while i < end && qty > 0
                invariant
                    self.levels_ok(),
                    levels_wf(self@.levels, v.min_price),
                    id_map_matches(self@.price_by_id, self@.levels, v.min_price),
                    self.market == old(self).market,
                    self.last_order_id == old(self).last_order_id,
                    self.best_quote == old(self).best_quote,
                    self@.levels.len() == v.levels.len(),
                    self@.min_price == v.min_price,
                    0 <= ge <= v.levels.len(),
                    ge == end as int,
                    gs == start as int,
                    gs <= i as int,
                    i <= n,
                    n as int == v.levels.len(),
                    (i as int) <= ge || i == start,
                    sweep_up_levels(v.levels, gs, ge, s0) == sweep_up_levels(
                        self@.levels,
                        i as int,
                        ge,
                        qty,
                    ),
                    sweep_up_leftover(v.levels, gs, ge, s0) == sweep_up_leftover(
                        self@.levels,
                        i as int,
                        ge,
                        qty,
                    ),
                decreases ge - i,
            {
                let ghost cur = self@.levels;
                let left = self.consume_level(i, qty);
                proof {
                    assert(sweep_up_levels(cur, i as int, ge, qty) == sweep_up_levels(
                        self@.levels,
                        i as int + 1,
                        ge,
                        left,
                    ));
                    assert(sweep_up_leftover(cur, i as int, ge, qty) == sweep_up_leftover(
                        self@.levels,
                        i as int + 1,
                        ge,
                        left,
                    ));
                }
                qty = left;
                i = i + 1;
            }
            proof {
                assert(sweep_up_levels(self@.levels, i as int, ge, qty) == self@.levels);
                assert(sweep_up_leftover(self@.levels, i as int, ge, qty) == qty);
                assert(self@.levels == swept_levels(v, p0, s0, sd, ty));
                assert(qty == swept_leftover(v, p0, s0, sd, ty));
            }
        } else {
            proof {
                lemma_best_bid_shape(v);
            }
            let top: usize = if self.best_quote.best_bid_size == 0 {
                0
            } else {
                (self.best_quote.best_bid_price - min) as usize + 1
            };
            let end: usize = if matches!(request.order_type, OrderType::Market) {
                0
            } else {
                (request.price - min) as usize
            };
            let ghost gt = top as int - 1;
            let ghost ge = end as int;
            proof {
                assert(gt == sweep_start(v, sd));
                assert(ge == sweep_end(v, p0, sd, ty));
            }
            let mut i = top;
            while i > end && qty > 0
                invariant
                    self.levels_ok(),
                    levels_wf(self@.levels, v.min_price),
                    id_map_matches(self@.price_by_id, self@.levels, v.min_price),
                    self.market == old(self).market,
                    self.last_order_id == old(self).last_order_id,
                    self.best_quote == old(self).best_quote,
                    self@.levels.len() == v.levels.len(),
                    self@.min_price == v.min_price,
                    0 <= ge,
                    ge == end as int,
                    gt == top as int - 1,
                    gt < v.levels.len(),
                    i <= top,
                    top as int <= v.levels.len(),
                    end <= i || i == top,
                    sweep_down_levels(v.levels, gt, ge, s0) == sweep_down_levels(
                        self@.levels,
                        i as int - 1,
                        ge,
                        qty,
                    ),
                    sweep_down_leftover(v.levels, gt, ge, s0) == sweep_down_leftover(
                        self@.levels,
                        i as int - 1,
                        ge,
                        qty,
                    ),
                decreases i,
            {
                i = i - 1;
                let ghost cur = self@.levels;
                let left = self.consume_level(i, qty);
                proof {
                    assert(sweep_down_levels(cur, i as int, ge, qty) == sweep_down_levels(
                        self@.levels,
                        i as int - 1,
                        ge,
                        left,
                    ));
                    assert(sweep_down_leftover(cur, i as int, ge, qty) == sweep_down_leftover(
                        self@.levels,
                        i as int - 1,
                        ge,
                        left,
                    ));
                }
                qty = left;
            }
            proof {
                assert(sweep_down_levels(self@.levels, i as int - 1, ge, qty) == self@.levels);
                assert(sweep_down_leftover(self@.levels, i as int - 1, ge, qty) == qty);
                assert(self@.levels == swept_levels(v, p0, s0, sd, ty));
                assert(qty == swept_leftover(v, p0, s0, sd, ty));
            }
        }
        request.size = qty;
        let ghost swept = swept_levels(v, p0, s0, sd, ty);
        proof {
            if sd == Side::Buy {
                lemma_sweep_up_preserves(
                    v.levels,
                    sweep_start(v, sd),
                    sweep_end(v, p0, sd, ty),
                    s0,
                    v.min_price,
                    (v.last_order_id - 1) as u64,
                );
            } else {
                lemma_sweep_down_preserves(
                    v.levels,
                    sweep_start(v, sd),
                    sweep_end(v, p0, sd, ty),
                    s0,
                    v.min_price,
                    (v.last_order_id - 1) as u64,
                );
            }
            lemma_side_shrink_noncrossing(v.levels, swept);
        }
        if qty > 0 && matches!(request.order_type, OrderType::Limit) {
            proof {
                crate::book_model::lemma_cross_rest_setup(v, p0, s0, sd);
            }
            self.handle_passive_order(request);
        }
        let ghost before_quotes = self@;
        self.update_best_bid();
        self.update_best_ask();
        proof {
            let v2 = self@;
            assert(v2.levels == before_quotes.levels);
            assert(v2.price_by_id == before_quotes.price_by_id);
            assert forall|m: int| 0 <= m < v2.levels.len() implies crate::book_model::ids_below(
                #[trigger] v2.levels[m],
                v.last_order_id,
            ) by {
                if ty == OrderType::Limit && swept_leftover(v, p0, s0, sd, ty) > 0 {
                    assert(levels_ids_below(v2.levels, v.last_order_id));
                } else {
                    assert(crate::book_model::ids_below(
                        swept[m],
                        (v.last_order_id - 1) as u64,
                    ));
                    assert forall|j: int| 0 <= j < v2.levels[m].len() implies (
                    #[trigger] v2.levels[m][j]).id <= v.last_order_id by {
                        assert(v2.levels[m][j].id <= v.last_order_id - 1);
                    }
                }
            }
            assert(book_wf(v2));
        }
    }

    /// Handle a new order submission: validate the price band, assign the
    /// next order id, match any crossing part against the opposite side, rest
    /// any unmatched limit remainder, and return the assigned id.
    ///
    /// Assigned ids are the contiguous sequence 1, 2, 3, ... in acceptance
    /// order: each accepted submission returns exactly the incremented
    /// counter, and a rejected one leaves the book untouched.
    #[verifier::rlimit(100)]
    pub fn submit_order(&mut self, request: &mut SubmitOrderRequest) -> (r: Result<u64, String>)
        requires
            old(self).wf(),
            old(self)@.last_order_id < u64::MAX,
            1 <= old(request).size,
            submit_can_rest(
                old(self)@,
                old(request).price,
                old(request).size,
                old(request).side,
                old(request).order_type,
            ),
        ensures
            final(self).wf(),
            ({
                let v = old(self)@;
                let p = old(request).price;
                let s = old(request).size;
                let sd = old(request).side;
                let ty = old(request).order_type;
                if ty == OrderType::Limit && p < v.min_price {
                    &&& r matches Err(e) && e@ == "order price is below min for market"@
                    &&& *final(self) == *old(self)
                    &&& *final(request) == *old(request)
                } else if ty == OrderType::Limit && p >= v.max_price {
                    &&& r matches Err(e) && e@ == "order price is above max for market"@
                    &&& *final(self) == *old(self)
                    &&& *final(request) == *old(request)
                } else {
                    &&& r == Ok::<u64, String>((v.last_order_id + 1) as u64)
                    &&& final(self)@.last_order_id == v.last_order_id + 1
                    &&& final(self)@.symbol == v.symbol
                    &&& final(self)@.min_price == v.min_price
                    &&& final(self)@.max_price == v.max_price
                    &&& final(self)@.levels == crate::book_model::levels_after_submit(
                        v,
                        p,
                        s,
                        sd,
                        ty,
                    )
                    &&& final(request).price == (if ty == OrderType::Market {
                        0u64
                    } else {
                        p
                    })
                    &&& final(request).size == (if is_aggressive(v, p, sd, ty) {
                        swept_leftover(v, p, s, sd, ty)
                    } else {
                        s
                    })
                    &&& final(request).side == sd
                    &&& final(request).order_type == ty
                    &&& final(request).symbol == old(request).symbol
                }
            }),
    {
        let ghost v = old(self)@;
        let ghost p0 = old(request).price;
        let ghost s0 = old(request).size;
        let ghost sd = old(request).side;
        let ghost ty = old(request).order_type;
        let min = self.market.get_min_price();
        let max = self.market.get_max_price();
        let is_limit = matches!(request.order_type, OrderType::Limit);
        if is_limit && request.price < min {
            return Err("order price is below min for market".to_owned());
        }
        if is_limit && request.price >= max {
            return Err("order price is above max for market".to_owned());
        }
        self.last_order_id = self.last_order_id + 1;
        let ghost vmid = self@;
        proof {
            assert(vmid.levels == v.levels);
            assert(book_wf(vmid)) by {
                assert forall|i: int|
                    0 <= i < vmid.levels.len() implies crate::book_model::ids_below(
                    #[trigger] vmid.levels[i],
                    vmid.last_order_id,
                ) by {
                    assert(crate::book_model::ids_below(v.levels[i], v.last_order_id));
                    assert forall|j: int| 0 <= j < vmid.levels[i].len() implies (
                    #[trigger] vmid.levels[i][j]).id <= vmid.last_order_id by {
                        assert(vmid.levels[i][j].id <= v.last_order_id);
                    }
                }
            }
            assert(levels_ids_below(vmid.levels, (vmid.last_order_id - 1) as u64));
        }
        if is_limit {
            let aggressive = (matches!(request.side, Side::Buy) && request.price
                >= self.best_quote.best_ask_price) || (matches!(request.side, Side::Sell)
                && request.price <= self.best_quote.best_bid_price);
            proof {
                crate::book_model::lemma_submit_specs_same(vmid, v, p0, s0, sd, ty);
                assert(aggressive == is_aggressive(v, p0, sd, ty));
            }
            if aggressive {
                self.handle_crossing_order(request);
                proof {
                    assert(self@.levels == crate::book_model::levels_after_submit(
                        v,
                        p0,
                        s0,
                        sd,
                        ty,
                    ));
                }
            } else {
                proof {
                    crate::book_model::lemma_passive_setup(v, p0, s0, sd, ty);
                }
                let ghost o = OrderView {
                    id: vmid.last_order_id,
                    price: p0,
                    size: s0,
                    remaining: s0,
                    side: sd,
                    status: OrderStatus::Open,
                    typ: ty,
                };
                self.handle_passive_order(request);
                let ghost l2 = self@.levels;
                proof {
                    assert(o == crate::book_model::rested_order(v, p0, s0, sd, ty));
                    assert(l2 == crate::book_model::levels_after_submit(v, p0, s0, sd, ty));
                    crate::book_model::lemma_passive_quotes(v, l2, p0, sd, o);
                }
                if matches!(request.side, Side::Buy) {
                    self.update_best_bid();
                } else {
                    self.update_best_ask();
                }
                proof {
                    assert(book_wf(self@));
                }
            }
        } else {
            request.price = 0;
            proof {
                crate::book_model::lemma_submit_specs_same(vmid, v, 0, s0, sd, ty);
                crate::book_model::lemma_market_price_irrelevant(vmid, 0, p0, s0, sd);
                crate::book_model::lemma_market_price_irrelevant(v, p0, 0, s0, sd);
                assert(is_aggressive(vmid, 0, sd, ty));
                assert(submit_can_rest(vmid, 0, s0, sd, ty));
            }
            self.handle_crossing_order(request);
            proof {
                assert(!crate::book_model::rests(v, p0, s0, sd, ty));
                assert(self@.levels == crate::book_model::levels_after_submit(v, p0, s0, sd, ty));
            }
        }
        Ok(self.last_order_id)
    }

    /// Cancel the resting order with the given id. An unknown id is reported
    /// as an error and leaves the book exactly as it was, so a cancellation
    /// that failed once keeps failing. A found order leaves its level and the
    /// id index, and the best quote of its side is re-seated if it stood at
    /// the top of the book.
    #[verifier::rlimit(100)]
    pub fn cancel_order(&mut self, request: &CancelOrderRequest) -> (r: Result<bool, String>)
        requires
            old(self).wf(),
        ensures
            final(self).wf(),
            ({
                let v = old(self)@;
                let id = request.id;
                if crate::book_model::cancel_found(v, id) {
                    &&& r == Ok::<bool, String>(true)
                    &&& final(self)@.levels == crate::book_model::levels_after_cancel(v, id)
                    &&& final(self)@.price_by_id == v.price_by_id.remove(id)
                    &&& final(self)@.last_order_id == v.last_order_id
                    &&& final(self)@.symbol == v.symbol
                    &&& final(self)@.min_price == v.min_price
                    &&& final(self)@.max_price == v.max_price
                } else {
                    &&& (r matches Err(e) && e@ == "order not found"@)
                    &&& *final(self) == *old(self)
                }
            }),
    {
        let ghost v = old(self)@;
        let found: Option<(u64, Side)> = match self.price_by_id.get(&request.id) {
            Some(pp) => Some((pp.0, pp.1)),
            None => None,
        };
        match found {
            Some((price, side)) => {
                let ghost l2 = crate::book_model::levels_after_cancel(v, request.id);
                proof {
                    crate::book_model::lemma_cancel_levels_wf(v, request.id);
                    crate::book_model::lemma_cancel_quotes(v, request.id);
                    assert((price, side) == v.price_by_id[request.id]);
                }
                let n = self.price_levels.len();
                let x = (price - self.market.get_min_price()) as usize;
                proof {
                    assert(n as int == v.levels.len());
                    assert(x as int == price - v.min_price);
                    assert(v.levels[x as int] == self.price_levels@[x as int].active());
                }
                let lvl = &mut self.price_levels[x];
                lvl.remove_order(request.id);
                self.price_by_id.remove(&request.id);
                proof {
                    assert(crate::price_level::has_order_id(v.levels[x as int], request.id)) by {
                        crate::price_level::lemma_index_of_id(v.levels[x as int], request.id);
                    }
                    assert(self@.levels =~= l2) by {
                        assert(forall|m: int|
                            0 <= m < self@.levels.len() ==> #[trigger] self@.levels[m]
                                == self.price_levels@[m].active());
                        assert(forall|m: int|
                            0 <= m < v.levels.len() && m != x as int
                                ==> #[trigger] self.price_levels@[m] == old(
                                self,
                            ).price_levels@[m]);
                    }
                    assert(self@.price_by_id == v.price_by_id.remove(request.id));
                }
                if matches!(side, Side::Buy) {
                    if price == self.best_quote.best_bid_price {
                        self.update_best_bid();
                    }
                } else {
                    if price == self.best_quote.best_ask_price {
                        self.update_best_ask();
                    }
                }
                proof {
                    assert(book_wf(self@));
                }
                Ok(true)
            },
            None => {
                proof {
                    assert(!crate::book_model::cancel_found(v, request.id));
                }
                Err("order not found".to_owned())
            },
        }
    }

    /// Get the occupied bid levels, best (highest) price first.
    pub fn get_bids(&self) -> (r: Vec<&PriceLevel>)
        requires
            self.wf(),
        ensures
            ({
                let idxs = crate::book_model::side_indices(self@, Side::Buy);
                &&& r@.len() == idxs.len()
                &&& forall|k: int|
                    0 <= k < idxs.len() ==> (#[trigger] r@[k]).active() == self@.levels[idxs[k]]
                        && r@[k].spec_price() == self@.min_price + idxs[k] && r@[k].wf()
            }),
    {
        self.get_side_of_book(Side::Buy)
    }

    /// Get the occupied ask levels, best (lowest) price first.
    pub fn get_asks(&self) -> (r: Vec<&PriceLevel>)
        requires
            self.wf(),
        ensures
            ({
                let idxs = crate::book_model::side_indices(self@, Side::Sell);
                &&& r@.len() == idxs.len()
                &&& forall|k: int|
                    0 <= k < idxs.len() ==> (#[trigger] r@[k]).active() == self@.levels[idxs[k]]
                        && r@[k].spec_price() == self@.min_price + idxs[k] && r@[k].wf()
            }),
    {
        self.get_side_of_book(Side::Sell)
    }

    /// Get the occupied levels of one side of the book, best price first:
    /// highest first for bids, lowest first for asks.
    pub fn get_side_of_book(&self, side: Side) -> (r: Vec<&PriceLevel>)
        requires
            self.wf(),
        ensures
            ({
                let idxs = crate::book_model::side_indices(self@, side);
                &&& r@.len() == idxs.len()
                &&& forall|k: int|
                    0 <= k < idxs.len() ==> (#[trigger] r@[k]).active() == self@.levels[idxs[k]]
                        && r@[k].spec_price() == self@.min_price + idxs[k] && r@[k].wf()
            }),
    {
        let ghost levels = self@.levels;
        let n = self.price_levels.len();
        let mut r: Vec<&PriceLevel> = Vec::new();
        let ghost mut done: Seq<int> = Seq::empty();
        proof {
            assert(n as int == levels.len());
        }
        if matches!(side, Side::Buy) {
            let mut i: usize = n;
            while i > 0
                invariant
                    self.wf(),
                    side == Side::Buy,
                    n == self.price_levels@.len(),
                    levels == self@.levels,
                    n as int == levels.len(),
                    i <= n,
                    crate::book_model::desc_side_indices(levels, side, n as int) == done
                        + crate::book_model::desc_side_indices(levels, side, i as int),
                    r@.len() == done.len(),
                    forall|k: int| 0 <= k < done.len() ==> 0 <= #[trigger] done[k] < n,
                    forall|k: int|
                        0 <= k < done.len() ==> (#[trigger] r@[k]).active() == levels[done[k]]
                            && r@[k].spec_price() == self@.min_price + done[k] && r@[k].wf(),
                decreases i,
            {
                i = i - 1;
                proof {
                    assert(levels[i as int] == self.price_levels@[i as int].active());
                }
                let lvl = &self.price_levels[i];
                if lvl.order_count() > 0 && matches!(lvl.front_side(), Some(Side::Buy)) {
                    r.push(lvl);
                    let ghost done0 = done;
                    proof {
                        done = done.push(i as int);
                        assert(is_side_level(levels[i as int], side));
                        assert(crate::book_model::desc_side_indices(levels, side, i as int + 1)
                            == seq![i as int] + crate::book_model::desc_side_indices(
                            levels,
                            side,
                            i as int,
                        ));
                        assert(done0 + (seq![i as int] + crate::book_model::desc_side_indices(
                            levels,
                            side,
                            i as int,
                        )) =~= done + crate::book_model::desc_side_indices(
                            levels,
                            side,
                            i as int,
                        ));
                    }
                } else {
                    proof {
                        assert(!is_side_level(levels[i as int], side));
                        assert(crate::book_model::desc_side_indices(levels, side, i as int + 1)
                            == crate::book_model::desc_side_indices(levels, side, i as int));
                    }
                }
            }
            proof {
                assert(crate::book_model::desc_side_indices(levels, side, 0)
                    =~= Seq::<int>::empty());
                assert(crate::book_model::side_indices(self@, side) =~= done);
            }
        } else {
            let mut i: usize = 0;
            while i < n
                invariant
                    self.wf(),
                    side == Side::Sell,
                    n == self.price_levels@.len(),
                    levels == self@.levels,
                    n as int == levels.len(),
                    i <= n,
                    crate::book_model::asc_side_indices(levels, side, 0) == done
                        + crate::book_model::asc_side_indices(levels, side, i as int),
                    r@.len() == done.len(),
                    forall|k: int| 0 <= k < done.len() ==> 0 <= #[trigger] done[k] < n,
                    forall|k: int|
                        0 <= k < done.len() ==> (#[trigger] r@[k]).active() == levels[done[k]]
                            && r@[k].spec_price() == self@.min_price + done[k] && r@[k].wf(),
                decreases n - i,
            {
                proof {
                    assert(levels[i as int] == self.price_levels@[i as int].active());
                }
                let lvl = &self.price_levels[i];
                if lvl.order_count() > 0 && matches!(lvl.front_side(), Some(Side::Sell)) {
                    r.push(lvl);
                    let ghost done0 = done;
                    proof {
                        done = done.push(i as int);
                        assert(is_side_level(levels[i as int], side));
                        assert(crate::book_model::asc_side_indices(levels, side, i as int)
                            == seq![i as int] + crate::book_model::asc_side_indices(
                            levels,
                            side,
                            i as int + 1,
                        ));
                        assert(done0 + (seq![i as int] + crate::book_model::asc_side_indices(
                            levels,
                            side,
                            i as int + 1,
                        )) =~= done + crate::book_model::asc_side_indices(
                            levels,
                            side,
                            i as int + 1,
                        ));
                    }
                } else {
                    proof {
                        assert(!is_side_level(levels[i as int], side));
                        assert(crate::book_model::asc_side_indices(levels, side, i as int)
                            == crate::book_model::asc_side_indices(levels, side, i as int + 1));
                    }
                }
                i = i + 1;
            }
            proof {
                assert(crate::book_model::asc_side_indices(levels, side, n as int)
                    =~= Seq::<int>::empty());
                assert(crate::book_model::side_indices(self@, side) =~= done);
            }
        }
        r
    }

    /// Appends copies of the resting orders of one side, best level first and
    /// oldest first within each level.
    fn collect_side_orders(&self, side: Side, out: &mut Vec<Order>)
        requires
            self.wf(),
        ensures
            final(out)@.map_values(|o: Order| o@) == old(out)@.map_values(|o: Order| o@)
                + crate::book_model::orders_at_indices(
                self@.levels,
                crate::book_model::side_indices(self@, side),
            ),
    {
        let ghost levels = self@.levels;
        let side_levels = self.get_side_of_book(side);
        let ghost idxs = crate::book_model::side_indices(self@, side);
        let mut k: usize = 0;
        proof {
            assert(crate::book_model::orders_at_indices(levels, idxs.take(0))
                =~= Seq::<OrderView>::empty());
            assert(old(out)@.map_values(|o: Order| o@) + crate::book_model::orders_at_indices(
                levels,
                idxs.take(0),
            ) =~= old(out)@.map_values(|o: Order| o@));
        }
        while k < side_levels.len()
            invariant
                self.wf(),
                levels == self@.levels,
                side_levels@.len() == idxs.len(),
                forall|m: int|
                    0 <= m < idxs.len() ==> (#[trigger] side_levels@[m]).active()
                        == levels[idxs[m]] && side_levels@[m].wf(),
                k <= side_levels@.len(),
                out@.map_values(|o: Order| o@) == old(out)@.map_values(|o: Order| o@)
                    + crate::book_model::orders_at_indices(levels, idxs.take(k as int)),
            decreases side_levels@.len() - k,
        {
            let mut part = side_levels[k].get_orders();
            let ghost out0 = out@;
            let ghost part0 = part@;
            out.append(&mut part);
            proof {
                crate::book_model::lemma_orders_at_indices_push(
                    levels,
                    idxs.take(k as int),
                    idxs[k as int],
                );
                assert(idxs.take(k as int + 1) =~= idxs.take(k as int).push(idxs[k as int]));
                assert(out@.map_values(|o: Order| o@) =~= out0.map_values(|o: Order| o@)
                    + part0.map_values(|o: Order| o@));
            }
            k = k + 1;
        }
        proof {
            assert(idxs.take(idxs.len() as int) =~= idxs);
        }
    }

    /// Returns copies of every open order of the book: bids in descending
    /// price order, then asks in ascending price order, oldest first within
    /// each level. Every returned order has an unfilled part between 1 and
    /// its size.
    pub fn get_orders(&self) -> (r: Vec<Order>)
        requires
            self.wf(),
        ensures
            r@.map_values(|o: Order| o@) == crate::book_model::book_snapshot(self@),
            forall|k: int|
                0 <= k < r@.len() ==> 0 < (#[trigger] r@[k])@.remaining && r@[k]@.remaining
                    <= r@[k]@.size,
    {
        let mut r: Vec<Order> = Vec::new();
        proof {
            assert(Seq::<Order>::empty().map_values(|o: Order| o@) =~= Seq::<OrderView>::empty());
        }
        self.collect_side_orders(Side::Buy, &mut r);
        self.collect_side_orders(Side::Sell, &mut r);
        proof {
            let v = self@;
            let bids = crate::book_model::orders_at_indices(
                v.levels,
                crate::book_model::side_indices(v, Side::Buy),
            );
            let asks = crate::book_model::orders_at_indices(
                v.levels,
                crate::book_model::side_indices(v, Side::Sell),
            );
            assert(Seq::<OrderView>::empty() + bids =~= bids);
            assert(r@.map_values(|o: Order| o@) == bids + asks);
            crate::book_model::lemma_desc_side_indices(v.levels, Side::Buy, v.levels.len() as int);
            crate::book_model::lemma_asc_side_indices(v.levels, Side::Sell, 0);
            crate::book_model::lemma_orders_at_indices_wf(
                v.levels,
                crate::book_model::side_indices(v, Side::Buy),
                v.min_price,
            );
            crate::book_model::lemma_orders_at_indices_wf(
                v.levels,
                crate::book_model::side_indices(v, Side::Sell),
                v.min_price,
            );
            let os = crate::book_model::book_snapshot(v);
            assert(os == bids + asks);
            assert(r@.map_values(|o: Order| o@).len() == r@.len());
            assert(r@.len() == os.len());
            assert(os.len() == bids.len() + asks.len());
            assert forall|k: int|
                0 <= k < r@.len() implies 0 < (#[trigger] r@[k])@.remaining && r@[k]@.remaining
                <= r@[k]@.size by {
                assert(r@.map_values(|o: Order| o@)[k] == r@[k]@);
                assert(r@[k]@ == os[k]);
                if k < bids.len() {
                    assert(os[k] == bids[k]);
                    assert(0 < bids[k].remaining && bids[k].remaining <= bids[k].size);
                } else {
                    assert(os[k] == asks[k - bids.len()]);
                    assert(0 < asks[k - bids.len()].remaining && asks[k - bids.len()].remaining
                        <= asks[k - bids.len()].size);
                }
            }
        }
        r
    }

    /// Re-seats the best ask at the lowest occupied ask level, or at the
    /// empty-side sentinel `(max_price, 0)`.
    fn update_best_ask(&mut self)
        requires
            old(self).levels_ok(),
        ensures
            final(self).levels_ok(),
            final(self).market == old(self).market,
            final(self).last_order_id == old(self).last_order_id,
            final(self).price_by_id == old(self).price_by_id,
            final(self).price_levels == old(self).price_levels,
            final(self).best_quote.best_bid_price == old(self).best_quote.best_bid_price,
            final(self).best_quote.best_bid_size == old(self).best_quote.best_bid_size,
            final(self).best_quote.best_ask_price == derived_best_ask_price(
                old(self)@.levels,
                old(self)@.min_price,
                old(self)@.max_price,
            ),
            final(self).best_quote.best_ask_size == derived_best_ask_size(old(self)@.levels),
    {
        proof {
            crate::book_model::lemma_lowest_side_from(self@.levels, Side::Sell, 0);
            assert(self@.levels.len() == self.price_levels@.len());
        }
        match self.find_best_ask() {
            Some((i, sz)) => {
                self.best_quote.best_ask_price = self.market.get_min_price() + (i as u64);
                self.best_quote.best_ask_size = sz;
            },
            None => {
                self.best_quote.best_ask_price = self.market.get_max_price();
                self.best_quote.best_ask_size = 0;
            },
        }
    }
}

} // verus!
