//! The synchronous core of the request dispatcher: request-id assignment
//! with wrap-around, symbol-to-shard routing, per-kind request handling
//! against the shared registry, and result retrieval by request id. The
//! surrounding fabric (worker threads pinned to cores, channels, the wire
//! encoding of request envelopes) performs these decisions' actions.

use std::collections::HashMap;

use vstd::prelude::*;

use crate::asset::Asset;
use crate::book_model::is_aggressive;
use crate::book_model::levels_after_submit;
use crate::book_model::submit_can_rest;
use crate::book_model::swept_leftover;
use crate::codec::bool_byte;
use crate::codec::encode_cancel_ack;
use crate::codec::encode_order_id;
use crate::codec::varint_u64;
use crate::market::Market;
use crate::order::Order;
use crate::order::OrderType;
use crate::order_book::BestQuote;
use crate::order_book::OrderBook;
use crate::request::CancelOrderRequest;
use crate::request::CreditAccountRequest;
use crate::request::ListAssetRequest;
use crate::request::ListMarketRequest;
use crate::request::RequestType;
use crate::request::SubmitOrderRequest;
use crate::state::has_key;
use crate::state::index_of_key;
use crate::state::lemma_index_of_key;
use crate::state::result_view;
use crate::state::RequestResult;
use crate::state::State;

verus! {

/// Capacity of the result-slot registry: the request-id counter wraps below
/// this bound, so at most this many outcomes are outstanding at once.
pub const REQUEST_SLOT_CAPACITY: u128 = 10_000_000;

/// Engine statistics surface.
pub struct ExchangeStats {}

/// The id assigned to the next request: the counter advances by one and
/// wraps to the first slot when it reaches the registry capacity.
pub open spec fn next_request_id(cur: u128) -> u128 {
    if cur == REQUEST_SLOT_CAPACITY - 1 {
        1u128
    } else {
        (cur + 1) as u128
    }
}

/// The outcome a submission leaves in its result slot, as a value of the
/// model: the book-lookup error, a validation error, or the assigned order
/// id, encoded.
pub open spec fn submit_outcome_view(s: State, req: SubmitOrderRequest) -> Result<
    (RequestType, Seq<u8>),
    Seq<char>,
> {
    if !has_key(s.spec_books(), req.symbol@) {
        Err("order book not found"@)
    } else {
        let b = s.spec_books()[index_of_key(s.spec_books(), req.symbol@)].1;
        if req.order_type == OrderType::Limit && req.price < b@.min_price {
            Err("order price is below min for market"@)
        } else if req.order_type == OrderType::Limit && req.price >= b@.max_price {
            Err("order price is above max for market"@)
        } else {
            Ok((RequestType::SubmitOrder, varint_u64((b@.last_order_id + 1) as u64)))
        }
    }
}

/// The outcome a cancellation leaves in its result slot, as a value of the
/// model.
pub open spec fn cancel_outcome_view(s: State, req: CancelOrderRequest) -> Result<
    (RequestType, Seq<u8>),
    Seq<char>,
> {
    if !has_key(s.spec_books(), req.symbol@) {
        Err("order book not found"@)
    } else {
        let b = s.spec_books()[index_of_key(s.spec_books(), req.symbol@)].1;
        if crate::book_model::cancel_found(b@, req.id) {
            Ok((RequestType::CancelOrder, bool_byte(true)))
        } else {
            Err("order not found"@)
        }
    }
}

/// Copies a byte vector.
fn copy_bytes(v: &Vec<u8>) -> (r: Vec<u8>)
    ensures
        r@ == v@,
{
    let mut r: Vec<u8> = Vec::new();
    let mut i: usize = 0;
    while i < v.len()
        invariant
            i <= v@.len(),
            r@ == v@.take(i as int),
        decreases v@.len() - i,
    {
        r.push(v[i]);
        proof {
            assert(v@.take(i as int + 1) =~= v@.take(i as int).push(v@[i as int]));
        }
        i = i + 1;
    }
    proof {
        assert(v@.take(v@.len() as int) =~= v@);
    }
    r
}

/// Copies a request outcome.
fn copy_result(r: &RequestResult) -> (c: RequestResult)
    ensures
        result_view(c) == result_view(*r),
{
    match r {
        Ok((t, payload)) => Ok((*t, copy_bytes(payload))),
        Err(e) => Err(e.clone()),
    }
}

/// The dispatch core: the shared registry, the symbol-to-shard and
/// account-to-shard routing tables, and the wrapping request-id counters.
/// One instance drives a fixed set of single-writer workers.
pub struct Exchange {
    state: State,
    market_channel_by_symbol: Vec<(String, usize)>,
    account_channel_by_id: HashMap<u128, usize>,
    market_req_id: u128,
    account_req_id: u128,
    num_market_channels: usize,
    num_account_channels: usize,
}

impl Exchange {
    /// The shared registry.
    pub closed spec fn spec_state(&self) -> State {
        self.state
    }

    /// The symbol-to-shard routing table.
    pub closed spec fn spec_channels(&self) -> Seq<(String, usize)> {
        self.market_channel_by_symbol@
    }

    /// The account-to-shard routing table.
    pub closed spec fn spec_account_channels(&self) -> Map<u128, usize> {
        self.account_channel_by_id@
    }

    /// The last assigned market request id.
    pub closed spec fn spec_market_req_id(&self) -> u128 {
        self.market_req_id
    }

    /// The last assigned account request id.
    pub closed spec fn spec_account_req_id(&self) -> u128 {
        self.account_req_id
    }

    /// The number of market worker shards.
    pub closed spec fn spec_num_market_channels(&self) -> usize {
        self.num_market_channels
    }

    /// The number of account worker shards.
    pub closed spec fn spec_num_account_channels(&self) -> usize {
        self.num_account_channels
    }

    /// Invariant: a well-formed registry, at least one worker per kind, and
    /// request-id counters inside the slot capacity.
    pub open spec fn wf(&self) -> bool {
        &&& self.spec_state().wf()
        &&& self.spec_num_market_channels() >= 1
        &&& self.spec_num_account_channels() >= 1
        &&& self.spec_market_req_id() < REQUEST_SLOT_CAPACITY
        &&& self.spec_account_req_id() < REQUEST_SLOT_CAPACITY
        &&& self.spec_state().spec_books().len() == self.spec_state().spec_markets().len()
        &&& forall|j: int|
            0 <= j < self.spec_state().spec_books().len() ==> (
            #[trigger] self.spec_state().spec_books()[j]).0@ == self.spec_state().spec_markets()[
                j
            ].0@
    }

    /// Creates a new exchange core dispatching over the given number of
    /// workers for markets and the same number for accounts.
    pub fn new(workers: usize) -> (r: Self)
        requires
            workers >= 1,
        ensures
            r.wf(),
            r.spec_state().spec_books().len() == 0,
            r.spec_state().spec_markets().len() == 0,
            r.spec_state().spec_results() == Map::<u128, RequestResult>::empty(),
            r.spec_channels().len() == 0,
            r.spec_market_req_id() == 0,
            r.spec_account_req_id() == 0,
    {
        Self {
            state: State::new(),
            market_channel_by_symbol: Vec::new(),
            account_channel_by_id: HashMap::new(),
            market_req_id: 0,
            account_req_id: 0,
            num_market_channels: workers,
            num_account_channels: workers,
        }
    }

    /// Assigns the next market request id, wrapping at the slot capacity.
    fn next_market_request_id(&mut self) -> (r: u128)
        requires
            old(self).market_req_id < REQUEST_SLOT_CAPACITY,
        ensures
            r == next_request_id(old(self).market_req_id),
            r < REQUEST_SLOT_CAPACITY,
            *final(self) == (Exchange { market_req_id: r, ..*old(self) }),
    {
        if self.market_req_id == REQUEST_SLOT_CAPACITY - 1 {
            self.market_req_id = 0;
        }
        self.market_req_id = self.market_req_id + 1;
        self.market_req_id
    }

    /// Assigns the next account request id, wrapping at the slot capacity.
    fn next_account_request_id(&mut self) -> (r: u128)
        requires
            old(self).account_req_id < REQUEST_SLOT_CAPACITY,
        ensures
            r == next_request_id(old(self).account_req_id),
            r < REQUEST_SLOT_CAPACITY,
            *final(self) == (Exchange { account_req_id: r, ..*old(self) }),
    {
        if self.account_req_id == REQUEST_SLOT_CAPACITY - 1 {
            self.account_req_id = 0;
        }
        self.account_req_id = self.account_req_id + 1;
        self.account_req_id
    }

    /// The worker shard a market's requests are routed to; a symbol never
    /// listed has no shard.
    fn get_market_channel_id(&self, symbol: &String) -> (r: Result<usize, String>)
        ensures
            match r {
                Ok(_) => has_key(self.spec_channels(), symbol@),
                Err(e) => !has_key(self.spec_channels(), symbol@) && e@ == "market not found"@,
            },
    {
        let ghost s = self.market_channel_by_symbol@;
        let mut i: usize = 0;
        while i < self.market_channel_by_symbol.len()
            invariant
                s == self.market_channel_by_symbol@,
                i <= s.len(),
                forall|j: int| 0 <= j < i ==> (#[trigger] s[j]).0@ != symbol@,
            decreases s.len() - i,
        {
            let entry = &self.market_channel_by_symbol[i];
            if entry.0 == *symbol {
                return Ok(entry.1);
            }
            i = i + 1;
        }
        proof {
            if has_key(s, symbol@) {
                let w = choose|j: int| 0 <= j < s.len() && (#[trigger] s[j]).0@ == symbol@;
                assert(s[w].0@ != symbol@);
            }
        }
        Err("market not found".to_owned())
    }

    /// The worker shard an account's requests are routed to; an account
    /// without a shard assignment is unknown.
    fn get_account_channel_id(&self, id: u128) -> (r: Result<usize, String>)
        ensures
            match r {
                Ok(c) => self.spec_account_channels().dom().contains(id) && c
                    == self.spec_account_channels()[id],
                Err(e) => !self.spec_account_channels().dom().contains(id) && e@
                    == "account not found"@,
            },
    {
        match self.account_channel_by_id.get(&id) {
            Some(c) => Ok(*c),
            None => Err("account not found".to_owned()),
        }
    }

    /// Process a submission against its order book and encode the outcome:
    /// the assigned order id on success, the failure text otherwise.
    pub fn handle_submit_order(state: &mut State, request: &mut SubmitOrderRequest) -> (r:
        RequestResult)
        requires
            old(state).wf(),
            1 <= old(request).size,
            has_key(old(state).spec_books(), old(request).symbol@) ==> ({
                let b = old(state).spec_books()[index_of_key(
                    old(state).spec_books(),
                    old(request).symbol@,
                )].1;
                &&& b@.last_order_id < u64::MAX
                &&& submit_can_rest(
                    b@,
                    old(request).price,
                    old(request).size,
                    old(request).side,
                    old(request).order_type,
                )
            }),
        ensures
            final(state).wf(),
            final(state).spec_markets() == old(state).spec_markets(),
            final(state).spec_assets() == old(state).spec_assets(),
            final(state).spec_results() == old(state).spec_results(),
            result_view(r) == submit_outcome_view(*old(state), *old(request)),
            final(state).spec_books().len() == old(state).spec_books().len(),
            !has_key(old(state).spec_books(), old(request).symbol@) ==> final(state).spec_books()
                == old(state).spec_books() && *final(request) == *old(request),
            has_key(old(state).spec_books(), old(request).symbol@) ==> ({
                let books = old(state).spec_books();
                let i = index_of_key(books, old(request).symbol@);
                let b = books[i].1;
                let p = old(request).price;
                let s0 = old(request).size;
                let sd = old(request).side;
                let ty = old(request).order_type;
                let b2 = final(state).spec_books()[i].1;
                &&& forall|j: int|
                    0 <= j < books.len() && j != i ==> #[trigger] final(state).spec_books()[j]
                        == books[j]
                &&& final(state).spec_books()[i].0 == books[i].0
                &&& b2.wf()
                &&& if ty == OrderType::Limit && p < b@.min_price {
                    b2 == b && *final(request) == *old(request)
                } else if ty == OrderType::Limit && p >= b@.max_price {
                    b2 == b && *final(request) == *old(request)
                } else {
                    &&& b2@.levels == levels_after_submit(b@, p, s0, sd, ty)
                    &&& b2@.last_order_id == b@.last_order_id + 1
                    &&& b2@.min_price == b@.min_price
                    &&& b2@.max_price == b@.max_price
                    &&& b2@.symbol == b@.symbol
                    &&& final(request).size == (if is_aggressive(b@, p, sd, ty) {
                        swept_leftover(b@, p, s0, sd, ty)
                    } else {
                        s0
                    })
                    &&& final(request).price == (if ty == OrderType::Market {
                        0u64
                    } else {
                        p
                    })
                }
            }),
    {
        let idx_opt = state.find_book(&request.symbol);
        match idx_opt {
            None => Err("order book not found".to_owned()),
            Some(i) => {
                let ghost books = old(state).spec_books();
                let book = state.book_at_mut(i);
                let res = book.submit_order(request);
                proof {
                    lemma_index_of_key(books, old(request).symbol@);
                    assert forall|j: int|
                        0 <= j < state.spec_books().len() implies (
                    #[trigger] state.spec_books()[j]).1.wf() by {
                        if j != i as int {
                            assert(state.spec_books()[j] == books[j]);
                        }
                    }
                    crate::state::lemma_keys_same(books, state.spec_books());
                }
                match res {
                    Ok(id) => {
                        let payload = encode_order_id(id);
                        Ok((RequestType::SubmitOrder, payload))
                    },
                    Err(e) => Err(e),
                }
            },
        }
    }

    /// Process a cancellation against its order book and encode the outcome:
    /// an acknowledgement on success, the failure text otherwise.
    pub fn handle_cancel_order(state: &mut State, request: &CancelOrderRequest) -> (r:
        RequestResult)
        requires
            old(state).wf(),
        ensures
            final(state).wf(),
            final(state).spec_markets() == old(state).spec_markets(),
            final(state).spec_assets() == old(state).spec_assets(),
            final(state).spec_results() == old(state).spec_results(),
            result_view(r) == cancel_outcome_view(*old(state), *request),
            final(state).spec_books().len() == old(state).spec_books().len(),
            !has_key(old(state).spec_books(), request.symbol@) ==> final(state).spec_books() == old(
                state,
            ).spec_books(),
            has_key(old(state).spec_books(), request.symbol@) ==> ({
                let books = old(state).spec_books();
                let i = index_of_key(books, request.symbol@);
                let b = books[i].1;
                let b2 = final(state).spec_books()[i].1;
                &&& forall|j: int|
                    0 <= j < books.len() && j != i ==> #[trigger] final(state).spec_books()[j]
                        == books[j]
                &&& final(state).spec_books()[i].0 == books[i].0
                &&& b2.wf()
                &&& if crate::book_model::cancel_found(b@, request.id) {
                    &&& b2@.levels == crate::book_model::levels_after_cancel(b@, request.id)
                    &&& b2@.price_by_id == b@.price_by_id.remove(request.id)
                    &&& b2@.last_order_id == b@.last_order_id
                    &&& b2@.min_price == b@.min_price
                    &&& b2@.max_price == b@.max_price
                    &&& b2@.symbol == b@.symbol
                } else {
                    b2 == b
                }
            }),
    {
        let idx_opt = state.find_book(&request.symbol);
        match idx_opt {
            None => Err("order book not found".to_owned()),
            Some(i) => {
                let ghost books = old(state).spec_books();
                let book = state.book_at_mut(i);
                let res = book.cancel_order(request);
                proof {
                    lemma_index_of_key(books, request.symbol@);
                    assert forall|j: int|
                        0 <= j < state.spec_books().len() implies (
                    #[trigger] state.spec_books()[j]).1.wf() by {
                        if j != i as int {
                            assert(state.spec_books()[j] == books[j]);
                        }
                    }
                    crate::state::lemma_keys_same(books, state.spec_books());
                }
                match res {
                    Ok(ack) => {
                        let payload = encode_cancel_ack(ack);
                        Ok((RequestType::CancelOrder, payload))
                    },
                    Err(e) => Err(e),
                }
            },
        }
    }

    /// All listed markets, in listing order.
    pub fn get_markets(&self) -> (r: Vec<Market>)
        ensures
            r@.len() == self.spec_state().spec_markets().len(),
            forall|k: int|
                0 <= k < r@.len() ==> (#[trigger] r@[k])@ == self.spec_state().spec_markets()[k].1@,
    {
        let mut r: Vec<Market> = Vec::new();
        let n = self.state.num_markets();
        let mut i: usize = 0;
        while i < n
            invariant
                n as int == self.spec_state().spec_markets().len(),
                i <= n,
                r@.len() == i,
                forall|k: int|
                    0 <= k < i ==> (#[trigger] r@[k])@ == self.spec_state().spec_markets()[k].1@,
            decreases n - i,
        {
            r.push(self.state.market_at(i).clone());
            i = i + 1;
        }
        r
    }

    /// List a new market: reject a symbol already listed, otherwise record
    /// the market, assign it a worker shard round-robin, and pre-allocate its
    /// order book.
    pub fn list_market(&mut self, request: ListMarketRequest) -> (r: Result<Market, String>)
        requires
            old(self).wf(),
            1 <= request.min_price < request.max_price,
            request.max_price - request.min_price <= usize::MAX,
        ensures
            final(self).wf(),
            ({
                let markets = old(self).spec_state().spec_markets();
                if has_key(markets, request.symbol@) {
                    &&& (r matches Err(e) && e@ == "market already exists"@)
                    &&& *final(self) == *old(self)
                } else {
                    &&& (r matches Ok(m) && m@.symbol == request.symbol@ && m@.min_price
                        == request.min_price && m@.max_price == request.max_price)
                    &&& final(self).spec_state().spec_markets().len() == markets.len() + 1
                    &&& final(self).spec_state().spec_books().len() == old(
                        self,
                    ).spec_state().spec_books().len() + 1
                    &&& has_key(final(self).spec_state().spec_books(), request.symbol@)
                    &&& has_key(final(self).spec_channels(), request.symbol@)
                    &&& final(self).spec_channels().len() == old(self).spec_channels().len() + 1
                    &&& ({
                        let nb = final(self).spec_state().spec_books()[old(
                            self,
                        ).spec_state().spec_books().len() as int].1;
                        &&& nb@.symbol == request.symbol@
                        &&& nb@.min_price == request.min_price
                        &&& nb@.max_price == request.max_price
                        &&& nb@.last_order_id == 0
                        &&& forall|i: int| 0 <= i < nb@.levels.len() ==> nb@.levels[i].len() == 0
                    })
                    &&& final(self).spec_state().spec_results() == old(
                        self,
                    ).spec_state().spec_results()
                }
            }),
    {
        match self.state.find_market(&request.symbol) {
            Some(_) => Err("market already exists".to_owned()),
            None => {
                proof {
                    // the book registry is kept in step with the market registry
                    if has_key(self.spec_state().spec_books(), request.symbol@) {
                        let w = choose|i: int|
                            0 <= i < self.spec_state().spec_books().len() && (
                            #[trigger] self.spec_state().spec_books()[i]).0@ == request.symbol@;
                        assert(self.spec_state().spec_markets()[w].0@ == request.symbol@);
                        assert(has_key(self.spec_state().spec_markets(), request.symbol@));
                    }
                }
                let market = Market::new(
                    request.symbol.as_str(),
                    request.max_price,
                    request.min_price,
                );
                let channel_id = self.state.num_markets() % self.num_market_channels;
                self.market_channel_by_symbol.push((request.symbol.clone(), channel_id));
                proof {
                    let s2 = self.market_channel_by_symbol@;
                    assert(s2[s2.len() - 1].0@ == request.symbol@);
                    assert(has_key(s2, request.symbol@));
                }
                let book = OrderBook::new(market.clone());
                self.state.add_market(&request.symbol, market.clone(), book);
                Ok(market)
            },
        }
    }

    /// List a new asset under its chain-qualified identifier; reject an
    /// identifier already listed.
    pub fn list_asset(&mut self, request: ListAssetRequest) -> (r: Result<Asset, String>)
        requires
            old(self).wf(),
        ensures
            final(self).wf(),
            ({
                let id = crate::asset::blockchain_name(request.blockchain) + request.symbol@;
                let assets = old(self).spec_state().spec_assets();
                if has_key(assets, id) {
                    &&& (r matches Err(e) && e@ == "asset already exists"@)
                    &&& *final(self) == *old(self)
                } else {
                    &&& (r matches Ok(a) && a@.blockchain == request.blockchain && a@.symbol
                        == request.symbol@ && a@.decimals == request.decimals)
                    &&& final(self).spec_state().spec_assets().len() == assets.len() + 1
                    &&& final(self).spec_state().spec_books() == old(
                        self,
                    ).spec_state().spec_books()
                }
            }),
    {
        let asset = Asset::new(request.blockchain, request.symbol.as_str(), request.decimals);
        let asset_id = asset.get_id();
        match self.state.find_asset(&asset_id) {
            Some(_) => Err("asset already exists".to_owned()),
            None => {
                let out = asset.clone();
                self.state.add_asset(asset_id, asset);
                Ok(out)
            },
        }
    }

    /// Submit a new order for asynchronous processing: assign a request id,
    /// check the market has a shard, process the order against its book, and
    /// leave the outcome in the result slot under the returned id.
    pub fn submit_order(&mut self, request: SubmitOrderRequest) -> (r: Result<u128, String>)
        requires
            old(self).wf(),
            1 <= request.size,
            has_key(old(self).spec_state().spec_books(), request.symbol@) ==> ({
                let b = old(self).spec_state().spec_books()[index_of_key(
                    old(self).spec_state().spec_books(),
                    request.symbol@,
                )].1;
                &&& b@.last_order_id < u64::MAX
                &&& submit_can_rest(b@, request.price, request.size, request.side, request.order_type)
            }),
        ensures
            final(self).wf(),
            final(self).spec_market_req_id() == next_request_id(old(self).spec_market_req_id()),
            ({
                if !has_key(old(self).spec_channels(), request.symbol@) {
                    &&& (r matches Err(e) && e@ == "market not found"@)
                    &&& final(self).spec_state() == old(self).spec_state()
                } else {
                    let id = next_request_id(old(self).spec_market_req_id());
                    &&& r == Ok::<u128, String>(id)
                    &&& final(self).spec_state().spec_results().dom().contains(id)
                    &&& result_view(final(self).spec_state().spec_results()[id])
                        == submit_outcome_view(old(self).spec_state(), request)
                }
            }),
    {
        let id = self.next_market_request_id();
        match self.get_market_channel_id(&request.symbol) {
            Err(e) => Err(e),
            Ok(_) => {
                let mut req = request;
                let outcome = Exchange::handle_submit_order(&mut self.state, &mut req);
                self.state.save_request_result(id, outcome);
                Ok(id)
            },
        }
    }

    /// Cancel an order: assign a request id, check the market has a shard,
    /// apply the cancellation to its book, and leave the outcome in the
    /// result slot under the returned id.
    pub fn cancel_order(&mut self, request: CancelOrderRequest) -> (r: Result<u128, String>)
        requires
            old(self).wf(),
        ensures
            final(self).wf(),
            final(self).spec_market_req_id() == next_request_id(old(self).spec_market_req_id()),
            ({
                if !has_key(old(self).spec_channels(), request.symbol@) {
                    &&& (r matches Err(e) && e@ == "market not found"@)
                    &&& final(self).spec_state() == old(self).spec_state()
                } else {
                    let id = next_request_id(old(self).spec_market_req_id());
                    &&& r == Ok::<u128, String>(id)
                    &&& final(self).spec_state().spec_results().dom().contains(id)
                    &&& result_view(final(self).spec_state().spec_results()[id])
                        == cancel_outcome_view(old(self).spec_state(), request)
                }
            }),
    {
        let id = self.next_market_request_id();
        match self.get_market_channel_id(&request.symbol) {
            Err(e) => Err(e),
            Ok(_) => {
                let outcome = Exchange::handle_cancel_order(&mut self.state, &request);
                self.state.save_request_result(id, outcome);
                Ok(id)
            },
        }
    }

    /// Credit an account. The ledger is an external collaborator: an account
    /// with a shard assignment is acknowledged, any other is unknown.
    pub fn credit_account(&mut self, request: CreditAccountRequest) -> (r: Result<u128, String>)
        requires
            old(self).wf(),
        ensures
            final(self).wf(),
            final(self).spec_account_req_id() == next_request_id(old(self).spec_account_req_id()),
            ({
                if !old(self).spec_account_channels().dom().contains(request.account_id) {
                    &&& (r matches Err(e) && e@ == "account not found"@)
                    &&& final(self).spec_state() == old(self).spec_state()
                } else {
                    let id = next_request_id(old(self).spec_account_req_id());
                    &&& r == Ok::<u128, String>(id)
                    &&& result_view(final(self).spec_state().spec_results()[id]) == Ok::<
                        (RequestType, Seq<u8>),
                        Seq<char>,
                    >((RequestType::CreditAccount, bool_byte(true)))
                }
            }),
    {
        let id = self.next_account_request_id();
        match self.get_account_channel_id(request.account_id) {
            Err(e) => Err(e),
            Ok(_) => {
                let payload = encode_cancel_ack(true);
                self.state.save_request_result(id, Ok((RequestType::CreditAccount, payload)));
                Ok(id)
            },
        }
    }

    /// Debit an account. The ledger is an external collaborator: an account
    /// with a shard assignment is acknowledged, any other is unknown.
    pub fn debit_account(&mut self, request: CreditAccountRequest) -> (r: Result<u128, String>)
        requires
            old(self).wf(),
        ensures
            final(self).wf(),
            final(self).spec_account_req_id() == next_request_id(old(self).spec_account_req_id()),
            ({
                if !old(self).spec_account_channels().dom().contains(request.account_id) {
                    &&& (r matches Err(e) && e@ == "account not found"@)
                    &&& final(self).spec_state() == old(self).spec_state()
                } else {
                    let id = next_request_id(old(self).spec_account_req_id());
                    &&& r == Ok::<u128, String>(id)
                    &&& result_view(final(self).spec_state().spec_results()[id]) == Ok::<
                        (RequestType, Seq<u8>),
                        Seq<char>,
                    >((RequestType::DebitAccount, bool_byte(true)))
                }
            }),
    {
        let id = self.next_account_request_id();
        match self.get_account_channel_id(request.account_id) {
            Err(e) => Err(e),
            Ok(_) => {
                let payload = encode_cancel_ack(true);
                self.state.save_request_result(id, Ok((RequestType::DebitAccount, payload)));
                Ok(id)
            },
        }
    }

    /// Lock part of an account balance. The ledger is an external
    /// collaborator: an account with a shard assignment is acknowledged.
    pub fn lock_account(&mut self, request: CreditAccountRequest) -> (r: Result<u128, String>)
        requires
            old(self).wf(),
        ensures
            final(self).wf(),
            final(self).spec_account_req_id() == next_request_id(old(self).spec_account_req_id()),
            ({
                if !old(self).spec_account_channels().dom().contains(request.account_id) {
                    &&& (r matches Err(e) && e@ == "account not found"@)
                    &&& final(self).spec_state() == old(self).spec_state()
                } else {
                    let id = next_request_id(old(self).spec_account_req_id());
                    &&& r == Ok::<u128, String>(id)
                    &&& result_view(final(self).spec_state().spec_results()[id]) == Ok::<
                        (RequestType, Seq<u8>),
                        Seq<char>,
                    >((RequestType::LockAccount, bool_byte(true)))
                }
            }),
    {
        let id = self.next_account_request_id();
        match self.get_account_channel_id(request.account_id) {
            Err(e) => Err(e),
            Ok(_) => {
                let payload = encode_cancel_ack(true);
                self.state.save_request_result(id, Ok((RequestType::LockAccount, payload)));
                Ok(id)
            },
        }
    }

    /// Unlock part of an account balance. The ledger is an external
    /// collaborator: an account with a shard assignment is acknowledged.
    pub fn unlock_account(&mut self, request: CreditAccountRequest) -> (r: Result<u128, String>)
        requires
            old(self).wf(),
        ensures
            final(self).wf(),
            final(self).spec_account_req_id() == next_request_id(old(self).spec_account_req_id()),
            ({
                if !old(self).spec_account_channels().dom().contains(request.account_id) {
                    &&& (r matches Err(e) && e@ == "account not found"@)
                    &&& final(self).spec_state() == old(self).spec_state()
                } else {
                    let id = next_request_id(old(self).spec_account_req_id());
                    &&& r == Ok::<u128, String>(id)
                    &&& result_view(final(self).spec_state().spec_results()[id]) == Ok::<
                        (RequestType, Seq<u8>),
                        Seq<char>,
                    >((RequestType::UnlockAccount, bool_byte(true)))
                }
            }),
    {
        let id = self.next_account_request_id();
        match self.get_account_channel_id(request.account_id) {
            Err(e) => Err(e),
            Ok(_) => {
                let payload = encode_cancel_ack(true);
                self.state.save_request_result(id, Ok((RequestType::UnlockAccount, payload)));
                Ok(id)
            },
        }
    }

    /// Collect the outcomes for the given request ids, in input order. The
    /// synchronous core returns `None` when some slot is not yet filled; the
    /// dispatch fabric around the core polls until every slot fills, which is
    /// where the blocking behaviour of result retrieval lives. The request
    /// kind selects the result registry; this core keeps a single one.
    pub fn get_results(&self, request_type: RequestType, request_ids: &Vec<u128>) -> (r: Option<
        Vec<RequestResult>,
    >)
        ensures
            match r {
                Some(out) => out@.len() == request_ids@.len() && forall|k: int|
                    0 <= k < out@.len()
                        ==> self.spec_state().spec_results().dom().contains(
                        #[trigger] request_ids@[k],
                    ) && result_view(out@[k]) == result_view(
                        self.spec_state().spec_results()[request_ids@[k]],
                    ),
                None => exists|k: int|
                    0 <= k < request_ids@.len()
                        && !self.spec_state().spec_results().dom().contains(
                        #[trigger] request_ids@[k],
                    ),
            },
    {
        let _ = request_type;
        let mut out: Vec<RequestResult> = Vec::new();
        let mut i: usize = 0;
        while i < request_ids.len()
            invariant
                i <= request_ids@.len(),
                out@.len() == i,
                forall|k: int|
                    0 <= k < i ==> self.spec_state().spec_results().dom().contains(
                        #[trigger] request_ids@[k],
                    ) && result_view(out@[k]) == result_view(
                        self.spec_state().spec_results()[request_ids@[k]],
                    ),
            decreases request_ids@.len() - i,
        {
            match self.state.get_request_result(request_ids[i]) {
                Some(res) => {
                    out.push(copy_result(res));
                },
                None => {
                    return None;
                },
            }
            i = i + 1;
        }
        Some(out)
    }

    /// The best bid and ask for the given market.
    pub fn get_best_quote(&self, symbol: &String) -> (r: Result<BestQuote, String>)
        requires
            self.wf(),
        ensures
            ({
                let books = self.spec_state().spec_books();
                match r {
                    Ok(q) => has_key(books, symbol@) && ({
                        let b = books[index_of_key(books, symbol@)].1;
                        &&& q.best_bid_price == b@.best_bid_price
                        &&& q.best_bid_size == b@.best_bid_size
                        &&& q.best_ask_price == b@.best_ask_price
                        &&& q.best_ask_size == b@.best_ask_size
                    }),
                    Err(e) => !has_key(books, symbol@) && e@ == "order book not found"@,
                }
            }),
    {
        match self.state.get_order_book_by_symbol(symbol) {
            Ok(book) => Ok(book.get_best_quote()),
            Err(e) => Err(e),
        }
    }

    /// The full open-order snapshot for the given market: bids in descending
    /// price order, then asks in ascending price order, oldest first within
    /// each level.
    pub fn get_orders_by_symbol(&self, symbol: &String) -> (r: Result<Vec<Order>, String>)
        requires
            self.wf(),
        ensures
            ({
                let books = self.spec_state().spec_books();
                match r {
                    Ok(orders) => has_key(books, symbol@) && orders@.map_values(|o: Order| o@)
                        == crate::book_model::book_snapshot(
                        books[index_of_key(books, symbol@)].1@,
                    ),
                    Err(e) => !has_key(books, symbol@) && e@ == "order book not found"@,
                }
            }),
    {
        let res = self.state.get_order_book_by_symbol(symbol);
        match res {
            Ok(book) => {
                proof {
                    lemma_index_of_key(self.spec_state().spec_books(), symbol@);
                }
                Ok(book.get_orders())
            },
            Err(e) => Err(e),
        }
    }

    /// Engine statistics.
    pub fn get_stats() -> ExchangeStats {
        ExchangeStats {  }
    }
}

} // verus!
