//! The process-wide registry: listed markets and assets, one order book per
//! market, and the result-slot map that holds the outcome of each dispatched
//! request until its caller collects it.

use std::collections::HashMap;

use vstd::prelude::*;

use crate::asset::Asset;
use crate::market::Market;
use crate::order_book::OrderBook;
use crate::request::RequestType;

verus! {

/// The outcome of one dispatched request: the request kind and its encoded
/// payload on success, a human-readable message on failure.
pub type RequestResult = Result<(RequestType, Vec<u8>), String>;

/// Mathematical image of a [`RequestResult`].
pub open spec fn result_view(r: RequestResult) -> Result<(RequestType, Seq<u8>), Seq<char>> {
    match r {
        Ok((t, payload)) => Ok((t, payload@)),
        Err(e) => Err(e@),
    }
}

/// The position of the first entry with the given key, or -1 if none.
pub open spec fn index_of_key<V>(s: Seq<(String, V)>, key: Seq<char>) -> int
    decreases s.len(),
{
    if s.len() == 0 {
        -1
    } else if s[0].0@ == key {
        0
    } else if index_of_key(s.skip(1), key) == -1 {
        -1
    } else {
        index_of_key(s.skip(1), key) + 1
    }
}

/// Whether the registry holds an entry under the given key.
pub open spec fn has_key<V>(s: Seq<(String, V)>, key: Seq<char>) -> bool {
    exists|i: int| 0 <= i < s.len() && (#[trigger] s[i]).0@ == key
}

/// No two entries share a key.
pub open spec fn keys_unique<V>(s: Seq<(String, V)>) -> bool {
    forall|i: int, j: int| 0 <= i < j < s.len() ==> (#[trigger] s[i]).0@ != (#[trigger] s[j]).0@
}

/// Where the first entry with a key stands, if anywhere.
pub proof fn lemma_index_of_key<V>(s: Seq<(String, V)>, key: Seq<char>)
    ensures
        has_key(s, key) <==> 0 <= index_of_key(s, key) < s.len(),
        has_key(s, key) ==> s[index_of_key(s, key)].0@ == key,
        !has_key(s, key) ==> index_of_key(s, key) == -1,
    decreases s.len(),
{
    if s.len() == 0 {
    } else if s[0].0@ == key {
    } else {
        lemma_index_of_key(s.skip(1), key);
        assert(forall|j: int| 0 <= j < s.skip(1).len() ==> s.skip(1)[j] == s[j + 1]);
        if has_key(s.skip(1), key) {
            assert(has_key(s, key));
        }
        if has_key(s, key) {
            let w = choose|i: int| 0 <= i < s.len() && (#[trigger] s[i]).0@ == key;
            assert(s.skip(1)[w - 1] == s[w]);
            assert(has_key(s.skip(1), key));
        }
    }
}

/// Appending an entry under a fresh key keeps keys unique and extends the
/// lookup relation by exactly that key.
pub proof fn lemma_key_append<V>(s: Seq<(String, V)>, e: (String, V))
    requires
        !has_key(s, e.0@),
    ensures
        forall|k: Seq<char>| k != e.0@ ==> has_key(s.push(e), k) == has_key(s, k),
        has_key(s.push(e), e.0@),
        keys_unique(s) ==> keys_unique(s.push(e)),
{
    let s2 = s.push(e);
    assert(s2[s.len() as int] == e);
    assert forall|k: Seq<char>| k != e.0@ implies has_key(s2, k) == has_key(s, k) by {
        if has_key(s, k) {
            let w = choose|i: int| 0 <= i < s.len() && (#[trigger] s[i]).0@ == k;
            assert(s2[w] == s[w]);
        }
        if has_key(s2, k) {
            let w = choose|i: int| 0 <= i < s2.len() && (#[trigger] s2[i]).0@ == k;
            assert(w < s.len());
            assert(s2[w] == s[w]);
        }
    }
    if keys_unique(s) {
        assert forall|i: int, j: int|
            0 <= i < j < s2.len() implies (#[trigger] s2[i]).0@ != (#[trigger] s2[j]).0@ by {
            if j == s.len() {
                assert(s2[i] == s[i]);
                assert(has_key(s, s[i].0@));
            } else {
                assert(s2[i] == s[i]);
                assert(s2[j] == s[j]);
            }
        }
    }
}

/// The process-wide registry of markets, assets, order books and request
/// outcomes. In the dispatch fabric each book is mutated by exactly one
/// worker; this registry is that single-writer state.
pub struct State {
    markets: Vec<(String, Market)>,
    assets: Vec<(String, Asset)>,
    order_books: Vec<(String, OrderBook)>,
    request_results: HashMap<u128, RequestResult>,
}

impl State {
    /// The listed markets, in listing order.
    pub closed spec fn spec_markets(&self) -> Seq<(String, Market)> {
        self.markets@
    }

    /// The listed assets, in listing order.
    pub closed spec fn spec_assets(&self) -> Seq<(String, Asset)> {
        self.assets@
    }

    /// The order books, in listing order.
    pub closed spec fn spec_books(&self) -> Seq<(String, OrderBook)> {
        self.order_books@
    }

    /// The filled result slots.
    pub closed spec fn spec_results(&self) -> Map<u128, RequestResult> {
        self.request_results@
    }

    /// Internal invariant: unique keys everywhere and a well-formed book per
    /// listed market.
    pub open spec fn wf(&self) -> bool {
        &&& keys_unique(self.spec_markets())
        &&& keys_unique(self.spec_assets())
        &&& keys_unique(self.spec_books())
        &&& forall|i: int|
            0 <= i < self.spec_books().len() ==> (#[trigger] self.spec_books()[i]).1.wf()
    }

    /// Create the registry, empty.
    pub fn new() -> (r: Self)
        ensures
            r.wf(),
            r.spec_markets().len() == 0,
            r.spec_assets().len() == 0,
            r.spec_books().len() == 0,
            r.spec_results() == Map::<u128, RequestResult>::empty(),
    {
        Self {
            markets: Vec::new(),
            assets: Vec::new(),
            order_books: Vec::new(),
            request_results: HashMap::new(),
        }
    }

    /// The position of the book for a symbol, if the market is listed.
    pub(crate) fn find_book(&self, symbol: &String) -> (r: Option<usize>)
        ensures
            match r {
                Some(i) => (i as int) == index_of_key(self.spec_books(), symbol@) && (i as int)
                    < self.spec_books().len() && self.spec_books()[i as int].0@ == symbol@,
                None => !has_key(self.spec_books(), symbol@),
            },
    {
        let ghost s = self.order_books@;
        proof {
            lemma_index_of_key(s, symbol@);
        }
        let mut i: usize = 0;
        while i < self.order_books.len()
            invariant
                s == self.order_books@,
                i <= s.len(),
                forall|j: int| 0 <= j < i ==> (#[trigger] s[j]).0@ != symbol@,
            decreases s.len() - i,
        {
            let entry = &self.order_books[i];
            if entry.0 == *symbol {
                proof {
                    assert(s[i as int].0@ == symbol@);
                    assert(has_key(s, symbol@));
                    lemma_index_of_key_first(s, symbol@, i as int);
                    lemma_index_of_key(s, symbol@);
                    let w = index_of_key(s, symbol@);
                    assert(s[w].0@ == symbol@);
                    if w < i as int {
                        assert(s[w].0@ != symbol@);
                    }
                    assert(w == i as int);
                }
                return Some(i);
            }
            i = i + 1;
        }
        proof {
            if has_key(s, symbol@) {
                let w = choose|j: int| 0 <= j < s.len() && (#[trigger] s[j]).0@ == symbol@;
                assert(s[w].0@ != symbol@);
            }
        }
        None
    }

    /// Get the order book for the given symbol, read-only.
    pub fn get_order_book_by_symbol(&self, symbol: &String) -> (r: Result<&OrderBook, String>)
        ensures
            match r {
                Ok(b) => has_key(self.spec_books(), symbol@) && *b == self.spec_books()[index_of_key(
                    self.spec_books(),
                    symbol@,
                )].1,
                Err(e) => !has_key(self.spec_books(), symbol@) && e@ == "order book not found"@,
            },
    {
        match self.find_book(symbol) {
            Some(i) => Ok(&self.order_books[i].1),
            None => Err("order book not found".to_owned()),
        }
    }

    /// Mutable access to the book at a known position.
    pub(crate) fn book_at_mut(&mut self, i: usize) -> (r: &mut OrderBook)
        requires
            (i as int) < old(self).spec_books().len(),
        ensures
            *r == old(self).spec_books()[i as int].1,
            final(self).spec_books() == old(self).spec_books().update(
                i as int,
                (old(self).spec_books()[i as int].0, *final(r)),
            ),
            final(self).spec_markets() == old(self).spec_markets(),
            final(self).spec_assets() == old(self).spec_assets(),
            final(self).spec_results() == old(self).spec_results(),
    {
        let entry = &mut self.order_books[i];
        &mut entry.1
    }

    /// Append a market and its freshly created book under an unlisted symbol.
    pub fn add_market(&mut self, symbol: &String, market: Market, book: OrderBook)
        requires
            old(self).wf(),
            !has_key(old(self).spec_books(), symbol@),
            !has_key(old(self).spec_markets(), symbol@),
            book.wf(),
        ensures
            final(self).wf(),
            final(self).spec_markets().len() == old(self).spec_markets().len() + 1,
            final(self).spec_markets()[old(self).spec_markets().len() as int].0@ == symbol@,
            final(self).spec_markets()[old(self).spec_markets().len() as int].1 == market,
            forall|j: int|
                0 <= j < old(self).spec_markets().len() ==> #[trigger] final(self).spec_markets()[j]
                    == old(self).spec_markets()[j],
            final(self).spec_books().len() == old(self).spec_books().len() + 1,
            final(self).spec_books()[old(self).spec_books().len() as int].1 == book,
            final(self).spec_books()[old(self).spec_books().len() as int].0@ == symbol@,
            forall|j: int|
                0 <= j < old(self).spec_books().len() ==> #[trigger] final(self).spec_books()[j]
                    == old(self).spec_books()[j],
            final(self).spec_assets() == old(self).spec_assets(),
            final(self).spec_results() == old(self).spec_results(),
            has_key(final(self).spec_books(), symbol@),
    {
        let key_m = symbol.clone();
        let key_b = symbol.clone();
        proof {
            lemma_key_append(self.markets@, (key_m, market));
            lemma_key_append(self.order_books@, (key_b, book));
        }
        self.markets.push((key_m, market));
        self.order_books.push((key_b, book));
        proof {
            let s2 = self.order_books@;
            assert(s2[old(self).spec_books().len() as int] == s2.last());
            assert forall|i: int| 0 <= i < s2.len() implies (#[trigger] s2[i]).1.wf() by {
                if i < old(self).spec_books().len() {
                    assert(s2[i] == old(self).spec_books()[i]);
                }
            }
        }
    }

    /// The position of the market entry for a symbol, if listed.
    pub(crate) fn find_market(&self, symbol: &String) -> (r: Option<usize>)
        ensures
            match r {
                Some(i) => (i as int) < self.spec_markets().len() && self.spec_markets()[i as int].0@
                    == symbol@,
                None => !has_key(self.spec_markets(), symbol@),
            },
    {
        let ghost s = self.markets@;
        let mut i: usize = 0;
        while i < self.markets.len()
            invariant
                s == self.markets@,
                i <= s.len(),
                forall|j: int| 0 <= j < i ==> (#[trigger] s[j]).0@ != symbol@,
            decreases s.len() - i,
        {
            let entry = &self.markets[i];
            if entry.0 == *symbol {
                return Some(i);
            }
            i = i + 1;
        }
        proof {
            if has_key(s, symbol@) {
                let w = choose|j: int| 0 <= j < s.len() && (#[trigger] s[j]).0@ == symbol@;
                assert(s[w].0@ != symbol@);
            }
        }
        None
    }

    /// The number of listed markets.
    pub fn num_markets(&self) -> (r: usize)
        ensures
            r as int == self.spec_markets().len(),
    {
        self.markets.len()
    }

    /// The market at a listing position.
    pub fn market_at(&self, i: usize) -> (r: &Market)
        requires
            (i as int) < self.spec_markets().len(),
        ensures
            *r == self.spec_markets()[i as int].1,
    {
        &self.markets[i].1
    }

    /// The position of the asset entry for an asset id, if listed.
    pub(crate) fn find_asset(&self, asset_id: &String) -> (r: Option<usize>)
        ensures
            match r {
                Some(i) => (i as int) < self.spec_assets().len() && self.spec_assets()[i as int].0@
                    == asset_id@,
                None => !has_key(self.spec_assets(), asset_id@),
            },
    {
        let ghost s = self.assets@;
        let mut i: usize = 0;
        while i < self.assets.len()
            invariant
                s == self.assets@,
                i <= s.len(),
                forall|j: int| 0 <= j < i ==> (#[trigger] s[j]).0@ != asset_id@,
            decreases s.len() - i,
        {
            let entry = &self.assets[i];
            if entry.0 == *asset_id {
                return Some(i);
            }
            i = i + 1;
        }
        proof {
            if has_key(s, asset_id@) {
                let w = choose|j: int| 0 <= j < s.len() && (#[trigger] s[j]).0@ == asset_id@;
                assert(s[w].0@ != asset_id@);
            }
        }
        None
    }

    /// Append an asset under an unlisted asset id.
    pub(crate) fn add_asset(&mut self, asset_id: String, asset: Asset)
        requires
            old(self).wf(),
            !has_key(old(self).spec_assets(), asset_id@),
        ensures
            final(self).wf(),
            final(self).spec_assets().len() == old(self).spec_assets().len() + 1,
            final(self).spec_assets()[old(self).spec_assets().len() as int].1 == asset,
            final(self).spec_assets()[old(self).spec_assets().len() as int].0@ == asset_id@,
            forall|j: int|
                0 <= j < old(self).spec_assets().len() ==> #[trigger] final(self).spec_assets()[j]
                    == old(self).spec_assets()[j],
            final(self).spec_markets() == old(self).spec_markets(),
            final(self).spec_books() == old(self).spec_books(),
            final(self).spec_results() == old(self).spec_results(),
    {
        proof {
            lemma_key_append(self.assets@, (asset_id, asset));
        }
        self.assets.push((asset_id, asset));
    }

    /// Save a request outcome under its request id.
    pub fn save_request_result(&mut self, request_id: u128, result: RequestResult)
        ensures
            final(self).spec_results() == old(self).spec_results().insert(request_id, result),
            final(self).spec_markets() == old(self).spec_markets(),
            final(self).spec_assets() == old(self).spec_assets(),
            final(self).spec_books() == old(self).spec_books(),
            old(self).wf() ==> final(self).wf(),
    {
        self.request_results.insert(request_id, result);
    }

    /// Read the result slot for a request id, if it has been filled.
    pub fn get_request_result(&self, request_id: u128) -> (r: Option<&RequestResult>)
        ensures
            match r {
                Some(res) => self.spec_results().dom().contains(request_id) && *res
                    == self.spec_results()[request_id],
                None => !self.spec_results().dom().contains(request_id),
            },
    {
        self.request_results.get(&request_id)
    }
}

/// Two registries with the same keys in the same places agree on key
/// uniqueness and on every lookup.
pub proof fn lemma_keys_same<V>(s1: Seq<(String, V)>, s2: Seq<(String, V)>)
    requires
        s1.len() == s2.len(),
        forall|j: int| 0 <= j < s1.len() ==> (#[trigger] s1[j]).0@ == (#[trigger] s2[j]).0@,
    ensures
        keys_unique(s1) == keys_unique(s2),
        forall|k: Seq<char>| #[trigger] has_key(s1, k) == has_key(s2, k),
        forall|k: Seq<char>| #[trigger] index_of_key(s1, k) == index_of_key(s2, k),
    decreases s1.len(),
{
    assert forall|k: Seq<char>| #[trigger] has_key(s1, k) == has_key(s2, k) by {
        if has_key(s1, k) {
            let w = choose|i: int| 0 <= i < s1.len() && (#[trigger] s1[i]).0@ == k;
            assert(s2[w].0@ == k);
        }
        if has_key(s2, k) {
            let w = choose|i: int| 0 <= i < s2.len() && (#[trigger] s2[i]).0@ == k;
            assert(s1[w].0@ == k);
        }
    }
    assert(keys_unique(s1) == keys_unique(s2)) by {
        if keys_unique(s1) {
            assert forall|i: int, j: int|
                0 <= i < j < s2.len() implies (#[trigger] s2[i]).0@ != (#[trigger] s2[j]).0@ by {
                assert(s1[i].0@ != s1[j].0@);
            }
        }
        if keys_unique(s2) {
            assert forall|i: int, j: int|
                0 <= i < j < s1.len() implies (#[trigger] s1[i]).0@ != (#[trigger] s1[j]).0@ by {
                assert(s2[i].0@ != s2[j].0@);
            }
        }
    }
    if s1.len() > 0 {
        assert(forall|j: int| 0 <= j < s1.skip(1).len() ==> s1.skip(1)[j] == s1[j + 1]);
        assert(forall|j: int| 0 <= j < s2.skip(1).len() ==> s2.skip(1)[j] == s2[j + 1]);
        lemma_keys_same(s1.skip(1), s2.skip(1));
        assert forall|k: Seq<char>| #[trigger] index_of_key(s1, k) == index_of_key(s2, k) by {
            assert(index_of_key(s1.skip(1), k) == index_of_key(s2.skip(1), k));
            assert(s1[0].0@ == s2[0].0@);
        }
    }
}

/// If some entry at `i` carries the key, the first entry with that key is at
/// or before `i`.
pub proof fn lemma_index_of_key_first<V>(s: Seq<(String, V)>, key: Seq<char>, i: int)
    requires
        0 <= i < s.len(),
        s[i].0@ == key,
    ensures
        0 <= index_of_key(s, key) <= i,
    decreases s.len(),
{
    if s[0].0@ == key {
    } else {
        assert(forall|j: int| 0 <= j < s.skip(1).len() ==> s.skip(1)[j] == s[j + 1]);
        lemma_index_of_key_first(s.skip(1), key, i - 1);
        lemma_index_of_key(s.skip(1), key);
        assert(s.skip(1)[i - 1] == s[i]);
        assert(has_key(s.skip(1), key));
    }
}

} // verus!
