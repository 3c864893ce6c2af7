use matching_engine::account::Account;
use matching_engine::asset::Asset;
use matching_engine::asset::Blockchain;
use matching_engine::codec::decode_cancel_ack;
use matching_engine::codec::decode_order_id;
use matching_engine::codec::encode_cancel_ack;
use matching_engine::codec::encode_order_id;
use matching_engine::exchange::Exchange;
use matching_engine::market::Market;
use matching_engine::order_book::OrderBook;
use matching_engine::request::CancelOrderRequest;
use matching_engine::request::CreditAccountRequest;
use matching_engine::request::ListAssetRequest;
use matching_engine::request::ListMarketRequest;
use matching_engine::request::RequestType;
use matching_engine::request::SubmitOrderRequest;
use matching_engine::OrderType;
use matching_engine::Side;

fn submit_req(symbol: &str, price: u64, size: u64, order_type: OrderType, side: Side) -> SubmitOrderRequest {
    SubmitOrderRequest {
        symbol: symbol.to_string(),
        price,
        size,
        side,
        order_type,
        signature: String::new(),
        nonce: 0,
        public_key: String::new(),
    }
}

fn cancel_req(symbol: &str, id: u64) -> CancelOrderRequest {
    CancelOrderRequest {
        symbol: symbol.to_string(),
        id,
        signature: String::new(),
        nonce: 0,
        public_key: String::new(),
    }
}

fn list_market_req(symbol: &str, max_price: u64, min_price: u64) -> ListMarketRequest {
    ListMarketRequest {
        symbol: symbol.to_string(),
        max_price,
        min_price,
        settlement_asset: "USD".to_string(),
        signature: String::new(),
        nonce: 0,
        public_key: String::new(),
    }
}

#[test]
fn test_varint_payload_round_trip() {
    assert_eq!(encode_order_id(5), vec![5u8]);
    assert_eq!(encode_order_id(250), vec![250u8]);
    assert_eq!(encode_order_id(300), vec![251u8, 44, 1]);
    assert_eq!(encode_order_id(70000), vec![252u8, 112, 17, 1, 0]);
    assert_eq!(decode_order_id(&vec![5u8]), Some(5));
    assert_eq!(decode_order_id(&encode_order_id(123456789)), Some(123456789));
    assert_eq!(encode_cancel_ack(true), vec![1u8]);
    assert_eq!(encode_cancel_ack(false), vec![0u8]);
    assert_eq!(decode_cancel_ack(&vec![1u8]), Some(true));
    assert_eq!(decode_cancel_ack(&vec![0u8]), Some(false));
}

#[test]
fn test_new_book_has_sentinel_quotes() {
    let market = Market::new("ETHUSD", 500, 10);
    let book = OrderBook::new(market);
    assert_eq!(book.get_best_bid_price(), 10);
    assert_eq!(book.get_best_bid_size(), 0);
    assert_eq!(book.get_best_ask_price(), 500);
    assert_eq!(book.get_best_ask_size(), 0);
    assert_eq!(book.get_orders().len(), 0);
}

#[test]
fn test_order_ids_are_contiguous() {
    let market = Market::new("BTCUSD", 10_000, 1);
    let mut book = OrderBook::new(market.clone());
    let a = book
        .submit_order(&mut submit_req(market.get_symbol(), 50, 1, OrderType::Limit, Side::Buy))
        .unwrap();
    let b = book
        .submit_order(&mut submit_req(market.get_symbol(), 60, 2, OrderType::Limit, Side::Sell))
        .unwrap();
    let c = book
        .submit_order(&mut submit_req(market.get_symbol(), 55, 3, OrderType::Limit, Side::Buy))
        .unwrap();
    assert_eq!(a, 1);
    assert_eq!(b, 2);
    assert_eq!(c, 3);
}

#[test]
fn test_fifo_within_level() {
    let market = Market::new("BTCUSD", 10_000, 1);
    let mut book = OrderBook::new(market.clone());
    let first = book
        .submit_order(&mut submit_req(market.get_symbol(), 70, 4, OrderType::Limit, Side::Sell))
        .unwrap();
    let second = book
        .submit_order(&mut submit_req(market.get_symbol(), 70, 6, OrderType::Limit, Side::Sell))
        .unwrap();
    // an aggressor for exactly the first order's size consumes it completely
    // before touching the younger order
    book.submit_order(&mut submit_req(market.get_symbol(), 70, 4, OrderType::Limit, Side::Buy))
        .unwrap();
    let orders = book.get_orders();
    assert_eq!(orders.len(), 1);
    assert_eq!(orders.get(0).unwrap().get_id(), second);
    assert_eq!(orders.get(0).unwrap().get_remaining(), 6);
    assert!(orders.get(0).unwrap().get_id() != first);
    // a further aggressor reduces the younger order in place
    book.submit_order(&mut submit_req(market.get_symbol(), 70, 2, OrderType::Limit, Side::Buy))
        .unwrap();
    let orders = book.get_orders();
    assert_eq!(orders.len(), 1);
    assert_eq!(orders.get(0).unwrap().get_id(), second);
    assert_eq!(orders.get(0).unwrap().get_remaining(), 4);
    assert_eq!(orders.get(0).unwrap().get_size(), 6);
}

#[test]
fn test_full_match_leaves_both_sides_empty() {
    let market = Market::new("BTCUSD", 10_000, 1);
    let mut book = OrderBook::new(market.clone());
    book.submit_order(&mut submit_req(market.get_symbol(), 80, 7, OrderType::Limit, Side::Sell))
        .unwrap();
    book.submit_order(&mut submit_req(market.get_symbol(), 80, 7, OrderType::Limit, Side::Buy))
        .unwrap();
    assert_eq!(book.get_side_of_book(Side::Buy).len(), 0);
    assert_eq!(book.get_side_of_book(Side::Sell).len(), 0);
    assert_eq!(book.get_best_bid_price(), 1);
    assert_eq!(book.get_best_bid_size(), 0);
    assert_eq!(book.get_best_ask_price(), 10_000);
    assert_eq!(book.get_best_ask_size(), 0);
    assert_eq!(book.get_orders().len(), 0);
}

#[test]
fn test_cancel_at_top_of_book() {
    let market = Market::new("BTCUSD", 10_000, 1);
    let mut book = OrderBook::new(market.clone());
    let id = book
        .submit_order(&mut submit_req(market.get_symbol(), 100, 100, OrderType::Limit, Side::Buy))
        .unwrap();
    let res = book.cancel_order(&cancel_req(market.get_symbol(), id));
    assert_eq!(res, Ok(true));
    assert_eq!(book.get_side_of_book(Side::Buy).len(), 0);
    assert_eq!(book.get_best_bid_price(), market.get_min_price());
    assert_eq!(book.get_best_bid_size(), 0);
}

#[test]
fn test_second_cancel_reports_order_not_found() {
    let market = Market::new("BTCUSD", 10_000, 1);
    let mut book = OrderBook::new(market.clone());
    let id = book
        .submit_order(&mut submit_req(market.get_symbol(), 120, 5, OrderType::Limit, Side::Sell))
        .unwrap();
    assert_eq!(book.cancel_order(&cancel_req(market.get_symbol(), id)), Ok(true));
    let res = book.cancel_order(&cancel_req(market.get_symbol(), id));
    assert_eq!(res.unwrap_err(), "order not found");
}

#[test]
fn test_failed_cancel_leaves_book_unchanged() {
    let market = Market::new("BTCUSD", 10_000, 1);
    let mut book = OrderBook::new(market.clone());
    book.submit_order(&mut submit_req(market.get_symbol(), 90, 3, OrderType::Limit, Side::Buy))
        .unwrap();
    book.submit_order(&mut submit_req(market.get_symbol(), 95, 4, OrderType::Limit, Side::Sell))
        .unwrap();
    let before_orders: Vec<(u64, u64, u64)> = book
        .get_orders()
        .iter()
        .map(|o| (o.get_id(), o.get_price(), o.get_remaining()))
        .collect();
    let before_quote = (
        book.get_best_bid_price(),
        book.get_best_bid_size(),
        book.get_best_ask_price(),
        book.get_best_ask_size(),
    );
    let res = book.cancel_order(&cancel_req(market.get_symbol(), 999));
    assert_eq!(res.unwrap_err(), "order not found");
    let after_orders: Vec<(u64, u64, u64)> = book
        .get_orders()
        .iter()
        .map(|o| (o.get_id(), o.get_price(), o.get_remaining()))
        .collect();
    let after_quote = (
        book.get_best_bid_price(),
        book.get_best_bid_size(),
        book.get_best_ask_price(),
        book.get_best_ask_size(),
    );
    assert_eq!(before_orders, after_orders);
    assert_eq!(before_quote, after_quote);
}

#[test]
fn test_market_order_on_empty_opposite_side_is_a_no_op() {
    let market = Market::new("BTCUSD", 10_000, 1);
    let mut book = OrderBook::new(market.clone());
    book.submit_order(&mut submit_req(market.get_symbol(), 90, 3, OrderType::Limit, Side::Buy))
        .unwrap();
    // no asks rest, so a market buy cannot trade and its size is dropped
    book.submit_order(&mut submit_req(market.get_symbol(), 0, 5, OrderType::Market, Side::Buy))
        .unwrap();
    assert_eq!(book.get_best_bid_price(), 90);
    assert_eq!(book.get_best_bid_size(), 3);
    assert_eq!(book.get_best_ask_price(), 10_000);
    assert_eq!(book.get_best_ask_size(), 0);
    assert_eq!(book.get_orders().len(), 1);
}

#[test]
fn test_snapshot_lists_open_orders_in_book_order() {
    let market = Market::new("BTCUSD", 10_000, 1);
    let mut book = OrderBook::new(market.clone());
    book.submit_order(&mut submit_req(market.get_symbol(), 99, 1, OrderType::Limit, Side::Buy))
        .unwrap();
    book.submit_order(&mut submit_req(market.get_symbol(), 101, 2, OrderType::Limit, Side::Buy))
        .unwrap();
    book.submit_order(&mut submit_req(market.get_symbol(), 101, 3, OrderType::Limit, Side::Buy))
        .unwrap();
    book.submit_order(&mut submit_req(market.get_symbol(), 104, 4, OrderType::Limit, Side::Sell))
        .unwrap();
    book.submit_order(&mut submit_req(market.get_symbol(), 102, 5, OrderType::Limit, Side::Sell))
        .unwrap();
    let orders = book.get_orders();
    // bids descending by price, oldest first within a level, then asks
    // ascending by price; every order open with its full unfilled part
    let listed: Vec<(u64, u64)> = orders.iter().map(|o| (o.get_price(), o.get_remaining())).collect();
    assert_eq!(listed, vec![(101, 2), (101, 3), (99, 1), (102, 5), (104, 4)]);
    for o in orders.iter() {
        assert!(o.get_remaining() > 0);
        assert!(o.get_remaining() <= o.get_size());
    }
}

#[test]
fn test_exchange_round_trip() {
    let mut exchange = Exchange::new(2);
    let listed = exchange.list_market(list_market_req("BTCUSD", 10_000, 1));
    assert!(listed.is_ok());
    let dup = exchange.list_market(list_market_req("BTCUSD", 10_000, 1));
    assert_eq!(dup.unwrap_err(), "market already exists");
    assert_eq!(exchange.get_markets().len(), 1);

    let r1 = exchange.submit_order(submit_req("BTCUSD", 100, 10, OrderType::Limit, Side::Buy)).unwrap();
    let r2 = exchange.submit_order(submit_req("BTCUSD", 105, 4, OrderType::Limit, Side::Sell)).unwrap();
    let results = exchange.get_results(RequestType::SubmitOrder, &vec![r1, r2]).unwrap();
    assert_eq!(results.len(), 2);
    let (kind1, payload1) = results[0].as_ref().unwrap();
    assert!(matches!(kind1, RequestType::SubmitOrder));
    assert_eq!(decode_order_id(payload1), Some(1));
    let (_, payload2) = results[1].as_ref().unwrap();
    assert_eq!(decode_order_id(payload2), Some(2));

    let quote = exchange.get_best_quote(&"BTCUSD".to_string()).unwrap();
    assert_eq!(quote.best_bid_price, 100);
    assert_eq!(quote.best_bid_size, 10);
    assert_eq!(quote.best_ask_price, 105);
    assert_eq!(quote.best_ask_size, 4);

    let orders = exchange.get_orders_by_symbol(&"BTCUSD".to_string()).unwrap();
    assert_eq!(orders.len(), 2);

    let rc = exchange.cancel_order(cancel_req("BTCUSD", 1)).unwrap();
    let results = exchange.get_results(RequestType::CancelOrder, &vec![rc]).unwrap();
    let (kind, payload) = results[0].as_ref().unwrap();
    assert!(matches!(kind, RequestType::CancelOrder));
    assert_eq!(decode_cancel_ack(payload), Some(true));

    let rc2 = exchange.cancel_order(cancel_req("BTCUSD", 1)).unwrap();
    let results = exchange.get_results(RequestType::CancelOrder, &vec![rc2]).unwrap();
    assert_eq!(results[0].as_ref().unwrap_err(), "order not found");
}

#[test]
fn test_exchange_reports_validation_errors_in_result_slot() {
    let mut exchange = Exchange::new(1);
    exchange.list_market(list_market_req("BTCUSD", 10_000, 50)).unwrap();
    let below = exchange.submit_order(submit_req("BTCUSD", 10, 10, OrderType::Limit, Side::Buy)).unwrap();
    let above = exchange.submit_order(submit_req("BTCUSD", 1_000_000_000, 10, OrderType::Limit, Side::Buy)).unwrap();
    let results = exchange.get_results(RequestType::SubmitOrder, &vec![below, above]).unwrap();
    assert_eq!(results[0].as_ref().unwrap_err(), "order price is below min for market");
    assert_eq!(results[1].as_ref().unwrap_err(), "order price is above max for market");
}

#[test]
fn test_exchange_unknown_market() {
    let mut exchange = Exchange::new(1);
    let res = exchange.submit_order(submit_req("NOPE", 10, 1, OrderType::Limit, Side::Buy));
    assert_eq!(res.unwrap_err(), "market not found");
    let res = exchange.get_best_quote(&"NOPE".to_string());
    assert_eq!(res.unwrap_err(), "order book not found");
    let res = exchange.get_orders_by_symbol(&"NOPE".to_string());
    assert_eq!(res.unwrap_err(), "order book not found");
}

#[test]
fn test_account_requests_need_a_known_account() {
    let mut exchange = Exchange::new(1);
    let req = CreditAccountRequest {
        account_id: 7,
        asset: "EthereumUSDC".to_string(),
        amount: 10,
        signature: String::new(),
        nonce: 0,
        public_key: String::new(),
    };
    assert_eq!(exchange.credit_account(req).unwrap_err(), "account not found");
}

#[test]
fn test_list_asset() {
    let mut exchange = Exchange::new(1);
    let req = ListAssetRequest {
        blockchain: Blockchain::Ethereum,
        symbol: "USDC".to_string(),
        decimals: 6,
        signature: String::new(),
        nonce: 0,
        public_key: String::new(),
    };
    let listed = exchange.list_asset(req);
    assert!(listed.is_ok());
    assert_eq!(listed.unwrap().get_id(), "EthereumUSDC");
    let again = ListAssetRequest {
        blockchain: Blockchain::Ethereum,
        symbol: "USDC".to_string(),
        decimals: 6,
        signature: String::new(),
        nonce: 0,
        public_key: String::new(),
    };
    assert_eq!(exchange.list_asset(again).unwrap_err(), "asset already exists");
}

#[test]
fn test_asset_id_combines_chain_and_symbol() {
    let a = Asset::new(Blockchain::Arbitrum, "WETH", 18);
    assert_eq!(a.get_id(), "ArbitrumWETH");
}

#[test]
fn test_account_operations_acknowledge() {
    let mut account = Account::new(1, "k", 0, 0, 0, "EthereumUSDC");
    account.set_id(2);
    assert_eq!(account.credit(5), Ok(true));
    assert_eq!(account.debit(5), Ok(true));
    assert_eq!(account.lock(5), Ok(true));
    assert_eq!(account.unlock(5), Ok(true));
}

#[test]
fn test_market_getters() {
    let market = Market::new("SOLUSD", 2_000, 3);
    assert_eq!(market.get_symbol(), "SOLUSD");
    assert_eq!(market.get_min_price(), 3);
    assert_eq!(market.get_max_price(), 2_000);
}

#[test]
fn test_get_bids_and_asks() {
    let market = Market::new("BTCUSD", 10_000, 1);
    let mut book = OrderBook::new(market.clone());
    book.submit_order(&mut submit_req(market.get_symbol(), 40, 1, OrderType::Limit, Side::Buy))
        .unwrap();
    book.submit_order(&mut submit_req(market.get_symbol(), 42, 2, OrderType::Limit, Side::Buy))
        .unwrap();
    book.submit_order(&mut submit_req(market.get_symbol(), 45, 3, OrderType::Limit, Side::Sell))
        .unwrap();
    let bids = book.get_bids();
    let asks = book.get_asks();
    assert_eq!(bids.len(), 2);
    assert_eq!(bids[0].get_price(), 42);
    assert_eq!(bids[0].get_size(), 2);
    assert_eq!(bids[1].get_price(), 40);
    assert_eq!(asks.len(), 1);
    assert_eq!(asks[0].get_price(), 45);
    assert_eq!(asks[0].get_size(), 3);
}
