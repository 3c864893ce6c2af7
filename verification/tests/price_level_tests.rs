use matching_engine::price_level::PriceLevel;
use matching_engine::OrderType;
use matching_engine::Side;

#[test]
fn price_level_test_test_new() {
    let price_level = PriceLevel::new(100);
    assert_eq!(price_level.get_price(), 100);
    assert_eq!(price_level.get_size(), 0);
}

#[test]
fn test_add_order() {
    let mut price_level = PriceLevel::new(100);
    price_level.add_order(100, 1, Side::Buy, OrderType::Limit, 1);
    assert_eq!(price_level.get_price(), 100);
    assert_eq!(price_level.get_size(), 1);
}

#[test]
fn test_remove_order() {
    let mut price_level = PriceLevel::new(100);
    for i in 0..3 {
        price_level.add_order(100, 1, Side::Buy, OrderType::Limit, i + 1);
        assert_eq!(price_level.get_price(), 100);
        assert_eq!(price_level.get_size(), i + 1);
    }
    assert_eq!(price_level.get_size(), 3);
    assert_eq!(price_level.get_orders().get(0).unwrap().get_price(), 100);
    assert_eq!(price_level.get_orders().get(1).unwrap().get_price(), 100);
    assert_eq!(price_level.get_orders().get(2).unwrap().get_price(), 100);
    price_level.remove_order(2);
    assert_eq!(price_level.get_price(), 100);
    assert_eq!(price_level.get_size(), 2);
    assert_eq!(price_level.get_orders().len(), 2);
    assert_eq!(price_level.get_orders().get(0).unwrap().get_price(), 100);
    assert_eq!(price_level.get_orders().get(1).unwrap().get_price(), 100);
    price_level.remove_order(1);
    assert_eq!(price_level.get_price(), 100);
    assert_eq!(price_level.get_size(), 1);
    assert_eq!(price_level.get_orders().len(), 1);
    assert_eq!(price_level.get_orders().get(0).unwrap().get_price(), 100);
    price_level.remove_order(3);
    assert_eq!(price_level.get_price(), 100);
    assert_eq!(price_level.get_size(), 0);
    price_level.remove_order(100);
    assert_eq!(price_level.get_price(), 100);
    assert_eq!(price_level.get_size(), 0);
    assert_eq!(price_level.get_orders().len(), 0);
}

#[test]
fn test_remove_order_keeps_time_priority() {
    let mut price_level = PriceLevel::new(7);
    price_level.add_order(7, 5, Side::Sell, OrderType::Limit, 11);
    price_level.add_order(7, 6, Side::Sell, OrderType::Limit, 12);
    price_level.add_order(7, 7, Side::Sell, OrderType::Limit, 13);
    price_level.remove_order(12);
    let orders = price_level.get_orders();
    assert_eq!(orders.len(), 2);
    assert_eq!(orders.get(0).unwrap().get_id(), 11);
    assert_eq!(orders.get(1).unwrap().get_id(), 13);
    assert_eq!(price_level.get_size(), 12);
}
