use matching_engine::Order;
use matching_engine::OrderStatus;
use matching_engine::OrderType;
use matching_engine::Side;

#[test]
fn order_test_test_new() {
    let mut order = Order::new(100, 1, Side::Buy, OrderStatus::Open, OrderType::Limit);
    order.set_id(1);
    assert_eq!(order.get_id(), 1);
    assert_eq!(order.get_price(), 100);
    assert_eq!(order.get_remaining(), 1);
    assert_eq!(order.get_size(), 1);
}

#[test]
fn test_order_setters() {
    let mut order = Order::new(5, 9, Side::Buy, OrderStatus::Open, OrderType::Limit);
    order.set_price(6);
    order.set_size(10);
    order.set_remaining(4);
    order.set_side(Side::Sell);
    order.set_type(OrderType::Market);
    order.set_status(OrderStatus::Open);
    order.set_id(42);
    assert_eq!(order.get_price(), 6);
    assert_eq!(order.get_size(), 10);
    assert_eq!(order.get_remaining(), 4);
    assert_eq!(order.get_side(), Side::Sell);
    assert_eq!(order.get_id(), 42);
}
