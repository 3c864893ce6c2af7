use vstd::prelude::*;

verus! {

/// Lifecycle status of an order. Orders are created open; a fully matched or
/// cancelled order is removed from its level rather than given a new status.
#[derive(PartialEq, Eq, Structural, Clone, Copy, Debug)]
pub enum OrderStatus {
    Open,
}

/// Whether an order is a priced limit order or an unpriced market order.
#[derive(PartialEq, Eq, Structural, Clone, Copy, Debug)]
pub enum OrderType {
    Limit,
    Market,
}

/// Side of the book an order rests on or takes from.
#[derive(PartialEq, Eq, Structural, Clone, Copy, Debug)]
pub enum Side {
    Buy,
    Sell,
}

/// Mathematical image of an [`Order`]: one field per stored field.
pub ghost struct OrderView {
    pub id: u64,
    pub price: u64,
    pub size: u64,
    pub remaining: u64,
    pub side: Side,
    pub status: OrderStatus,
    pub typ: OrderType,
}

/// A single order record. Inside a price level the record is mutated in
/// place; a record whose `price` is 0 is the empty-slot sentinel.
#[derive(PartialEq, Eq, Structural, Clone, Copy, Debug)]
pub struct Order {
    id: u64,
    price: u64,
    size: u64,
    remaining: u64,
    side: Side,
    status: OrderStatus,
    typ: OrderType,
}

impl View for Order {
    type V = OrderView;

    closed spec fn view(&self) -> OrderView {
        OrderView {
            id: self.id,
            price: self.price,
            size: self.size,
            remaining: self.remaining,
            side: self.side,
            status: self.status,
            typ: self.typ,
        }
    }
}

impl Order {
    /// Creates a new order with the given values; the id starts at 0 and is
    /// assigned by the book on submission. `remaining` starts at `size`.
    pub fn new(price: u64, size: u64, side: Side, status: OrderStatus, typ: OrderType) -> (r: Self)
        ensures
            r@ == (OrderView { id: 0, price, size, remaining: size, side, status, typ }),
    {
        Self { id: 0, price, remaining: size, side, size, status, typ }
    }

    /// Returns the order id.
    pub fn get_id(&self) -> (r: u64)
        ensures
            r == self@.id,
    {
        self.id
    }

    /// Returns the order price.
    pub fn get_price(&self) -> (r: u64)
        ensures
            r == self@.price,
    {
        self.price
    }

    /// Returns the unfilled part of the order size.
    pub fn get_remaining(&self) -> (r: u64)
        ensures
            r == self@.remaining,
    {
        self.remaining
    }

    /// Returns the order size.
    pub fn get_size(&self) -> (r: u64)
        ensures
            r == self@.size,
    {
        self.size
    }

    /// Returns the order side.
    pub fn get_side(&self) -> (r: Side)
        ensures
            r == self@.side,
    {
        self.side
    }

    /// Sets the order price.
    pub fn set_price(&mut self, price: u64)
        ensures
            final(self)@ == (OrderView { price, ..old(self)@ }),
    {
        self.price = price;
    }

    /// Sets the remaining size.
    pub fn set_remaining(&mut self, remaining: u64)
        ensures
            final(self)@ == (OrderView { remaining, ..old(self)@ }),
    {
        self.remaining = remaining;
    }

    /// Sets the size.
    pub fn set_size(&mut self, size: u64)
        ensures
            final(self)@ == (OrderView { size, ..old(self)@ }),
    {
        self.size = size;
    }

    /// Sets the side.
    pub fn set_side(&mut self, side: Side)
        ensures
            final(self)@ == (OrderView { side, ..old(self)@ }),
    {
        self.side = side;
    }

    /// Sets the type.
    pub fn set_type(&mut self, typ: OrderType)
        ensures
            final(self)@ == (OrderView { typ, ..old(self)@ }),
    {
        self.typ = typ;
    }

    /// Sets the status.
    pub fn set_status(&mut self, status: OrderStatus)
        ensures
            final(self)@ == (OrderView { status, ..old(self)@ }),
    {
        self.status = status;
    }

    /// Sets the id.
    pub fn set_id(&mut self, id: u64)
        ensures
            final(self)@ == (OrderView { id, ..old(self)@ }),
    {
        self.id = id;
    }
}

} // verus!
