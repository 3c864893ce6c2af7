use vstd::prelude::*;

use crate::asset::Blockchain;
use crate::order::OrderType;
use crate::order::Side;

verus! {

/// The kind of a dispatched request; also tags each success outcome.
#[derive(PartialEq, Eq, Structural, Clone, Copy, Debug)]
pub enum RequestType {
    SubmitOrder,
    CancelOrder,
    CreditAccount,
    DebitAccount,
    LockAccount,
    UnlockAccount,
}

/// A request that targets one market.
pub trait MarketRequest {
    fn get_symbol(&self) -> &String;
}

/// A request that targets one account.
pub trait AccountRequest {
    fn get_id(&self) -> u128;
}

/// The envelope a dispatcher worker receives: the assigned request id, the
/// request kind, the encoded kind-specific payload, and the signature data
/// carried through for collaborators outside this engine.
#[derive(Debug)]
pub struct WrappedRequest {
    pub id: u128,
    pub request_type: RequestType,
    pub payload: Vec<u8>,
    pub signature: String,
    pub nonce: u128,
    pub public_key: String,
}

/// A request that carries signature data. Verifying signatures is outside
/// this engine's scope; the fields are carried through untouched.
pub trait SignedRequest {
    fn get_signature(&self) -> &String;

    fn get_public_key(&self) -> &String;

    fn get_nonce(&self) -> u128;
}

/// A new order: market symbol, limit price (ignored and forced to 0 for
/// market orders), size, side and type.
#[derive(Debug)]
pub struct SubmitOrderRequest {
    pub symbol: String,
    pub price: u64,
    pub size: u64,
    pub side: Side,
    pub order_type: OrderType,
    pub signature: String,
    pub nonce: u128,
    pub public_key: String,
}

impl SignedRequest for SubmitOrderRequest {
    fn get_signature(&self) -> &String {
        &self.signature
    }

    fn get_public_key(&self) -> &String {
        &self.public_key
    }

    fn get_nonce(&self) -> u128 {
        self.nonce
    }
}

impl MarketRequest for SubmitOrderRequest {
    fn get_symbol(&self) -> &String {
        &self.symbol
    }
}

/// A cancellation of the resting order with the given id on one market.
#[derive(Debug)]
pub struct CancelOrderRequest {
    pub symbol: String,
    pub id: u64,
    pub signature: String,
    pub nonce: u128,
    pub public_key: String,
}

impl SignedRequest for CancelOrderRequest {
    fn get_signature(&self) -> &String {
        &self.signature
    }

    fn get_public_key(&self) -> &String {
        &self.public_key
    }

    fn get_nonce(&self) -> u128 {
        self.nonce
    }
}

impl MarketRequest for CancelOrderRequest {
    fn get_symbol(&self) -> &String {
        &self.symbol
    }
}

/// A request to list a new market.
#[derive(Debug)]
pub struct ListMarketRequest {
    pub symbol: String,
    pub max_price: u64,
    pub min_price: u64,
    pub settlement_asset: String,
    pub signature: String,
    pub nonce: u128,
    pub public_key: String,
}

impl SignedRequest for ListMarketRequest {
    fn get_signature(&self) -> &String {
        &self.signature
    }

    fn get_public_key(&self) -> &String {
        &self.public_key
    }

    fn get_nonce(&self) -> u128 {
        self.nonce
    }
}

/// A request to list a new asset.
#[derive(Debug)]
pub struct ListAssetRequest {
    pub blockchain: Blockchain,
    pub symbol: String,
    pub decimals: u64,
    pub signature: String,
    pub nonce: u128,
    pub public_key: String,
}

impl SignedRequest for ListAssetRequest {
    fn get_signature(&self) -> &String {
        &self.signature
    }

    fn get_public_key(&self) -> &String {
        &self.public_key
    }

    fn get_nonce(&self) -> u128 {
        self.nonce
    }
}

/// A request to credit an account.
#[derive(Debug)]
pub struct CreditAccountRequest {
    pub account_id: u128,
    pub asset: String,
    pub amount: u64,
    pub signature: String,
    pub nonce: u128,
    pub public_key: String,
}

impl AccountRequest for CreditAccountRequest {
    fn get_id(&self) -> u128 {
        self.account_id
    }
}

impl SignedRequest for CreditAccountRequest {
    fn get_signature(&self) -> &String {
        &self.signature
    }

    fn get_public_key(&self) -> &String {
        &self.public_key
    }

    fn get_nonce(&self) -> u128 {
        self.nonce
    }
}

/// A request to debit an account.
#[derive(Debug)]
pub struct DebitAccountRequest {
    pub account_id: u128,
    pub asset: String,
    pub amount: u64,
    pub signature: String,
    pub nonce: u128,
    pub public_key: String,
}

impl AccountRequest for DebitAccountRequest {
    fn get_id(&self) -> u128 {
        self.account_id
    }
}

impl SignedRequest for DebitAccountRequest {
    fn get_signature(&self) -> &String {
        &self.signature
    }

    fn get_public_key(&self) -> &String {
        &self.public_key
    }

    fn get_nonce(&self) -> u128 {
        self.nonce
    }
}

/// A request to lock part of an account balance.
#[derive(Debug)]
pub struct LockAccountRequest {
    pub account_id: u128,
    pub asset: String,
    pub amount: u64,
    pub signature: String,
    pub nonce: u128,
    pub public_key: String,
}

impl AccountRequest for LockAccountRequest {
    fn get_id(&self) -> u128 {
        self.account_id
    }
}

impl SignedRequest for LockAccountRequest {
    fn get_signature(&self) -> &String {
        &self.signature
    }

    fn get_public_key(&self) -> &String {
        &self.public_key
    }

    fn get_nonce(&self) -> u128 {
        self.nonce
    }
}

/// A request to unlock part of an account balance.
#[derive(Debug)]
pub struct UnlockAccountRequest {
    pub account_id: u128,
    pub asset: String,
    pub amount: u64,
    pub signature: String,
    pub nonce: u128,
    pub public_key: String,
}

impl AccountRequest for UnlockAccountRequest {
    fn get_id(&self) -> u128 {
        self.account_id
    }
}

impl SignedRequest for UnlockAccountRequest {
    fn get_signature(&self) -> &String {
        &self.signature
    }

    fn get_public_key(&self) -> &String {
        &self.public_key
    }

    fn get_nonce(&self) -> u128 {
        self.nonce
    }
}

} // verus!
