use vstd::prelude::*;

verus! {

/// Mathematical image of an [`Account`].
pub ghost struct AccountView {
    pub id: u128,
    pub public_key: Seq<char>,
    pub balance: u64,
    pub available: u64,
    pub locked: u64,
    pub asset: Seq<char>,
}

/// A per-asset account record. The ledger itself is an external collaborator:
/// the balance operations here only acknowledge the request.
pub struct Account {
    id: u128,
    public_key: String,
    balance: u64,
    available: u64,
    locked: u64,
    asset: String,
}

impl View for Account {
    type V = AccountView;

    closed spec fn view(&self) -> AccountView {
        AccountView {
            id: self.id,
            public_key: self.public_key@,
            balance: self.balance,
            available: self.available,
            locked: self.locked,
            asset: self.asset@,
        }
    }
}

impl Account {
    pub fn new(
        id: u128,
        public_key: &str,
        balance: u64,
        available: u64,
        locked: u64,
        asset: &str,
    ) -> (r: Self)
        ensures
            r@ == (AccountView {
                id,
                public_key: public_key@,
                balance,
                available,
                locked,
                asset: asset@,
            }),
    {
        Self {
            id,
            public_key: public_key.to_owned(),
            balance,
            available,
            locked,
            asset: asset.to_owned(),
        }
    }

    pub fn set_id(&mut self, id: u128)
        ensures
            final(self)@ == (AccountView { id, ..old(self)@ }),
    {
        self.id = id;
    }

    /// Acknowledges a credit; the ledger applying it is out of scope.
    pub fn credit(&mut self, amount: u64) -> (r: Result<bool, String>)
        ensures
            r == Ok::<bool, String>(true),
            *final(self) == *old(self),
    {
        let _ = amount;
        Ok(true)
    }

    /// Acknowledges a debit; the ledger applying it is out of scope.
    pub fn debit(&mut self, amount: u64) -> (r: Result<bool, String>)
        ensures
            r == Ok::<bool, String>(true),
            *final(self) == *old(self),
    {
        let _ = amount;
        Ok(true)
    }

    /// Acknowledges a lock; the ledger applying it is out of scope.
    pub fn lock(&mut self, amount: u64) -> (r: Result<bool, String>)
        ensures
            r == Ok::<bool, String>(true),
            *final(self) == *old(self),
    {
        let _ = amount;
        Ok(true)
    }

    /// Acknowledges an unlock; the ledger applying it is out of scope.
    pub fn unlock(&mut self, amount: u64) -> (r: Result<bool, String>)
        ensures
            r == Ok::<bool, String>(true),
            *final(self) == *old(self),
    {
        let _ = amount;
        Ok(true)
    }
}

} // verus!
