use vstd::prelude::*;

verus! {

/// The chain an asset lives on.
#[derive(PartialEq, Eq, Structural, Clone, Copy, Debug)]
pub enum Blockchain {
    Ethereum,
    Arbitrum,
}

/// The canonical spelling of a chain name, used to build asset identifiers.
pub open spec fn blockchain_name(b: Blockchain) -> Seq<char> {
    match b {
        Blockchain::Ethereum => "Ethereum"@,
        Blockchain::Arbitrum => "Arbitrum"@,
    }
}

/// A listed asset: the chain it lives on, its symbol and its decimals.
#[derive(Debug)]
pub struct Asset {
    blockchain: Blockchain,
    symbol: String,
    decimals: u64,
}

/// Mathematical image of an [`Asset`].
pub ghost struct AssetView {
    pub blockchain: Blockchain,
    pub symbol: Seq<char>,
    pub decimals: u64,
}

impl View for Asset {
    type V = AssetView;

    closed spec fn view(&self) -> AssetView {
        AssetView { blockchain: self.blockchain, symbol: self.symbol@, decimals: self.decimals }
    }
}

impl Clone for Asset {
    fn clone(&self) -> (r: Self)
        ensures
            r@ == self@,
    {
        Asset {
            blockchain: self.blockchain,
            symbol: self.symbol.clone(),
            decimals: self.decimals,
        }
    }
}

/// Relies on std's `format!` with the `{}{}` format string: the result is the
/// two pieces, concatenated.
#[verifier::external_body]
fn concat_strs(a: &str, b: &str) -> (r: String)
    ensures
        r@ == a@ + b@,
{
    format!("{}{}", a, b)
}

impl Asset {
    pub fn new(blockchain: Blockchain, symbol: &str, decimals: u64) -> (r: Self)
        ensures
            r@ == (AssetView { blockchain, symbol: symbol@, decimals }),
    {
        Self { blockchain, symbol: symbol.to_owned(), decimals }
    }

    /// The asset's identifier: the chain name followed by the symbol.
    pub fn get_id(&self) -> (r: String)
        ensures
            r@ == blockchain_name(self@.blockchain) + self@.symbol,
    {
        let name: &str = match self.blockchain {
            Blockchain::Ethereum => "Ethereum",
            Blockchain::Arbitrum => "Arbitrum",
        };
        concat_strs(name, self.symbol.as_str())
    }
}

} // verus!
