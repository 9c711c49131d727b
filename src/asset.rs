use vstd::prelude::*;

use crate::text::{to_upper, upper_of};

verus! {

/// The closed set of symbols the broker trades.
#[derive(PartialEq, Eq, Structural, Debug, Copy, Clone, Hash)]
pub enum BrokerAsset {
    ADA,
    BTC,
    DOT,
    ETH,
    GRIN,
    USD,
}

/// A symbol that names no `BrokerAsset`.
#[derive(Debug)]
pub struct AssetError {
    pub msg: String,
}

impl BrokerAsset {
    /// The canonical, upper-case symbol of an asset.
    pub open spec fn symbol(self) -> Seq<char> {
        match self {
            BrokerAsset::ADA => "ADA"@,
            BrokerAsset::BTC => "BTC"@,
            BrokerAsset::DOT => "DOT"@,
            BrokerAsset::ETH => "ETH"@,
            BrokerAsset::GRIN => "GRIN"@,
            BrokerAsset::USD => "USD"@,
        }
    }

    /// The asset whose canonical symbol is exactly `s`, if any.
    pub open spec fn spec_from_symbol(s: Seq<char>) -> Option<BrokerAsset> {
        if s == "ADA"@ {
            Some(BrokerAsset::ADA)
        } else if s == "BTC"@ {
            Some(BrokerAsset::BTC)
        } else if s == "DOT"@ {
            Some(BrokerAsset::DOT)
        } else if s == "ETH"@ {
            Some(BrokerAsset::ETH)
        } else if s == "GRIN"@ {
            Some(BrokerAsset::GRIN)
        } else if s == "USD"@ {
            Some(BrokerAsset::USD)
        } else {
            None
        }
    }

    /// Looks up an already upper-cased symbol; anything but a canonical symbol
    /// is refused with the message "invalid asset: " followed by `original`.
    pub fn from_upper(upper: &str, original: &str) -> (r: Result<BrokerAsset, AssetError>)
        ensures
            match Self::spec_from_symbol(upper@) {
                Some(a) => r == Ok::<BrokerAsset, AssetError>(a),
                None => r is Err && r->Err_0.msg@ == "invalid asset: "@ + original@,
            },
    {
        let u = upper.to_string();
        if u == String::from_str("ADA") {
            Ok(BrokerAsset::ADA)
        } else if u == String::from_str("BTC") {
            Ok(BrokerAsset::BTC)
        } else if u == String::from_str("DOT") {
            Ok(BrokerAsset::DOT)
        } else if u == String::from_str("ETH") {
            Ok(BrokerAsset::ETH)
        } else if u == String::from_str("GRIN") {
            Ok(BrokerAsset::GRIN)
        } else if u == String::from_str("USD") {
            Ok(BrokerAsset::USD)
        } else {
            let msg = String::from_str("invalid asset: ").concat(original);
            Err(AssetError { msg })
        }
    }

    /// Reads an asset symbol, ignoring case.
    pub fn from_string(asset: &str) -> (r: Result<BrokerAsset, AssetError>)
        ensures
            match Self::spec_from_symbol(upper_of(asset@)) {
                Some(a) => r == Ok::<BrokerAsset, AssetError>(a),
                None => r is Err && r->Err_0.msg@ == "invalid asset: "@ + asset@,
            },
    {
        let upper = to_upper(asset);
        Self::from_upper(upper.as_str(), asset)
    }

    /// The canonical symbol of the asset.
    pub fn to_string(&self) -> (r: String)
        ensures
            r@ == self.symbol(),
    {
        match self {
            BrokerAsset::ADA => String::from_str("ADA"),
            BrokerAsset::BTC => String::from_str("BTC"),
            BrokerAsset::DOT => String::from_str("DOT"),
            BrokerAsset::ETH => String::from_str("ETH"),
            BrokerAsset::GRIN => String::from_str("GRIN"),
            BrokerAsset::USD => String::from_str("USD"),
        }
    }
}

impl AssetError {
    /// The text that describes the error.
    pub fn message(&self) -> (r: String)
        ensures
            r@ == self.msg@,
    {
        self.msg.clone()
    }
}

} // verus!
