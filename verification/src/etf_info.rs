//! Market-data records: what a fund lookup returns. The lookup itself talks
//! to the network and lives with the caller; this module only carries its
//! results.

use vstd::prelude::*;

verus! {

/// An International Securities Identification Number.
pub type Isin = String;

/// An exchange ticker symbol.
pub type Ticker = String;

/// One fund as a market-data lookup reports it: display name, ISIN and
/// ticker.
#[derive(Debug, Clone, Eq, PartialEq)]
pub struct ETF {
    pub name: String,
    pub isin: Isin,
    pub ticker: Ticker,
}

impl ETF {
    /// Bundles name, ISIN and ticker into one record.
    pub fn new(name: String, isin: Isin, ticker: Ticker) -> (r: Self)
        ensures
            r == (ETF { name, isin, ticker }),
    {
        ETF { name, isin, ticker }
    }
}

} // verus!
