//! The traded assets.
use vstd::prelude::*;

use crate::num::Real;

verus! {

/// A traded asset with its exchange index and trading limits.
#[derive(Debug, Clone)]
pub struct Asset {
    pub symbol: String,
    pub index: usize,
    pub max_leverage: u32,
    pub sz_decimals: u32,
    pub max_weight: Real,
}

impl Asset {
    /// The asset has exactly these properties; its weight cap is `percent`
    /// hundredths.
    pub open spec fn is(
        &self,
        symbol: Seq<char>,
        index: usize,
        max_leverage: u32,
        sz_decimals: u32,
        percent: i64,
    ) -> bool {
        &&& self.symbol@ == symbol
        &&& self.index == index
        &&& self.max_leverage == max_leverage
        &&& self.sz_decimals == sz_decimals
        &&& self.max_weight == Real::ratio(percent, 100)
    }

    fn new(
        symbol: &str,
        index: usize,
        max_leverage: u32,
        sz_decimals: u32,
        percent: i64,
    ) -> (r: Asset)
        ensures
            r.is(symbol@, index, max_leverage, sz_decimals, percent),
    {
        Asset {
            symbol: symbol.to_owned(),
            index,
            max_leverage,
            sz_decimals,
            max_weight: Real::ratio(percent, 100),
        }
    }
}

/// The assets that the system trades.
///
/// BTC and ETH are the liquidity anchors and regime benchmarks, SOL and HYPE add
/// ecosystem momentum, ARB and MATIC diversify into layer-two beta, and WIF is a
/// momentum asset with a hard weight cap.
pub fn universe() -> (r: Vec<Asset>)
    ensures
        is_universe(r@),
{
    let mut v: Vec<Asset> = Vec::new();
    v.push(Asset::new("BTC", 0, 50, 5, 30));
    v.push(Asset::new("ETH", 1, 50, 4, 25));
    v.push(Asset::new("SOL", 2, 20, 2, 15));
    v.push(Asset::new("HYPE", 107, 10, 2, 10));
    v.push(Asset::new("ARB", 8, 10, 0, 10));
    v.push(Asset::new("MATIC", 6, 10, 0, 10));
    v.push(Asset::new("WIF", 30, 10, 0, 5));
    v
}

/// The list holds the system's assets, in order.
pub open spec fn is_universe(v: Seq<Asset>) -> bool {
    &&& v.len() == 7
    &&& v[0].is("BTC"@, 0, 50, 5, 30)
    &&& v[1].is("ETH"@, 1, 50, 4, 25)
    &&& v[2].is("SOL"@, 2, 20, 2, 15)
    &&& v[3].is("HYPE"@, 107, 10, 2, 10)
    &&& v[4].is("ARB"@, 8, 10, 0, 10)
    &&& v[5].is("MATIC"@, 6, 10, 0, 10)
    &&& v[6].is("WIF"@, 30, 10, 0, 5)
}

/// Assets used as macro anchors.
pub fn macro_anchors() -> (r: Vec<&'static str>)
    ensures
        r@.len() == 2,
        r@[0]@ == "BTC"@,
        r@[1]@ == "ETH"@,
{
    vec!["BTC", "ETH"]
}

/// The symbol is that of an asset in the list.
pub open spec fn listed(assets: Seq<Asset>, symbol: Seq<char>) -> bool {
    exists|i: int| 0 <= i < assets.len() && #[trigger] assets[i].symbol@ == symbol
}

/// Whether the symbol is that of an asset in the list.
pub fn is_listed(assets: &[Asset], symbol: &str) -> (r: bool)
    ensures
        r == listed(assets@, symbol@),
{
    let key = symbol.to_owned();
    let mut i: usize = 0;
    while i < assets.len()
        invariant
            i <= assets@.len(),
            key@ == symbol@,
            forall|j: int| 0 <= j < i ==> #[trigger] assets@[j].symbol@ != symbol@,
        decreases assets@.len() - i,
    {
        if assets[i].symbol == key {
            return true;
        }
        i += 1;
    }
    false
}

/// The exchange index of a symbol; zero where it is not traded.
pub open spec fn index_of_symbol(symbol: Seq<char>) -> usize {
    if symbol == "BTC"@ {
        0
    } else if symbol == "ETH"@ {
        1
    } else if symbol == "SOL"@ {
        2
    } else if symbol == "HYPE"@ {
        107
    } else if symbol == "ARB"@ {
        8
    } else if symbol == "MATIC"@ {
        6
    } else if symbol == "WIF"@ {
        30
    } else {
        0
    }
}

/// The exchange index of a symbol; zero where it is not traded.
pub fn pos_asset_index(asset: &str) -> (r: usize)
    ensures
        r == index_of_symbol(asset@),
{
    let assets = universe();
    let key = asset.to_owned();
    let mut i: usize = 0;
    while i < assets.len()
        invariant
            i <= assets@.len(),
            is_universe(assets@),
            key@ == asset@,
            forall|j: int| 0 <= j < i ==> #[trigger] assets@[j].symbol@ != asset@,
        decreases assets@.len() - i,
    {
        if assets[i].symbol == key {
            assert(forall|j: int| 0 <= j < i ==> #[trigger] assets@[j].symbol@ != asset@);
            assert(i == 0 || assets@[0].symbol@ != asset@);
            assert(i <= 1 || assets@[1].symbol@ != asset@);
            assert(i <= 2 || assets@[2].symbol@ != asset@);
            assert(i <= 3 || assets@[3].symbol@ != asset@);
            assert(i <= 4 || assets@[4].symbol@ != asset@);
            assert(i <= 5 || assets@[5].symbol@ != asset@);
            return assets[i].index;
        }
        i += 1;
    }
    assert(assets@[0].symbol@ != asset@ && assets@[1].symbol@ != asset@ && assets@[2].symbol@
        != asset@ && assets@[3].symbol@ != asset@ && assets@[4].symbol@ != asset@
        && assets@[5].symbol@ != asset@ && assets@[6].symbol@ != asset@);
    0
}

} // verus!
