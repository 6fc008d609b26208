//! Quartiles by rank and the interquartile-range rule.
//!
//! The quartiles of `n` prices are the prices at positions `n / 4` and
//! `3 * n / 4` of their ascending arrangement, both rounded down, with no
//! interpolation. A price is admitted where it lies between
//! `Q1 - 1.5 * IQR` and `Q3 + 1.5 * IQR`, both ends included.

use vstd::prelude::*;
use crate::decimal::Decimal;
use crate::order::{ascending_order, key_before, lemma_ascending_order, stable_order};

verus! {

/// The first and third quartile of a column of prices.
#[derive(Clone, Copy, Debug, PartialEq, Eq, Structural)]
pub struct Quartiles {
    pub q1: Decimal,
    pub q3: Decimal,
}

/// The units of each price.
pub open spec fn unit_keys(prices: Seq<Decimal>) -> Seq<i128> {
    Seq::new(prices.len(), |i: int| prices[i].units)
}

/// The price at position `k` of the ascending arrangement of `prices`.
pub open spec fn rank_value(prices: Seq<Decimal>, k: int) -> Decimal {
    prices[ascending_order(unit_keys(prices))[k] as int]
}

/// The quartiles of a column of at least one price.
pub open spec fn quartiles_of(prices: Seq<Decimal>) -> Quartiles {
    Quartiles {
        q1: rank_value(prices, prices.len() as int / 4),
        q3: rank_value(prices, 3 * prices.len() as int / 4),
    }
}

/// Whether every price of the column is in range.
pub open spec fn all_wf(prices: Seq<Decimal>) -> bool {
    forall|i: int| 0 <= i < prices.len() ==> (#[trigger] prices[i]).wf()
}

impl Quartiles {
    /// Whether both quartiles are in range.
    pub open spec fn wf(self) -> bool {
        self.q1.wf() && self.q3.wf()
    }

    /// The interquartile range, in units.
    pub open spec fn iqr(self) -> int {
        self.q3.units - self.q1.units
    }

    /// Twice the lower bound `Q1 - 1.5 * IQR`, in units. The bound itself
    /// may fall between two units; its double never does.
    pub open spec fn doubled_lower(self) -> int {
        2 * self.q1.units - 3 * self.iqr()
    }

    /// Twice the upper bound `Q3 + 1.5 * IQR`, in units.
    pub open spec fn doubled_upper(self) -> int {
        2 * self.q3.units + 3 * self.iqr()
    }

    /// Whether `price` lies within the bounds, both ends included.
    pub open spec fn admits(self, price: Decimal) -> bool {
        self.doubled_lower() <= 2 * price.units <= self.doubled_upper()
    }

    /// Whether `price` lies within the bounds, both ends included.
    pub fn contains(&self, price: &Decimal) -> (b: bool)
        requires
            self.wf(),
            price.wf(),
        ensures
            b == self.admits(*price),
    {
        let iqr: i128 = self.q3.units - self.q1.units;
        let lower: i128 = 2 * self.q1.units - 3 * iqr;
        let upper: i128 = 2 * self.q3.units + 3 * iqr;
        let doubled: i128 = 2 * price.units;
        lower <= doubled && doubled <= upper
    }
}

/// The quartiles of a column are prices of the column, the first is not
/// above the third, and both lie within the bounds they give.
pub proof fn lemma_quartiles_in_bounds(prices: Seq<Decimal>)
    requires
        0 < prices.len() <= usize::MAX,
    ensures
        prices.contains(quartiles_of(prices).q1),
        prices.contains(quartiles_of(prices).q3),
        quartiles_of(prices).q1.units <= quartiles_of(prices).q3.units,
        quartiles_of(prices).admits(quartiles_of(prices).q1),
        quartiles_of(prices).admits(quartiles_of(prices).q3),
{
    let keys = unit_keys(prices);
    lemma_ascending_order(keys);
    let order = ascending_order(keys);
    let first = prices.len() as int / 4;
    let third = 3 * prices.len() as int / 4;
    assert(0 <= order[first] < prices.len());
    assert(0 <= order[third] < prices.len());
    if first < third {
        assert(key_before(keys, order[first] as int, order[third] as int));
    }
}

/// The quartiles of `prices`; `None` for an empty column, which has none.
pub fn quartiles(prices: &Vec<Decimal>) -> (r: Option<Quartiles>)
    requires
        all_wf(prices@),
    ensures
        r is None <==> prices.len() == 0,
        r matches Some(q) ==> q == quartiles_of(prices@) && q.wf(),
{
    let n: usize = prices.len();
    if n == 0 {
        return None;
    }
    let mut keys: Vec<i128> = Vec::new();
    let mut i: usize = 0;
    while i < n
        invariant
            n == prices.len(),
            i <= n,
            keys@ == unit_keys(prices@).take(i as int),
        decreases n - i,
    {
        keys.push(prices[i].units);
        i += 1;
        assert(keys@ =~= unit_keys(prices@).take(i as int));
    }
    assert(keys@ == unit_keys(prices@)) by {
        assert(unit_keys(prices@).take(n as int) =~= unit_keys(prices@));
    }
    let order = stable_order(&keys);
    let first: usize = n / 4;
    let third: usize = ((n as u128 * 3) / 4) as usize;
    assert(order@[first as int] < n);
    assert(order@[third as int] < n);
    Some(Quartiles { q1: prices[order[first]], q3: prices[order[third]] })
}

} // verus!
