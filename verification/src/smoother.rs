//! Moving averages over a trailing window of fixed width.
//!
//! The average at a position is the mean of the values at that position
//! and at the two before it. The first two positions have none. A mean is
//! kept exactly, as a total and the number of values; its rounding to a
//! whole number is for display.

use vstd::prelude::*;

verus! {

/// The width of the window.
pub const WINDOW: usize = 3;

/// The mean of `count` whole numbers whose sum is `total`.
#[derive(Clone, Copy, Debug, PartialEq, Eq, Structural)]
pub struct WindowMean {
    pub total: i128,
    pub count: u32,
}

impl WindowMean {
    /// Whether the mean is one of at least one value, each of 64 bits.
    pub open spec fn wf(self) -> bool {
        &&& self.count > 0
        &&& -(self.count * 0x8000_0000_0000_0000) <= self.total <= self.count
            * 0x8000_0000_0000_0000
    }

    /// The whole number nearest to the mean; a mean halfway between two
    /// goes to the one farther from zero.
    pub open spec fn spec_rounded(self) -> int {
        let c = self.count as int;
        let t = self.total as int;
        if t >= 0 {
            (2 * t + c) / (2 * c)
        } else {
            -((-2 * t + c) / (2 * c))
        }
    }

    /// Whether the mean is one of at least one value, each of 64 bits.
    pub fn is_valid(&self) -> (b: bool)
        ensures
            b == self.wf(),
    {
        let bound: i128 = self.count as i128 * 0x8000_0000_0000_0000;
        self.count > 0 && -bound <= self.total && self.total <= bound
    }

    /// The whole number nearest to the mean; a mean halfway between two
    /// goes to the one farther from zero.
    pub fn rounded(&self) -> (r: i128)
        requires
            self.wf(),
        ensures
            r == self.spec_rounded(),
    {
        let c: u128 = self.count as u128;
        if self.total >= 0 {
            let m: u128 = self.total as u128;
            ((2 * m + c) / (2 * c)) as i128
        } else {
            let m: u128 = (-self.total) as u128;
            -(((2 * m + c) / (2 * c)) as i128)
        }
    }
}

/// The sum of the `width` values that end at position `end`.
pub open spec fn window_total(values: Seq<int>, end: int, width: nat) -> int
    decreases width,
{
    if width == 0 {
        0
    } else {
        window_total(values, end - 1, (width - 1) as nat) + values[end]
    }
}

/// The moving average at position `i`: none at the first two positions,
/// then the mean of the value there and the two before it.
pub open spec fn moving_average(values: Seq<int>, i: int) -> Option<WindowMean> {
    if i + 1 < WINDOW {
        None
    } else {
        Some(WindowMean { total: window_total(values, i, WINDOW as nat) as i128, count: WINDOW as u32 })
    }
}

/// The moving average at each position of a column.
pub open spec fn moving_average_column(values: Seq<int>) -> Seq<Option<WindowMean>> {
    Seq::new(values.len(), |i: int| moving_average(values, i))
}

/// The whole numbers that a column of 64-bit values holds.
pub open spec fn as_ints(values: Seq<i64>) -> Seq<int> {
    Seq::new(values.len(), |i: int| values[i] as int)
}

/// The moving average at each position of `values`.
pub fn moving_averages(values: &Vec<i64>) -> (out: Vec<Option<WindowMean>>)
    ensures
        out@ == moving_average_column(as_ints(values@)),
        forall|i: int| 0 <= i < out.len() ==> ((#[trigger] out@[i]) matches Some(m) ==> m.wf()),
{
    let ghost column = as_ints(values@);
    let mut out: Vec<Option<WindowMean>> = Vec::new();
    let mut i: usize = 0;
    while i < values.len()
        invariant
            i <= values.len(),
            column == as_ints(values@),
            out@ == moving_average_column(column).take(i as int),
            forall|k: int| 0 <= k < out.len() ==> ((#[trigger] out@[k]) matches Some(m) ==> m.wf()),
        decreases values.len() - i,
    {
        if i + 1 < WINDOW {
            out.push(None);
        } else {
            let start: usize = i + 1 - WINDOW;
            let mut total: i128 = 0;
            let mut t: usize = 0;
            while t < WINDOW
                invariant
                    t <= WINDOW,
                    i < values.len(),
                    start + WINDOW == i + 1,
                    column == as_ints(values@),
                    total == window_total(column, start + t - 1, t as nat),
                    -(t * 0x8000_0000_0000_0000) <= total <= t * 0x8000_0000_0000_0000,
                decreases WINDOW - t,
            {
                assert(column[start + t] == values@[start + t]);
                total = total + values[start + t] as i128;
                t += 1;
            }
            out.push(Some(WindowMean { total, count: WINDOW as u32 }));
        }
        i += 1;
        assert(out@ =~= moving_average_column(column).take(i as int));
    }
    assert(moving_average_column(column).take(values.len() as int) =~= moving_average_column(
        column,
    ));
    out
}

} // verus!
