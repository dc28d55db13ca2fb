//! The one percentage formula of the whole model.
//!
//! Percentages are kept as integers in hundredths of a percent, rounded
//! half-up to two decimal places: covered 1 of 3 is 3333, that is 33.33%.
//! Nothing to measure counts as fully covered: a total of zero yields 100%.

use vstd::prelude::*;

verus! {

/// One hundred percent, in hundredths of a percent.
pub const FULL_PERCENT: u32 = 10000;

/// `covered / total * 100`, in hundredths of a percent, rounded half-up;
/// 100% when `total` is zero.
pub open spec fn spec_percent(covered: int, total: int) -> int {
    if total == 0 {
        10000
    } else {
        (covered * 20000 + total) / (2 * total)
    }
}

/// The percentage of `covered` among `total`, in hundredths of a percent.
pub fn percent(covered: u32, total: u32) -> (p: u32)
    requires
        covered <= total,
    ensures
        p == spec_percent(covered as int, total as int),
        p <= FULL_PERCENT,
{
    if total == 0 {
        10000
    } else {
        let n: u64 = covered as u64 * 20000 + total as u64;
        let d: u64 = 2 * (total as u64);
        proof {
            assert(n as int == covered as int * 20000 + total as int) by (nonlinear_arith)
                requires
                    0 <= covered <= total <= u32::MAX,
                    n == covered as u64 * 20000 + total as u64,
            ;
            assert(n as int / d as int <= 10000) by (nonlinear_arith)
                requires
                    0 <= covered as int <= total as int,
                    total as int >= 1,
                    n as int == covered as int * 20000 + total as int,
                    d as int == 2 * total as int,
            ;
        }
        let q: u64 = n / d;
        q as u32
    }
}

} // verus!
