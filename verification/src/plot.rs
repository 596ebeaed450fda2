//! Chart layout rules keyed by granularity. The drawing itself is unverified
//! rendering and lives with the surrounding application.

use vstd::prelude::*;

use crate::analyse::dtfmt::DateTimeCat;

verus! {

/// The tick mark size a chart's time axis should use for labels of the given
/// granularity: finer granularities carry longer labels and get larger ticks.
pub fn get_tick_size(dt_cat: &DateTimeCat) -> (r: i32)
    ensures
        r == match *dt_cat {
            DateTimeCat::Seconds => 40int,
            DateTimeCat::Minutes => 35int,
            DateTimeCat::Hours => 35int,
            DateTimeCat::Days => 28int,
            DateTimeCat::Months => 25int,
            DateTimeCat::Years => 15int,
        },
{
    match dt_cat {
        DateTimeCat::Seconds => 40,
        DateTimeCat::Minutes => 35,
        DateTimeCat::Hours => 35,
        DateTimeCat::Days => 28,
        DateTimeCat::Months => 25,
        DateTimeCat::Years => 15,
    }
}

} // verus!
