//! Small numeric helpers.

use vstd::prelude::*;
use vstd::std_specs::cmp::PartialOrdSpec;

verus! {

/// Values below a floor are cut to the type's default (zero for numbers).
pub trait MinCutoff {
    fn min_cutoff(self, min: Self) -> Self;
}

impl<T: PartialOrd + Default + Copy> MinCutoff for T {
    fn min_cutoff(self, min: T) -> (r: T)
        ensures
            T::obeys_partial_cmp_spec() ==> {
                if self.partial_cmp_spec(&min) == Some(core::cmp::Ordering::Less) {
                    call_ensures(T::default, (), r)
                } else {
                    r == self
                }
            },
    {
        if self < min {
            T::default()
        } else {
            self
        }
    }
}

} // verus!
