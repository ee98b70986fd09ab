//! How individuals compare: by fitness, NaN behind every number and equal
//! to NaN.

use crate::population::Individual;
use crate::scalar::rank;
use crate::scalar::rank_of;
use core::cmp::Ordering;
use vstd::prelude::*;
use vstd::std_specs::cmp::PartialEqSpecImpl;
use vstd::std_specs::cmp::PartialOrdSpecImpl;

verus! {

impl PartialEq for Individual {
    /// Equal fitness: the same number, or NaN on both sides.
    fn eq(&self, other: &Individual) -> (r: bool) {
        rank_of(self.fitness) == rank_of(other.fitness)
    }
}

impl PartialEqSpecImpl for Individual {
    open spec fn obeys_eq_spec() -> bool {
        true
    }

    open spec fn eq_spec(&self, other: &Individual) -> bool {
        rank(self.fitness) == rank(other.fitness)
    }
}

impl PartialOrd for Individual {
    /// The better individual is the lesser. Any two compare.
    fn partial_cmp(&self, other: &Individual) -> (r: Option<Ordering>) {
        let own: i64 = rank_of(self.fitness);
        let others: i64 = rank_of(other.fitness);
        if own < others {
            Some(Ordering::Less)
        } else if own == others {
            Some(Ordering::Equal)
        } else {
            Some(Ordering::Greater)
        }
    }
}

impl PartialOrdSpecImpl for Individual {
    open spec fn obeys_partial_cmp_spec() -> bool {
        true
    }

    open spec fn partial_cmp_spec(&self, other: &Individual) -> Option<Ordering> {
        if rank(self.fitness) < rank(other.fitness) {
            Some(Ordering::Less)
        } else if rank(self.fitness) == rank(other.fitness) {
            Some(Ordering::Equal)
        } else {
            Some(Ordering::Greater)
        }
    }
}

impl Eq for Individual {

}

} // verus!
