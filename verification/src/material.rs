//! Coefficients chosen per physical region.

use vstd::prelude::*;

use crate::mesh::PhysicalRegion;

verus! {

/// A constant coefficient/material property.
#[derive(Clone, Copy, Debug)]
pub struct ConstantCoefficient<T>(pub T);

/// The value a list of `(region, value)` entries gives to `region`: the last
/// entry for that region wins, as repeated insertion into a map would leave it.
pub open spec fn value_of<T>(values: Seq<(PhysicalRegion, T)>, region: PhysicalRegion) -> Option<T>
    decreases values.len(),
{
    if values.len() == 0 {
        None
    } else if values.last().0 == region {
        Some(values.last().1)
    } else {
        value_of(values.drop_last(), region)
    }
}

/// Select a constant value by physical region, with a fallback value.
#[derive(Clone, Debug)]
pub struct RegionCoefficient<T> {
    pub values: Vec<(PhysicalRegion, T)>,
    pub default: T,
}

impl<T> RegionCoefficient<T> {
    pub fn new(values: Vec<(PhysicalRegion, T)>, default: T) -> (coefficient: Self)
        ensures
            coefficient.values@ == values@,
            coefficient.default == default,
    {
        Self { values, default }
    }

    /// The coefficient on a cell in `region`: the value recorded for that
    /// region, else the default (also for cells without a region).
    pub open spec fn value_in(&self, region: Option<PhysicalRegion>) -> T {
        match region {
            Some(region) => match value_of(self.values@, region) {
                Some(value) => value,
                None => self.default,
            },
            None => self.default,
        }
    }

    /// Evaluate the coefficient on a cell in `region`.
    pub fn value(&self, region: Option<PhysicalRegion>) -> (value: &T)
        ensures
            *value == self.value_in(region),
    {
        match region {
            Some(r) => {
                let mut i = self.values.len();
                assert(self.values@.take(i as int) =~= self.values@);
                while i > 0
                    invariant
                        region == Some(r),
                        i <= self.values@.len(),
                        value_of(self.values@.take(i as int), r) == value_of(
                            self.values@,
                            r,
                        ),
                    decreases i,
                {
                    assert(self.values@.take(i as int).drop_last() =~= self.values@.take(i - 1));
                    let entry = &self.values[i - 1];
                    if entry.0 == r {
                        assert(value_of(self.values@.take(i as int), r) == Some(entry.1));
                        return &entry.1;
                    }
                    i = i - 1;
                }
                &self.default
            },
            None => &self.default,
        }
    }
}

} // verus!
