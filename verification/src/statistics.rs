//! Counters kept for one record type.

use vstd::prelude::*;

verus! {

/// The counters of one record type as unbounded numbers.
pub struct StatisticsView {
    /// How many records were seen.
    pub cardinality: nat,
    /// How many bytes their lines held, delimiters left out.
    pub number_of_bytes: nat,
}

impl StatisticsView {
    /// Counters of a type that was never seen.
    pub open spec fn zero() -> StatisticsView {
        StatisticsView { cardinality: 0, number_of_bytes: 0 }
    }

    /// The sum of two sets of counters, field by field.
    pub open spec fn plus(self, other: StatisticsView) -> StatisticsView {
        StatisticsView {
            cardinality: self.cardinality + other.cardinality,
            number_of_bytes: self.number_of_bytes + other.number_of_bytes,
        }
    }

    /// Both counters can be held in a `usize`.
    pub open spec fn fits(self) -> bool {
        self.cardinality <= usize::MAX && self.number_of_bytes <= usize::MAX
    }
}

/// Number of records of one type and the bytes they occupy.
#[derive(Clone, Copy, Debug)]
pub struct Statistics {
    cardinality: usize,
    number_of_bytes: usize,
}

impl View for Statistics {
    type V = StatisticsView;

    closed spec fn view(&self) -> StatisticsView {
        StatisticsView {
            cardinality: self.cardinality as nat,
            number_of_bytes: self.number_of_bytes as nat,
        }
    }
}

impl Statistics {
    /// Counters that start at the given values.
    pub fn new(cardinality: usize, number_of_bytes: usize) -> (statistics: Self)
        ensures
            statistics@ == (StatisticsView {
                cardinality: cardinality as nat,
                number_of_bytes: number_of_bytes as nat,
            }),
    {
        Statistics { cardinality, number_of_bytes }
    }

    /// Adds to both counters.
    pub fn update(&mut self, cardinality: usize, number_of_bytes: usize)
        requires
            old(self)@.cardinality + cardinality <= usize::MAX,
            old(self)@.number_of_bytes + number_of_bytes <= usize::MAX,
        ensures
            final(self)@ == old(self)@.plus(
                StatisticsView {
                    cardinality: cardinality as nat,
                    number_of_bytes: number_of_bytes as nat,
                },
            ),
    {
        self.cardinality += cardinality;
        self.number_of_bytes += number_of_bytes;
    }

    /// Number of records counted.
    pub fn cardinality(&self) -> (cardinality: usize)
        ensures
            cardinality == self@.cardinality,
    {
        self.cardinality
    }

    /// Number of bytes counted.
    pub fn number_of_bytes(&self) -> (number_of_bytes: usize)
        ensures
            number_of_bytes == self@.number_of_bytes,
    {
        self.number_of_bytes
    }

    /// Every `Statistics` value fits the machine word, whatever its history.
    pub proof fn lemma_fits(self)
        ensures
            self@.fits(),
    {
    }
}

} // verus!
