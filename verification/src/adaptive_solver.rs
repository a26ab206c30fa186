//! Which way of solving an instance suits its size.
use vstd::prelude::*;

verus! {

/// The seconds that every time limit leaves unused.
pub const MARGIN: u64 = 2;

/// How an instance is solved.
#[derive(Clone, Copy, PartialEq, Eq, Structural, Debug)]
pub enum Strategy {
    /// Every tour is tried.
    BruteForce,
    /// The genetic search runs until the limit of seconds is reached.
    Genetic { time_limit_secs: u64 },
}

/// The seconds granted to an instance of `num_cities` cities, before the
/// margin is taken off.
pub open spec fn time_class(num_cities: nat) -> nat {
    if num_cities < 100 {
        60
    } else if num_cities < 200 {
        75
    } else if num_cities < 500 {
        120
    } else {
        300
    }
}

/// The strategy for an instance of `num_cities` cities.
pub open spec fn spec_strategy(num_cities: nat) -> Strategy {
    if num_cities < 10 {
        Strategy::BruteForce
    } else {
        Strategy::Genetic { time_limit_secs: (time_class(num_cities) - MARGIN) as u64 }
    }
}

/// The number of tours that the genetic search keeps, and the number that
/// it adds to them in a generation: both at least 200.
pub open spec fn spec_population_size(num_cities: nat) -> nat {
    if num_cities < 200 {
        200
    } else {
        num_cities
    }
}

/// Chooses the strategy for an instance of `num_cities` cities: brute
/// force below ten cities, else the genetic search with the time limit of
/// the instance's size.
pub fn choose_strategy(num_cities: usize) -> (strategy: Strategy)
    ensures
        strategy == spec_strategy(num_cities as nat),
{
    if num_cities < 10 {
        Strategy::BruteForce
    } else if num_cities < 100 {
        Strategy::Genetic { time_limit_secs: 60 - MARGIN }
    } else if num_cities < 200 {
        Strategy::Genetic { time_limit_secs: 75 - MARGIN }
    } else if num_cities < 500 {
        Strategy::Genetic { time_limit_secs: 120 - MARGIN }
    } else {
        Strategy::Genetic { time_limit_secs: 300 - MARGIN }
    }
}

/// The size of the population for an instance of `num_cities` cities.
pub fn population_size(num_cities: usize) -> (size: usize)
    ensures
        size == spec_population_size(num_cities as nat),
{
    if num_cities < 200 {
        200
    } else {
        num_cities
    }
}

} // verus!
