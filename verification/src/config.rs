//! Sizes of work above which the coder would split its work between threads.
use vstd::prelude::*;

verus! {

/// The library's configuration.
pub struct Config;

/// The number of samples above which each kind of work pays for threads.
pub struct MultithreadingFactors {
    pub linear_horizontal_lifting: usize,
    pub linear_vertical_lifting: usize,
    pub cubic_horizontal_lifting: usize,
    pub cubic_vertical_lifting: usize,
    pub quantization: usize,
    pub compress: usize,
}

impl Config {
    /// The default factors.
    pub fn multithreading_factors() -> (r: MultithreadingFactors)
        ensures
            r.linear_horizontal_lifting == 128 * 128,
            r.linear_vertical_lifting == 128 * 128,
            r.cubic_horizontal_lifting == 64 * 64,
            r.cubic_vertical_lifting == 64 * 64,
            r.quantization == 96 * 96,
            r.compress == 128 * 128,
    {
        MultithreadingFactors {
            linear_horizontal_lifting: 128 * 128,
            linear_vertical_lifting: 128 * 128,
            cubic_horizontal_lifting: 64 * 64,
            cubic_vertical_lifting: 64 * 64,
            quantization: 96 * 96,
            compress: 128 * 128,
        }
    }
}

} // verus!
