//! Benchmarks between pairs of cores.

pub mod cas;
pub mod csv_output;
pub mod laws;
pub mod outcome;
pub mod record;
pub mod report;
pub mod samples;
pub mod schedule;
pub mod stats;
pub mod sweep;

pub use stats::Stats;

use crate::cores::CoreId;
use crate::double::Double;
use vstd::prelude::*;

verus! {

/// How many iterations or samples.
pub type Count = u32;

/// A benchmark between two cores.
pub trait Bench {
    /// Measures the latency between two cores: for each address, `num_samples`
    /// samples of `num_iterations` iterations each, in nanoseconds.
    fn run(
        &self,
        cores: (CoreId, CoreId),
        num_iterations: Count,
        num_samples: Count,
    ) -> Vec<Vec<Double>>;

    /// Whether the benchmark on one order of two cores is the same as on the
    /// other.
    fn is_symmetric(&self) -> (r: bool)
        default_ensures
            r,
    {
        true
    }

    /// The number of addresses that the benchmark tests.
    fn num_addresses(&self) -> (r: usize)
        default_ensures
            r == 1,
    {
        1
    }

    /// The virtual address of each address; empty where that means nothing.
    fn address_ptrs(&self) -> (r: Vec<usize>)
        default_ensures
            r@.len() == 0,
    {
        Vec::new()
    }

    /// The NUMA node where the memory is; 0 where that means nothing.
    fn mem_numa(&self) -> (r: usize)
        default_ensures
            r == 0,
    {
        0
    }
}

} // verus!
