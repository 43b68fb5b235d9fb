//! The worker pool sizing of both pipelines: all cores but two, and never
//! fewer than one worker.

use vstd::prelude::*;

verus! {

/// Relies on num_cpus::get: the number of available CPUs, at least 1.
pub assume_specification[ num_cpus::get ]() -> (r: usize)
    ensures
        r >= 1,
;

/// The worker count for a machine with this many cores: all of them but
/// two, which stay reserved for the producer and the writer, and at least
/// one.
pub open spec fn spec_worker_count(cores: usize) -> usize {
    if cores > 3 {
        (cores - 2) as usize
    } else {
        1
    }
}

/// Computes the worker count for a core count.
pub fn worker_count_for(cores: usize) -> (r: usize)
    ensures
        r == spec_worker_count(cores),
        r >= 1,
{
    if cores > 3 {
        cores - 2
    } else {
        1
    }
}

/// The worker count of this machine.
pub fn worker_count() -> (r: usize)
    ensures
        r >= 1,
{
    let cores = num_cpus::get();
    worker_count_for(cores)
}

} // verus!
