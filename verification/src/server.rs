//! Limits of the server.

use vstd::prelude::*;

verus! {

/// The number of threads, where 0 stands for as many as there are processors, and
/// two at least.
pub fn thread_count(requested: usize, cpus: usize) -> (r: usize)
    ensures
        r == (if requested != 0 {
            requested
        } else if cpus > 2 {
            cpus
        } else {
            2
        }),
{
    if requested != 0 {
        requested
    } else if cpus > 2 {
        cpus
    } else {
        2
    }
}

/// The number of requests that are worked on at once: four for each connection, as far
/// as they can be counted, and one at least.
pub fn global_concurrency(max_connections: usize) -> (r: usize)
    ensures
        r == (if max_connections == 0 {
            1
        } else if 4 * max_connections > usize::MAX {
            usize::MAX as int
        } else {
            4 * max_connections
        }),
{
    if max_connections == 0 {
        1
    } else if max_connections > usize::MAX / 4 {
        usize::MAX
    } else {
        4 * max_connections
    }
}

} // verus!
