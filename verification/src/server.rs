//! The listener's decisions that pure logic makes: how many connections
//! may run at once, and the exponential back-off of the accept loop. The
//! accept loop itself, the semaphore and the shutdown plumbing drive these
//! from outside.

use vstd::prelude::*;

verus! {

/// Greatest number of connections the listener admits at once; accepting
/// waits until a running handler finishes.
pub const MAX_CONNECTIONS: usize = 250;

/// After a transient accept failure the loop sleeps `backoff` seconds and
/// doubles it, starting from 1; a failure arriving with the back-off
/// already past 64 seconds is fatal, which `None` reports.
pub fn next_backoff(backoff: u64) -> (r: Option<u64>)
    ensures
        r == (if backoff > 64 {
            None
        } else {
            Some((backoff * 2) as u64)
        }),
{
    if backoff > 64 {
        None
    } else {
        Some(backoff * 2)
    }
}

/// The admission bound, for the listener to size its semaphore by.
pub fn max_connections() -> (n: usize)
    ensures
        n == MAX_CONNECTIONS,
{
    MAX_CONNECTIONS
}

} // verus!
