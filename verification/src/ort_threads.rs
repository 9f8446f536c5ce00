//! Threading policy for the inference sessions.
//!
//! The intra-op pool busy-waits, so on a small host more than two threads
//! starve the audio threads and make the chain slower. On a wide machine that
//! clamp would leave most of it idle, so there a quarter of the cores is used.

use crate::text;
use vstd::prelude::*;

verus! {

/// Up to this core count the measured clamp of two threads applies.
pub const SMALL_HOST_CORES: usize = 8;

/// Even on a very wide machine more threads than this stop paying.
pub const MAX_INTRA_THREADS: usize = 8;

/// Threads for a machine with that many cores.
pub open spec fn policy(cores: nat) -> nat {
    if cores <= SMALL_HOST_CORES {
        if cores < 2 {
            cores
        } else {
            2
        }
    } else if cores / 4 < 2 {
        2
    } else if cores / 4 > MAX_INTRA_THREADS {
        MAX_INTRA_THREADS as nat
    } else {
        cores / 4
    }
}

/// Threads for a machine with that many cores.
pub fn threads_for(cores: usize) -> (n: usize)
    ensures
        n == policy(cores as nat),
{
    if cores <= SMALL_HOST_CORES {
        if cores < 2 {
            cores
        } else {
            2
        }
    } else if cores / 4 < 2 {
        2
    } else if cores / 4 > MAX_INTRA_THREADS {
        MAX_INTRA_THREADS
    } else {
        cores / 4
    }
}

/// The intra-op thread count to pin on each session. A setting that writes a
/// count wins over the core count.
pub fn intra_op_threads(setting: Option<&str>, cores: usize) -> (n: usize)
    ensures
        n == (match setting {
            Some(s) => match text::written_count(s@) {
                Some(k) if k <= usize::MAX => if k < 1 {
                    1
                } else {
                    k
                },
                _ => policy(cores as nat),
            },
            None => policy(cores as nat),
        }),
{
    match setting {
        Some(s) => match text::parse_count(s) {
            Some(k) => if k < 1 {
                1
            } else {
                k
            },
            None => threads_for(cores),
        },
        None => threads_for(cores),
    }
}

/// On a machine with a core at least one thread is used and at most eight,
/// never more than the machine has, and on a wide one never more than a
/// quarter of it.
pub proof fn law_policy_leaves_room(cores: nat)
    requires
        cores >= 1,
    ensures
        1 <= policy(cores) <= MAX_INTRA_THREADS,
        policy(cores) <= cores,
        cores > SMALL_HOST_CORES ==> 4 * policy(cores) <= cores,
{
}

/// More cores never get fewer threads, and a wide machine gets a quarter of its
/// cores, as far as that is between two and eight.
pub proof fn law_threads_grow_with_the_machine(cores: nat, more: nat)
    requires
        cores <= more,
    ensures
        policy(cores) <= policy(more),
        2 <= cores <= 8 ==> policy(cores) == 2,
        8 < cores <= 32 ==> 4 * policy(cores) <= cores < 4 * (policy(cores) + 1),
        cores >= 32 ==> policy(cores) == 8,
{
}

} // verus!
