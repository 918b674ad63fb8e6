//! How many workers a run gets.

use vstd::prelude::*;
use crate::chunker::CHUNK_SIZE;

verus! {

/// How many chunks may wait between the reader and the workers.
pub const MAX_NUMBER_IN_FLIGHT_CHUNKS: usize = 32;

/// The number of workers for an input of `file_size` bytes on a machine that
/// runs `available` threads at once: one for each chunk that the input
/// fills, at least one, and no more than the machine runs.
pub open spec fn pool_size(available: nat, file_size: nat, chunk_size: nat) -> nat {
    let wanted = if file_size / chunk_size < 1 {
        1
    } else {
        file_size / chunk_size
    };
    if available < wanted {
        available
    } else {
        wanted
    }
}

/// Computes the number of workers for an input of `file_size` bytes.
pub fn number_of_processors(available: usize, file_size: u64, chunk_size: usize) -> (count: usize)
    requires
        chunk_size > 0,
    ensures
        count == pool_size(available as nat, file_size as nat, chunk_size as nat),
        available >= 1 ==> count >= 1,
{
    let filled: u64 = file_size / (chunk_size as u64);
    let wanted: u64 = if filled < 1 {
        1
    } else {
        filled
    };
    if (available as u64) < wanted {
        available
    } else {
        wanted as usize
    }
}

/// Calls `num_cpus::get`.
///
/// Trusted: the count depends on the machine and on the limits set for the
/// process; the crate documents that it is never below one.
#[verifier::external_body]
fn available_parallelism() -> (count: usize)
    ensures
        count >= 1,
{
    num_cpus::get()
}

/// The number of workers for an input of `file_size` bytes on this machine,
/// with chunks of the default size.
pub fn processors_for(file_size: u64) -> (count: usize)
    ensures
        count >= 1,
        count <= pool_size(usize::MAX as nat, file_size as nat, CHUNK_SIZE as nat),
        exists|available: nat|
            available >= 1 && count == #[trigger] pool_size(
                available,
                file_size as nat,
                CHUNK_SIZE as nat,
            ),
{
    let available = available_parallelism();
    number_of_processors(available, file_size, CHUNK_SIZE)
}

} // verus!
