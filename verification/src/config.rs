//! What a run is given: the size of the buffer and the number of workers,
//! with the values taken when the caller names none.

use vstd::prelude::*;

verus! {

/// Buffer size in MiB when none is given: 8 GiB.
pub const DEFAULT_BUFFER_SIZE_MB: usize = 8192;

/// Bytes in one MiB.
pub const BYTES_PER_MIB: usize = 1_048_576;

/// The size of the buffer, in MiB, and the number of worker threads.
#[derive(Clone, Copy, Debug, PartialEq, Eq, Structural)]
pub struct Config {
    pub buffer_size_mb: usize,
    pub thread_count: usize,
}

/// `num_cpus::get` returns the number of logical CPUs that this process may
/// use. The number differs from machine to machine; the crate documents that
/// it is never below 1, and that is all that is claimed of it.
pub assume_specification[ num_cpus::get ]() -> (count: usize)
    ensures
        count >= 1,
;

/// The value that was given, or `fallback` where none was.
pub open spec fn given_or(given: Option<usize>, fallback: usize) -> usize {
    match given {
        Some(value) => value,
        None => fallback,
    }
}

impl Config {
    /// The configuration for what the caller gave, on a machine with `cpus`
    /// CPUs: a missing buffer size becomes `DEFAULT_BUFFER_SIZE_MB`, a missing
    /// thread count becomes `cpus`.
    pub fn with_defaults(
        buffer_size_mb: Option<usize>,
        thread_count: Option<usize>,
        cpus: usize,
    ) -> (config: Config)
        ensures
            config.buffer_size_mb == given_or(buffer_size_mb, DEFAULT_BUFFER_SIZE_MB),
            config.thread_count == given_or(thread_count, cpus),
    {
        let size: usize = match buffer_size_mb {
            Some(value) => value,
            None => DEFAULT_BUFFER_SIZE_MB,
        };
        let threads: usize = match thread_count {
            Some(value) => value,
            None => cpus,
        };
        Config { buffer_size_mb: size, thread_count: threads }
    }

    /// The configuration for what the caller gave, on this machine. A thread
    /// count that was not given is the machine's CPU count, which is at
    /// least 1.
    pub fn resolve(buffer_size_mb: Option<usize>, thread_count: Option<usize>) -> (config: Config)
        ensures
            config.buffer_size_mb == given_or(buffer_size_mb, DEFAULT_BUFFER_SIZE_MB),
            thread_count matches Some(threads) ==> config.thread_count == threads,
            thread_count is None ==> config.thread_count >= 1,
    {
        let cpus: usize = num_cpus::get();
        Config::with_defaults(buffer_size_mb, thread_count, cpus)
    }

    /// The buffer's size in bytes, or `None` where that number does not fit
    /// the machine's address width.
    pub fn total_bytes(&self) -> (bytes: Option<usize>)
        ensures
            self.buffer_size_mb * BYTES_PER_MIB <= usize::MAX ==> bytes == Some(
                (self.buffer_size_mb * BYTES_PER_MIB) as usize,
            ),
            self.buffer_size_mb * BYTES_PER_MIB > usize::MAX ==> bytes is None,
    {
        self.buffer_size_mb.checked_mul(BYTES_PER_MIB)
    }
}

} // verus!
