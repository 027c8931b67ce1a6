//! Building blocks of a memory-bandwidth benchmark: how a buffer is divided
//! among workers, what each worker copies or sums, and how a timed run turns
//! into a bandwidth figure. Threads and clocks are left to the caller; every
//! function here is a plain computation with a proved contract.

mod accumulator;
pub mod config;
pub mod copy_engine;
pub mod partition;
pub mod report;
pub mod sum_engine;
