//! Minimum-cost sweeps across a grid, column by column, with three ways of
//! keeping the backpointers that rebuild the cheapest path, and a log of
//! allocator samples that measures what each way costs in memory.
pub mod linear;
pub mod memory_profiler;
pub mod reference_count;
pub mod reference_count_plus;
pub mod score;
pub mod sweep;
