//! Sorting and priority queues.
pub mod elementary_sort;
pub mod merge_sort;
pub mod priority_queue;
pub mod quick_sort;
