//! Virtual-memory translation and page-granular mapping for a teaching kernel:
//! page-table entries, a three-level radix page table kept in a modelled
//! physical memory, a translator for user buffers that cross page boundaries,
//! the mmap/munmap engine, and the decisions of the process syscalls.

pub mod address;
pub mod pte;
pub mod frame;
pub mod page_table;
pub mod mapping;
pub mod process;
