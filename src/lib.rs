//! Memory-management core of a small Sv39 kernel: typed addresses and packed
//! page-table entries, a physical frame allocator over a modelled physical
//! memory, a three-level page table stored in that memory, and a first-fit heap
//! allocator that grows by mapping fresh frames.

pub mod addr;
pub mod entry;
pub mod kalloc;
pub mod page_table;
pub mod heap;
pub mod physical_memory_manager;
pub mod proc;
pub mod trapframe;
pub mod vm;
