//! A teaching-grade multitasking kernel, modelled and verified: physical
//! frame allocation, three-level page tables, address spaces built from
//! executable images, a block-device-backed file system with allocation
//! bitmaps and a doubly indirect block index, pipes, mailboxes, hard links,
//! a stride scheduler, and the syscall layer that ties them together over
//! an explicit machine state.

pub mod config;
pub mod addr;
pub mod frame_allocator;
pub mod page_table;
pub mod memory_set;
pub mod elf;
pub mod pipe;
pub mod mail_box;
pub mod task;
pub mod kernel;
pub mod block_dev;
pub mod bitmap;
pub mod layout;
pub mod efs;
pub mod inode;
