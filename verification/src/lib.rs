//! Core of a small Sv39 multitasking kernel, written as a verified model.
//!
//! The crate models the machine-dependent state the kernel manipulates
//! (physical frames, three-level page tables, trap frames) as plain data,
//! and verifies the kernel's own logic over that state: address arithmetic,
//! address spaces with copy-on-write fork and a growable data segment,
//! trap dispatch, thread bookkeeping and the ready-queue scheduler.

pub mod config;

pub mod elf;

pub mod address;

pub mod address_space;

pub mod frame;

pub mod page_table;

pub mod fs;

pub mod heap;

pub mod laws;

pub mod log;

pub mod mm;

pub mod process;

pub mod pte;

pub mod sched;

pub mod thread;

pub mod trap;
