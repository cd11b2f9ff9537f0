//! Portable kernel core: the object, capability, messaging, scheduling,
//! paging and power logic of a small capability kernel, with machine-checked
//! contracts. Nothing in this crate touches hardware: what a processor, a page
//! table or a clock must do is handed back to the caller as a plain value.

pub mod config;
pub mod devmgr;
pub mod error;
pub mod exec;
pub mod fault;
pub mod firmware;
pub mod frame;
pub mod handle;
pub mod hardware;
pub mod heap;
pub mod ipc;
pub mod job;
pub mod lifecycle;
pub mod loader;
pub mod machine_lock;
pub mod memory;
pub mod object;
pub mod occupancy;
pub mod pager;
pub mod panic;
pub mod percpu;
pub mod pmem;
pub mod port;
pub mod power;
pub mod preempt;
pub mod process;
pub mod rights;
pub mod scaling;
pub mod sched;
pub mod secondary;
pub mod slots;
pub mod space;
pub mod thread;
pub mod wait;

pub use crate::panic::{
    dispositions, enter, entry, is_panicking, law_only_the_first_panic_is_reported, panicking_after,
    PanicDisposition, PanicState,
};
