//! The kernel core of ArenaOS: the boot hand-off record, physical frames,
//! page tables, processes and their capabilities, IPC, scheduling, the system
//! call surface, device discovery and the self-test payloads.
//!
//! Every module keeps its state in a value that the caller owns and hands in;
//! nothing here touches a port, a control register or a raw pointer.

pub mod accounts;
pub mod bits;
pub mod boot;
pub mod bootinfo;
pub mod bytes;
pub mod cap;
pub mod console;
pub mod context;
pub mod cpu;
pub mod demos;
pub mod drills;
pub mod elf;
pub mod entry;
pub mod faults;
pub mod frames;
pub mod gdt;
pub mod halt;
pub mod handoff;
pub mod heap;
pub mod idt;
pub mod intc;
pub mod ipc;
pub mod kernel;
pub mod laws;
pub mod listing;
pub mod log;
pub mod m1;
pub mod m2;
pub mod m3;
pub mod m4;
pub mod m5;
pub mod memory_type;
pub mod needs;
pub mod paging;
pub mod pairs;
pub mod payloads;
pub mod pci;
pub mod pe;
pub mod pit;
pub mod ports;
pub mod preempt;
pub mod proc;
pub mod relay;
pub mod rest;
pub mod ring;
pub mod sched;
pub mod serial;
pub mod solo;
pub mod status;
pub mod suite;
pub mod syscall;
pub mod timekeeping;
pub mod tss;
pub mod uefi;
pub mod verdicts;
pub mod views;
pub mod window;
