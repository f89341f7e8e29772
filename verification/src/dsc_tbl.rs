//! Descriptors of the segment and interrupt tables.

pub mod gdt;
pub mod idt;
