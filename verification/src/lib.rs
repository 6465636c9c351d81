//! Concurrency and allocation primitives for a single-core, bare-metal
//! runtime: an interrupt-masking critical section and a lock built on it,
//! an intrusive fixed-capacity pool allocator, and a typed bounded
//! single-producer/single-consumer mailbox.
//!
//! The processor's interrupt-control register is the one piece of global
//! mutable hardware state everything here rests on. It is modelled
//! explicitly as [`tasks::Cpu`], passed to the operations that read or
//! write it, so that every contract can say exactly which interrupt state
//! is saved and restored.
use vstd::prelude::*;

pub mod mailbox;
pub mod pool_alloc;
pub mod tasks;

verus! {

/// Opaque stand-in for C `void` in the kernel's entry points. Code that
/// declares those entry points needs some nominal element type for untyped
/// buffer pointers; no value of this type is ever constructed.
pub enum CVoid {
    __Variant1,
    __Variant2,
}

} // verus!
