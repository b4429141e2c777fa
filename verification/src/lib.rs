//! Core of a live-memory introspection toolkit: a value scanner over the
//! target's mapped pages, a pointer map of the target's address space, an
//! offset-chain resolver over the pointer graph, a code-anchor extractor
//! for IP-relative static data references, and the value encoding layer of
//! the frontend. All passes work over a snapshot of the target's memory;
//! the surrounding program reads and writes the live target and hands the
//! bytes in.

pub mod disasm;
pub mod error;
pub mod num;
pub mod pointer_map;
pub mod snapshot;
pub mod target;
pub mod value_scanner;
pub mod values;
