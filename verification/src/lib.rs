//! An interpreter for an Unlimited Register Machine: programs built from
//! four primitive instructions act on natural-number registers, and the
//! value left in register 0 at halt is the result.

pub mod compaction;
pub mod machine;
pub mod memory;
pub mod semantics;
pub mod urm;
