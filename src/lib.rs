//! Recovery of MPEG-1 Layer III streams hidden behind a period-4 byte swap.
//!
//! `deobfuscate` undoes the swap for one phase, `extract` finds runs of
//! back-to-back valid frames, and `pipeline` ties the two together over all
//! four phases.

pub mod header;
pub mod deobfuscate;
pub mod extract;
pub mod pipeline;
