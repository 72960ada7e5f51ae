//! Active inference for goal-directed behaviour: the discrete, integer part.
//!
//! `policy` enumerates, filters and fingerprints action sequences;
//! `action` reads actions out of a policy and rolls a policy forward
//! through a deterministic transition function.

pub mod action;
pub mod digits;
pub mod policy;
