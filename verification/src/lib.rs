//! A non-deterministic Turing machine simulator: a branch scheduler explores
//! the computation tree best-first under a step budget, over tapes of
//! fixed-width byte cells with a two-cell cursor cache and cheap splitting.

pub mod machine;
pub mod rules;
pub mod tape;
