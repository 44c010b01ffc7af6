//! A verified interpreter for a minimal byte-tape esoteric language:
//! a parser that turns source text into a jump-resolved command sequence,
//! and an execution engine that runs it against a fixed-length byte tape.

pub mod bf;
pub mod cmds;
pub mod matching;
