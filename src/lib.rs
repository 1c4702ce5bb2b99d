//! Random-dot autostereogram synthesis: a depth field and a narrow noise
//! tile are turned, row by row, into a colour buffer that encodes depth
//! through which columns repeat which.
pub mod arith;
pub mod depth;
pub mod pattern;
pub mod strings;
pub mod synth;
