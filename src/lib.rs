//! A tape-machine language of eight single-character operations: a
//! run-length encoder that resolves loop brackets into jump targets, and a
//! step-by-step interpreter over a fixed-size byte tape.
pub mod machine;
pub mod program;
