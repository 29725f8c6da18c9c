//! A compiler and virtual machine for an eight-operator tape language.
//!
//! Source text is lexed into operator symbols ([`token`]), parsed into a
//! tree that mirrors the loop structure ([`ast`]), rewritten into a flat
//! instruction sequence ([`optimize`], [`opcode`]), resolved so that every
//! loop boundary knows its partner ([`jumps`], [`nesting`]), and executed on
//! a wrapping tape ([`program`], [`tape`]) while a profiler counts the loops
//! that are entered ([`trace`]).
//!
//! What running a program means is written down in [`machine`], what a tree
//! means in [`semantics`]. That the optimizer changes nothing but the speed
//! is proved in [`equivalence`], by way of [`simulation`] and [`readings`].

pub mod ast;
pub mod equivalence;
pub mod jumps;
pub mod machine;
pub mod nesting;
pub mod opcode;
pub mod optimize;
pub mod program;
pub mod readings;
pub mod semantics;
pub mod simulation;
pub mod tape;
pub mod token;
pub mod trace;
