//! A small brainf*ck toolchain (lexer, run-length compressor, jump resolver
//! and a tape machine) together with a few verified utility routines.
pub mod bf;
pub mod closest;
pub mod collatz;
pub mod compression;
pub mod machine;
pub mod sorting;
pub mod translate;

pub use bf::{compute_jumps, lex, parse, parse_tokens, Insn, InsnKind, StructuralError};
pub use closest::to_zero;
pub use collatz::{collatz, par_steps_sum, steps, steps_sum};
pub use machine::{add_cell, sub_cell, Machine, RunError, TAPE_LEN};
pub use sorting::{bubble_sort, insertion_sort, selection_sort};
pub use translate::translate;
