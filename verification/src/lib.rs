//! texpand: expands the local `#include` dependencies of a C/C++ source file
//! into a single file, with an optional token-level compression that keeps
//! the program's meaning.

pub mod text;
pub mod syntax;
pub mod compressor;
pub mod parser;
pub mod expander;
pub mod resolver;
pub mod graph;
pub mod sexp;
pub mod config;
pub mod cli;
pub mod vscode;

use vstd::prelude::*;

verus! {

} // verus!
