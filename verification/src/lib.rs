//! Generation of byte-by-byte matchers for a closed vocabulary of literals.
//!
//! A table of literals is folded into a prefix tree (`trie`). The method that
//! matches a token against the tree is stated as a value (`method`). Its
//! source text is printed from that value (`emit`), and what it returns on an
//! input is stated of the same value (`matcher`). What follows for the tree
//! of a table is proved in `guarantees`.

pub mod emit;
pub mod guarantees;
pub mod matcher;
pub mod method;
pub mod trie;

pub use crate::emit::{generate_branchified_method, write_method};
pub use crate::matcher::{interpret, run_matcher, Outcome, Rules};
pub use crate::method::{build_method, Arms, Ending, Switch};
pub use crate::trie::{branchify, DuplicateKey, ParseBranch};
