//! A proof object model for RPN proofs: a deduplicating, structurally
//! hashed proof-tree store, with shortest-path indentation metrics and two
//! step encoders (backreference-compacting and streaming).

pub mod encode;
pub mod hashing;
pub mod indent;
pub mod style;
pub mod tree;

pub use encode::{NormalIter, RPNStep};
pub use style::ProofStyle;
pub use tree::{ProofTree, ProofTreeArray, StatementAddress};
