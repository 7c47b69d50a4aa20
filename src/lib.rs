//! A forward-chaining saturation engine over Horn rules, with proof
//! reconstruction as derivation trees.
pub mod ast;
pub mod convert;
pub mod derivation_tree;
pub mod engine;
pub mod identifiers;
pub mod render;
pub mod unify;

pub use ast::{Atom, InnerAtom, InnerRule, InnerTerm, Rule, Term};
pub use derivation_tree::DerivationTree;
pub use engine::{LoadError, SaturationFailure, Sniffer};
pub use identifiers::{IdentifierServer, UnknownIdentifier};
pub use unify::{assign, AssignFailure};
