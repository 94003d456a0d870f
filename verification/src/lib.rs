//! Tangling of literate documents: named blocks of source lines are gathered
//! from a token stream and reassembled into output files, with references
//! between blocks expanded recursively and indentation carried along.
//!
//! The work is done in two phases. [`parse_doc`] reads the tokens of a whole
//! document into two registries, one from block names to bodies and one from
//! output paths to block names. Only then does [`tangle_all`], or [`tangle`]
//! for a single block, expand blocks into text, so that a block may refer to
//! one that is declared after it.

pub mod assoc;
pub mod document;
pub mod document_laws;
pub mod laws;
pub mod option;
pub mod reference;
pub mod registry;
pub mod renaming;
pub mod tangle;
pub mod text;

pub use crate::document::{parse_doc, Argument, Token};
pub use crate::option::unwrap_clone;
pub use crate::reference::{parse_reference, MacroReference};
pub use crate::registry::{NameToBody, PathToName};
pub use crate::tangle::{tangle, tangle_all, TangleError, TangleFailure, TangleRun, TangledFile};
