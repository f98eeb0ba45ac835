//! Convention-based analysis of the "use runner" directive in syntax trees,
//! together with a static extraction engine that indexes exported runner
//! functions and their schema declarations.
//!
//! The parser that turns source text into a tree is an external collaborator:
//! callers hand the library a tree already converted into the node types
//! defined here, and the library walks, validates, strips and indexes it.

pub mod ast;
pub mod discover;
pub mod metadata;
pub mod paths;
pub mod text;
pub mod transform;
pub mod types;
pub mod typo;
