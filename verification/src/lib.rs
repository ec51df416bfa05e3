//! Rewrites the relative module-import strings inside TypeScript and TSX
//! sources when a file, or a file it imports, is moved within a project
//! tree.
//!
//! The crate is pure computation: paths are handled as text by the algebra
//! in [`path`], import strings are converted to and from paths by
//! [`import_string`], the parser in [`parser`] locates every import-target
//! string literal, and the engine in [`edit`] applies a rewrite rule to each
//! located literal. Bare (package) imports are never touched. Reading and
//! writing files, and walking a project tree, belong to the caller.

pub mod buffer;
pub mod edit;
pub mod error;
pub mod import_string;
pub mod parser;
pub mod path;
