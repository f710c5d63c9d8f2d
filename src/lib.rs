//! Turns a tree of named nodes into HTML text, with scoped `$variables`,
//! reusable templates, loops and file imports.
//!
//! Reading files is left to the caller: a build that pulls in a file it was
//! not given stops with `Error::SourceNotLoaded`, and the caller loads that
//! file into its `Sources` and builds again.

pub mod emitter;
pub mod error;
pub mod node;
pub mod plugin;
pub mod template;
pub mod text;
pub mod vars;
