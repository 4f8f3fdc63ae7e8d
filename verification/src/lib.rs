//! Go to definition, declaration and implementation from a tag index.
//!
//! A symbol is looked up in three steps. The identifier under the cursor is
//! read from the text of the open document ([`document`]). An indexer is
//! asked for the tag records of that name, in the tag index of the first
//! workspace root that has one ([`workspace`], [`ctags`]). The records that
//! the request asks for are then found in the source files as they are now,
//! each in the first line that holds its pattern and its name
//! ([`goto_handler`], [`server`]).
//!
//! The library decides and computes; it runs no program and reads no file.
//! Whoever drives it runs the indexer and reads the sources, and hands over
//! what came of that.

pub mod ctags;
pub mod document;
pub mod goto_handler;
pub mod initialize_handler;
pub mod server;
pub mod text;
pub mod workspace;
