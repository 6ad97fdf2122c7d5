//! Serialization of PDF documents: objects, cross-reference tables and
//! streams, full and incremental saves, with their contracts proved by Verus.

pub mod error;
pub mod number;
pub mod text;
pub mod object;
pub mod decimal;
pub mod sink;
pub mod syntax;
pub mod writer;
pub mod xref;
pub mod table;
pub mod document;
pub mod free_list;
pub mod save;
pub mod body;
pub mod full_save;
pub mod save_options;
pub mod packing;
pub mod members;
pub mod options;
pub mod copy;
pub mod incremental;
