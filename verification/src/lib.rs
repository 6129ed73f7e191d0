//! Storage layout of a small relational database: typed identifiers, rows and
//! schemas, and the fixed-size pages of a B+tree, with their byte encodings.
pub mod bpm;
pub mod bytes;
pub mod commontypes;
pub mod display;
pub mod format_laws;
pub mod header;
pub mod insert;
pub mod insert_laws;
pub mod laws;
pub mod layout;
pub mod list;
pub mod merge;
pub mod merge_laws;
pub mod order;
pub mod order_laws;
pub mod page;
pub mod page_laws;
pub mod schema;
pub mod schema_laws;
pub mod split;
pub mod split_laws;
pub mod text;
pub mod traits;
pub mod value_laws;
pub mod varint;
