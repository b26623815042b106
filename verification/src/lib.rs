//! An in-memory store of records with a second way in: every record sits
//! under its key, and an index tells for every category which records belong
//! to it.
//!
//! # The model
//!
//! A [`Table`] is seen as the map from keys to records (`table@`). The index
//! is no state of its own: at all times it holds a key under a category
//! exactly when the record under that key belongs to the category, and it has
//! no empty bucket. This is the type invariant [`Table::wf`], which every
//! operation is proved to keep. What an operation does is therefore said over
//! the map alone: [`model`] has the words for it, [`batch`] those for
//! replacing many records at once, and [`laws`] what follows for every table.
//!
//! # Records
//!
//! A record type implements [`TableRecord`] in ordinary Rust. The table asks
//! that keys and categories hash and compare soundly and that the key and the
//! categories of a record depend on the record alone
//! ([`record::well_behaved`]); a table can only be made for such a type.
//!
//! # Failure
//!
//! An operation that is refused returns a [`QueryError`] and leaves the table
//! as it was.
//!
//! # Choices
//!
//! - [`Table::remove_cat`] removes the records of a category from every
//!   bucket that lists them, not from the bucket of that category alone.
//! - [`Table::update_by_cat`] looks at all changed records before it stores
//!   one. It refuses a batch in which two records end up with one key, as it
//!   refuses one in which a record ends up on a record outside the batch.
//! - A change that keeps the key stores the changed record, and moves the key
//!   between the buckets of the categories that differ.

pub mod batch;
pub mod error;
pub mod index;
pub mod laws;
pub mod model;
pub mod record;
pub mod table;

pub use error::QueryError;
pub use record::TableRecord;
pub use table::Table;
