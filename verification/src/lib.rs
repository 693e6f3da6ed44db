//! Decoding of a loosely typed data dump into a typed model, and inference of the shape of
//! its fields.
//!
//! A dump is one JSON document: a map from record category to a map from natural key to
//! record. [`value::RawValue`] holds such a document. The decoders of [`decode`] read scalars
//! that the dump writes in more than one way, [`record::Schema`] reads a record from a table
//! of fields and keeps what the table does not know, and [`preset::Preset`] is the model,
//! whose records carry dense identifiers from [`id_generator`].
//!
//! [`lattice`] is for the design of the field tables: it summarises the values seen for a
//! field over a corpus ([`lattice::shape::ShapeDescriptor`]), merges such summaries and
//! collapses a finished one into a decision.
//!
//! No module holds a floating-point number. A number of the dump is kept as its literal, and
//! a range of floating-point numbers as order keys: see [`lattice::float_key`].

pub mod decode;
pub mod error;
pub mod gfx;
pub mod graph;
pub mod id_generator;
pub mod lattice;
pub mod message;
pub mod order;
pub mod preset;
pub mod record;
pub mod records;
pub mod root;
pub mod selector;
pub mod table;
pub mod text;
pub mod value;
