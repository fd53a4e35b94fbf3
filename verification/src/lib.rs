//! Ingestion, canonicalization and range compaction for the Unicode
//! Character Database.
//!
//! The files of the database are read as bytes and pass through these
//! stages, each of which fails the run rather than drop a line:
//!
//! * [`line`] splits a line into its fields;
//! * [`record`] decodes the lines of a file into rows, each about the
//!   codepoints that its first field names;
//! * [`expand`] turns rows into records that carry one closed range each,
//!   pairing the rows that open and close a range;
//! * [`aliases`] holds the alias tables and resolves any name of a property
//!   value to its canonical name;
//! * [`aggregate`] groups the codepoints of the records by canonical value;
//! * [`general_category`] computes the general category sets, the
//!   unassigned codepoints among them, and the groups of related
//!   categories.
//!
//! Sets of codepoints are kept as minimal lists of ranges ([`range_set`]),
//! and named sets in the order of their names ([`buckets`]), so that what
//! is written out depends on the sets alone.

pub mod aggregate;
pub mod aliases;
pub mod buckets;
pub mod error;
pub mod expand;
pub mod general_category;
pub mod line;
pub mod range_set;
pub mod record;
pub mod text;
