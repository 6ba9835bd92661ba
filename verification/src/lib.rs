//! Conversion of JSON objects into CSV rows.
//!
//! Each object is flattened into keys and plain values; the header row is
//! the union of the keys of all objects, sorted or in the order in which
//! keys are first met; each object then gives one record.

pub mod collect;
pub mod config;
pub mod convert;
pub mod error;
pub mod flat;
pub mod headers;
pub mod laws;
pub mod record;
pub mod restore;
pub mod text;

pub use convert::Json2Csv;
pub use csv;
pub use error::Error;
pub use flatten_json_object;
