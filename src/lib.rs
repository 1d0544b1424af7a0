//! Passenger-manifest analysis: a fixed column schema, typed field checks and
//! a single-pass tally over the records of a comma-separated source.

pub mod csv_processing;
pub mod fields;
pub mod schema;
pub mod source;
