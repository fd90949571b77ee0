//! Reshapes schema-described JSON configuration data between its list-style
//! form (arrays of records that carry their key fields) and its map-style
//! form (objects nested one level per key field), and renders an options
//! skeleton and a coloured structural diff from the same schema.
pub mod json;
pub mod schema;
pub mod reshape;
pub mod navigate;
pub mod plan;
pub mod convert;
pub mod round_trip;
pub mod commute;
pub mod options;
pub mod diff;
