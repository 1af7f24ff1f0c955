//! Reverse geocoding: the nearest known place to a latitude/longitude pair,
//! answered from a balanced two-dimensional index built once over a fixed
//! set of place records.
//!
//! Coordinates are fixed-point integers (see [`record::UNITS_PER_DEGREE`]) and
//! distances are squared Euclidean distances over the raw coordinate values.

pub mod geocoder;
pub mod load;
pub mod record;

pub use geocoder::ReverseGeocoder;
pub use load::{parse_coordinate, RawRow};
pub use record::{GeocoderError, Locations, Record, UNITS_PER_DEGREE};
