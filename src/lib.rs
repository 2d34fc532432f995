//! Fixed-width, little-endian encoding of field elements and of fixed-size
//! arrays of them.

pub mod field_serde;

pub use field_serde::{deserialize_all, serialize_all, FieldSerde, SerdeError};
