//! Conversions between plain values and the bytes that represent them.
//!
//! A plain value (see [`Plain`]) is fully described by a fixed number of bytes.
//! [`AsBytes`] turns a value, or a run of values, into those bytes;
//! [`WithBytes`] reads them back, trusting the caller that the buffer suits the
//! type; [`TryWithBytes`] reads them back after checking the buffer.
pub mod convert;
pub mod le;
pub mod plain;
pub mod sequence;

pub use convert::{AsBytes, TryWithBytes, WithBytes};
pub use plain::Plain;
