//! A reference fixture for a canonical, deterministic encoding scheme over a
//! fixed catalogue of value shapes: booleans, tagged enumerations with and
//! without payloads, fixed-size arrays and tuples, signed and unsigned
//! integers from 8 to 128 bits, fixed-width domain identifiers, and nested
//! variable-length text collections.
//!
//! The catalogue lives in [`catalogue`], the byte-level encoding contract in
//! [`codec`], and the canonical store with its read accessors in [`store`].

pub mod catalogue;
pub mod codec;
pub mod store;
