//! Schema-directed compression of structured documents into a bit-packed
//! block format.
//!
//! - [`math`]: bit and byte arithmetic, and the little-endian reading of
//!   byte strings that the other modules state their results in.
//! - [`vie`]: the variable-width integer encoding of lengths.
//! - [`glob`]: bit-exact buffers and their concatenation.
//! - [`co`]: markers, blocks, compressed objects and their serialization.
//! - [`validator`]: the well-formedness check of compressed objects.
//! - [`compress`] and [`comp`]: compressors, on bytes and on typed values.
//! - [`schema`]: the type tree and its field ids and marker widths.
//! - [`encode`]: the schema-driven encoder.

pub mod co;
pub mod comp;
pub mod compress;
pub mod encode;
pub mod glob;
pub mod math;
pub mod schema;
pub mod validator;
pub mod vie;
