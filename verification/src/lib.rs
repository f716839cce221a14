//! Conversion between N-dimensional rectangular arrays, held as a flat
//! row-major buffer with a list of dimension lengths, and nested sequences
//! of numbers.
//!
//! Reading a nested value infers the number of dimensions and their lengths
//! from the first path that leads to a number, and then holds every other
//! branch to the shape found there. Writing goes the other way: a shape and
//! a run of elements give the nested value back.
//!
//! - [`nested`]: the nested value and its mathematical model.
//! - [`shape`]: holders of dimension lengths.
//! - [`de`]: reading, with the model of what is read.
//! - [`ser`]: writing, with the model of what is written.
//! - [`laws`]: what holds between the two.

pub mod de;
pub mod error;
mod iter;
pub mod laws;
pub mod nested;
pub mod ser;
pub mod shape;

pub use de::deserialize;
pub use de::MakeNDim;
pub use error::Error;
pub use nested::Nested;
pub use nested::Tree;
pub use ser::serialize;
pub use ser::NDim;
pub use shape::Shape;
