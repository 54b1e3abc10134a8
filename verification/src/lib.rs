//! Array core of an array-language runtime: rectangular, possibly nested
//! arrays of numbers, characters and boxed values, with the shape verbs
//! that an evaluator builds on.
//!
//! Every verb comes with its meaning as a function on the mathematical
//! model of a value ([`value::ValueView`]); the verb's contract says that
//! the receiver ends up holding what that function gives, or that the
//! verb fails with the stated kind of error and leaves the receiver as it
//! was. The module [`laws`] proves how the verbs relate to one another.

pub mod classify;
pub mod decode;
pub mod error;
pub mod join;
pub mod kernel;
pub mod laws;
pub mod normalize;
pub mod number;
pub mod order;
pub mod pick;
pub mod reshape;
pub mod rotate;
pub mod shape;
pub mod sort;
pub mod take;
pub mod value;
pub mod windows;

pub use error::{Env, ErrorKind, RuntimeError, RuntimeResult};
pub use kernel::{force_length, range, reverse};
pub use number::{Comparison, Number};
pub use sort::sort_array;
pub use value::{Array, ArrayType, ArrayView, Function, Type, Value, ValueView};
