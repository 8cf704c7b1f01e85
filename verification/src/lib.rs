//! Language identification by a pretrained Naive-Bayes model.
//!
//! A `Model` holds a byte-driven automaton that turns text into a
//! feature-count vector, together with per-feature-per-class and per-class
//! log-probability tables. Because the verifier has no floating-point
//! theory, every 32-bit float of the persisted model is carried through this
//! crate as its IEEE-754 bit pattern (a `u32`); the one floating-point step,
//! the dot product of a feature vector with the probability tables, is left
//! to the (unverified) caller, which hands the resulting score bit patterns
//! back for the verified argmax and ranking steps.

pub mod decode;
pub mod fcmp;
pub mod model;
pub mod score;
pub mod tokenize;

pub use decode::DecodeError;
pub use model::Error;
pub use model::Model;
pub use model::ModelData;
