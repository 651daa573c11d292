//! A first-order Markov chain over byte-string tokens: it learns transition
//! counts from a training sequence and then emits a pseudo-random
//! continuation one token at a time, driven by an injected seeded generator.

pub mod markov;
pub mod order;
mod rng;
