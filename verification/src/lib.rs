//! Verified core of a small autoregressive transformer inference engine:
//! checkpoint and vocabulary parsing, the plan of the forward pass,
//! byte-pair tokenization, token sampling and the generation loop, all over
//! integers and bytes.
//!
//! The library holds no floating-point value. It plans what is computed on
//! which part of which buffer, and a kernel that the caller supplies
//! computes. Wherever a real number crosses the boundary it does so as an
//! integer: a score or a logit as its IEEE 754 single-precision bit
//! pattern, a probability as a fixed-point weight.

pub mod bytes;
pub mod cache;
pub mod config;
pub mod encode;
pub mod engine;
pub mod error;
pub mod generation;
pub mod ieee;
pub mod kernel;
pub mod lexical;
pub mod nucleus;
pub mod rng;
pub mod roundtrip;
pub mod sampler;
pub mod tokenizer;
