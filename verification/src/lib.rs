//! Sampling from a fixed discrete distribution in constant time per draw,
//! by the alias method, with probabilities held exactly in fixed point.

pub mod entry;
pub mod laws;
pub mod pool;
pub mod sampler;
pub mod table;
