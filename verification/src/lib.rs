pub mod codec;
pub mod engine;
pub mod errors;
pub mod framer;
pub mod kdf;
pub mod rng;
pub mod sampler;
pub mod scrub;
