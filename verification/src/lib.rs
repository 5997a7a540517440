//! Adaptive copy-command coding engine: a resumable state machine that
//! serializes LZ77-style back-reference commands (distance, length) nibble by
//! nibble against adaptive probability models, with a recently-used distance
//! cache, cheap mnemonic codes for repeated distances, and a logarithmic
//! distance-slot/mantissa decomposition.

pub mod codec;
pub mod copy;
pub mod interface;
pub mod mnemonic;
pub mod priors;
pub mod probability;
