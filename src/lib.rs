//! Consensus core of a Garlicoin library: the 256-bit target type, the wire
//! codec, the per-network parameters and the difficulty rules.
pub mod encode;
pub mod network;
pub mod params;
pub mod pow;
pub mod uint;
