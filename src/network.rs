use vstd::prelude::*;

verus! {

/// The chains this library knows the consensus rules of.
#[derive(Debug, Clone, Copy, PartialEq, Eq, Structural)]
pub enum Network {
    /// The main chain.
    Garlicoin,
    /// The public test chain.
    Testnet,
    /// The private regression-test chain.
    Regtest,
}

} // verus!
