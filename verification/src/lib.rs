//! A typed multicall aggregator for read-only contract calls.
//!
//! The crate describes a contract's view functions as data
//! ([`abi::AbiType`], [`abi::FunctionSignature`]), encodes a batch of
//! calls into `(target, payload)` pairs and into the calldata of an
//! on-chain multicall helper, and decodes the aggregated response back
//! into typed values in the order the calls were submitted.

pub mod abi;
pub mod calls;
pub mod multicall;
pub mod wire;
