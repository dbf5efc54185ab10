//! A thin adapter that packages pre-generated verifier bytecode for an
//! EVM-compatible target and exercises it: a persistable container for the
//! bytecode, a canonical serialized form for it, and a one-shot
//! deploy-and-call verification driver that feeds a proof record's public
//! instances and proof bytes to the bytecode in an embedded EVM and
//! classifies the outcome.

pub mod codec;
pub mod container;
pub mod driver;

pub use container::DeploymentCode;
pub use container::YulCode;
pub use driver::evm_verify;
pub use driver::EvmVerificationError;
pub use driver::Snark;
