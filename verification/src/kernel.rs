//! An earlier cut of the execution environment's types: addresses and
//! serialized transactions.
pub mod address;
pub mod transaction;
