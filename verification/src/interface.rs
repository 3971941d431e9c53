pub mod address;
pub mod contract;
pub mod raw_transaction;
pub mod transaction;
