//! Live aircraft tracking: a store of the latest status per aircraft with
//! expiry by age, range queries ordered by distance, and the device directory
//! record format.

pub mod ddb;
pub mod nearby;
pub mod pipeline;
pub mod store;
