//! Planning of data-flow migrations: which way new operators are sharded, what state is
//! materialized and under which keys, and over which paths partial state is replayed.

pub mod ancestry;
pub mod assign;
pub mod dataflow;
pub mod decision;
pub mod error;
pub mod guarantee;
pub mod inherit;
pub mod materialization;
pub mod migration;
pub mod operator;
pub mod order;
pub mod replay;
pub mod reshard;
pub mod resolve;
pub mod sharding;
pub mod takeover;
pub mod trim;
pub mod visit;
