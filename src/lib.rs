//! A versioned, forward-only schema migration engine: a validated catalog of
//! migrations and a runner that decides, step by step, which of them a store
//! still needs and in what order.

pub mod catalog;
pub mod runner;
pub mod schema;
pub mod bookkeeping;
