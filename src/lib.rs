//! A point-of-sale transaction engine: catalog records, the lifecycle of a
//! sale from creation to settlement or cancellation, receipt layout and
//! sales reporting, all over integer amounts in cents.

pub mod model;
pub mod catalog;
pub mod store;
pub mod laws;
pub mod receipt;
pub mod cart;
pub mod report;
