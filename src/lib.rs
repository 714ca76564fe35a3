//! Distributed mutual exclusion and a shared counter, coordinated through
//! one replicated document: the bakery protocol over a convergent replica,
//! and the reference-counted lifecycle of the handles to that replica.

pub mod order;
pub mod bakery;
pub mod laws;
pub mod handle;
