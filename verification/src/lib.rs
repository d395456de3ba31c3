//! A personal finance ledger: transaction records with exact decimal
//! amounts, kept in a store that guarantees unique identifiers and
//! newest-first ordering, behind a service layer that validates input
//! and translates errors.

pub mod decimal;
pub mod model;
pub mod service;
pub mod store;
