//! Settlement of multi-leg asset transfers between portfolios.
//!
//! Venues create instructions whose legs move fungible amounts or non-fungible tokens
//! between portfolios. Every counter-party affirms, locking what it sends or presenting a
//! signed off-chain receipt; an instruction then executes atomically, at once, at a block or
//! by hand, or fails and can be rescheduled. Each operation's contract states its effect on
//! the whole state, [`settlement::SettlementView`]; [`laws`] proves properties across them.
pub mod table;
pub mod types;
pub mod portfolio;
pub mod receipt;
pub mod settlement;
pub mod laws;
pub mod sudo;
