//! The matching core of an exchange: per-symbol order books that execute
//! incoming orders against resting ones by price-time priority.

pub mod book;
pub mod engine;
pub mod ident;
pub mod laws;
pub mod level;
pub mod matching;
pub mod order;
pub mod side;
