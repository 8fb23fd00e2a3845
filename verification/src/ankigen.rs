//! What a deck written in markdown says, before it becomes database records.

pub mod deck;
pub mod information;
