//! The records of the deck database.

pub mod card;
pub mod collection;
pub mod deck;
pub mod model;
pub mod note;
pub mod table;
