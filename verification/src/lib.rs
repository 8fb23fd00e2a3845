//! Flashcard decks written in markdown: the document tree that a flat stream
//! of markdown tokens folds into, its renderers, and the records of the deck
//! database.

pub mod ankigen;
pub mod db_model;
pub mod information;
pub mod markdown;
pub mod util;
