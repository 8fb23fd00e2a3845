//! A deck as its markdown file describes it.

use vstd::prelude::*;

verus! {

/// What the generator keeps of a deck between two runs.
#[derive(Debug, Clone)]
pub struct DeckAutoMeta {
    pub id: u32,
}

/// What a deck's file says of the deck besides its cards.
#[derive(Debug, Clone)]
pub struct DeckMeta {
    pub autogen: DeckAutoMeta,
}

/// A deck with its name, its description and what else its file says of it.
#[derive(Debug, Clone)]
pub struct Deck {
    pub name: String,
    pub description: String,
    pub metadata: DeckMeta,
}

} // verus!
