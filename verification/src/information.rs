//! What is known of a word, and the cards that are made of it.

use vstd::prelude::*;
use crate::db_model::card::Card;

verus! {

/// What is known of a word: its definitions, and the examples that go with
/// each of them.
#[derive(Debug, Clone, Default)]
pub struct InformationContent {
    pub word: String,
    pub definitions: Vec<String>,
    pub examples: Vec<Option<Vec<String>>>,
}

/// A way of making cards of what is known of a word.
///
/// What an implementation promises of its cards, it says in `makes`. It may
/// date and number the cards as it likes, so the same content need not give
/// the same cards twice.
pub trait IntoCards {
    /// Whether `cards` are cards that this way may make of `content`. Where an
    /// implementation says nothing, every list of cards is.
    open spec fn makes(&self, content: InformationContent, cards: Seq<Card>) -> bool {
        true
    }

    /// The cards for the given content.
    fn into_cards(&self, information_content: &InformationContent) -> (cards: Vec<Card>)
        ensures
            self.makes(*information_content, cards@),
    ;
}

/// What is known of a word, with the way in which cards are made of it.
pub struct Information<T: IntoCards> {
    pub information_type: T,
    pub content: InformationContent,
}

impl<T: IntoCards> Information<T> {
    /// The cards that the information's own way makes of its own content.
    pub fn get_cards(&self) -> (cards: Vec<Card>)
        ensures
            self.information_type.makes(self.content, cards@),
    {
        self.information_type.into_cards(&self.content)
    }
}

} // verus!
