//! The collection: the one record that holds the models, the decks and
//! their settings.

use vstd::prelude::*;
use crate::db_model::deck::{Deck, DeckConfig};
use crate::db_model::model::Model;

verus! {

/// Where new cards stand among the cards that are due.
#[derive(Debug, Clone, Copy, PartialEq, Eq, Structural)]
pub enum NewSpread {
    NewCardsDistribute,
    NewCardsLast,
    NewCardsFirst,
}

/// The settings of a collection.
#[derive(Debug, Clone, PartialEq)]
pub struct CollectionConfig {
    pub current_deck: i64,
    pub active_decks: Vec<i64>,
    pub new_spread: NewSpread,
    pub collapse_time: i64,
    pub time_limit: i64,
    pub estimated_times: bool,
    pub due_counts: bool,
    pub current_model: String,
    pub next_position: i64,
    pub sort_type: String,
    pub sort_backwards: bool,
    pub add_to_current: bool,
    pub day_learn_first: bool,
    pub new_bury: bool,
    pub last_unburied: Option<i64>,
    pub active_columns: Option<Vec<String>>,
}

impl CollectionConfig {
    /// Whether the settings are those of a new collection: new cards are
    /// buried and distributed, and nothing else is set.
    pub open spec fn is_fresh(&self) -> bool {
        &&& self.current_deck == 0
        &&& self.active_decks@ == Seq::<i64>::empty()
        &&& self.new_spread == NewSpread::NewCardsDistribute
        &&& self.collapse_time == 0
        &&& self.time_limit == 0
        &&& !self.estimated_times
        &&& !self.due_counts
        &&& self.current_model@ == Seq::<char>::empty()
        &&& self.next_position == 0
        &&& self.sort_type@ == Seq::<char>::empty()
        &&& !self.sort_backwards
        &&& !self.add_to_current
        &&& !self.day_learn_first
        &&& self.new_bury
        &&& self.last_unburied is None
        &&& self.active_columns is None
    }

    /// The settings of a new collection.
    pub fn new() -> (config: CollectionConfig)
        ensures
            config.is_fresh(),
    {
        CollectionConfig {
            current_deck: 0,
            active_decks: Vec::new(),
            new_spread: NewSpread::NewCardsDistribute,
            collapse_time: 0,
            time_limit: 0,
            estimated_times: false,
            due_counts: false,
            current_model: String::new(),
            next_position: 0,
            sort_type: String::new(),
            sort_backwards: false,
            add_to_current: false,
            day_learn_first: false,
            new_bury: true,
            last_unburied: None,
            active_columns: None,
        }
    }
}

impl Default for CollectionConfig {
    fn default() -> (config: CollectionConfig)
        ensures
            config.is_fresh(),
    {
        CollectionConfig::new()
    }
}

/// The collection as the database holds it. The models, the decks and the
/// deck settings stand each with the time of its creation.
#[derive(Debug, Clone, PartialEq)]
pub struct Collection {
    pub id: i64,
    pub created: i64,
    pub modified: i64,
    /// The time of the last change of the scheme.
    pub scheme_mod_time: i64,
    pub version: usize,
    /// Not in use; 0.
    pub dirty: i64,
    pub update_seq_number: i64,
    pub last_sync_time: i64,
    pub config: CollectionConfig,
    pub models: Vec<(usize, Model)>,
    pub decks: Vec<(usize, Deck)>,
    pub deck_configs: Vec<(usize, DeckConfig)>,
    pub tags: String,
}

impl Collection {
    /// Whether the collection is a new one: it holds nothing, and nothing is
    /// set in it.
    pub open spec fn is_fresh(&self) -> bool {
        &&& self.id == 0
        &&& self.created == 0
        &&& self.modified == 0
        &&& self.scheme_mod_time == 0
        &&& self.version == 0
        &&& self.dirty == 0
        &&& self.update_seq_number == 0
        &&& self.last_sync_time == 0
        &&& self.config.is_fresh()
        &&& self.models@ == Seq::<(usize, Model)>::empty()
        &&& self.decks@ == Seq::<(usize, Deck)>::empty()
        &&& self.deck_configs@ == Seq::<(usize, DeckConfig)>::empty()
        &&& self.tags@ == Seq::<char>::empty()
    }

    /// A new collection.
    pub fn new() -> (collection: Collection)
        ensures
            collection.is_fresh(),
    {
        Collection {
            id: 0,
            created: 0,
            modified: 0,
            scheme_mod_time: 0,
            version: 0,
            dirty: 0,
            update_seq_number: 0,
            last_sync_time: 0,
            config: CollectionConfig::new(),
            models: Vec::new(),
            decks: Vec::new(),
            deck_configs: Vec::new(),
            tags: String::new(),
        }
    }
}

impl Default for Collection {
    fn default() -> (collection: Collection)
        ensures
            collection.is_fresh(),
    {
        Collection::new()
    }
}

} // verus!
