use ankimdown::db_model::collection::{Collection, CollectionConfig, NewSpread};
use ankimdown::db_model::deck::{Deck, DeckConfig};
use ankimdown::db_model::model::Model;

#[test]
fn test_collection_config() {
    let config = CollectionConfig::new();
    assert_eq!(config.current_deck, 0);
    assert_eq!(config.active_decks, Vec::<i64>::new());
    assert_eq!(config.new_spread, NewSpread::NewCardsDistribute);
    assert_eq!(config.collapse_time, 0);
    assert_eq!(config.time_limit, 0);
    assert_eq!(config.estimated_times, false);
    assert_eq!(config.due_counts, false);
    assert_eq!(config.current_model, "");
    assert_eq!(config.next_position, 0);
    assert_eq!(config.sort_type, "");
    assert_eq!(config.sort_backwards, false);
    assert_eq!(config.add_to_current, false);
    assert_eq!(config.day_learn_first, false);
    assert_eq!(config.new_bury, true);
}

#[test]
fn test_collection() {
    let collection = Collection::new();
    assert_eq!(collection.id, 0);
    assert_eq!(collection.created, 0);
    assert_eq!(collection.modified, 0);
    assert_eq!(collection.scheme_mod_time, 0);
    assert_eq!(collection.version, 0);
    assert_eq!(collection.dirty, 0);
    assert_eq!(collection.update_seq_number, 0);
    assert_eq!(collection.last_sync_time, 0);
    assert_eq!(collection.config, CollectionConfig::new());
    assert_eq!(collection.models, Vec::<(usize, Model)>::new());
    assert_eq!(collection.decks, Vec::<(usize, Deck)>::new());
    assert_eq!(collection.deck_configs, Vec::<(usize, DeckConfig)>::new());
    assert_eq!(collection.tags, "");
}

#[test]
fn test_collection_config_has_nothing_optional() {
    let config = CollectionConfig::new();
    assert_eq!(config.last_unburied, None);
    assert_eq!(config.active_columns, None);
}

#[test]
fn test_collection_defaults() {
    assert_eq!(CollectionConfig::default(), CollectionConfig::new());
    assert_eq!(Collection::default(), Collection::new());
}
