use ankimdown::db_model::deck::{
    Deck, DeckConfig, LapseConfig, NewCardOrder, NewConfig, ReviewConfig,
};
use ankimdown::db_model::table::Table;

#[test]
fn test_deck_init() {
    let deck = Deck::new("Test Deck".to_string());
    assert_eq!(deck.name, "Test Deck");
    assert_eq!(deck.extended_review_limit, None);
    assert_eq!(deck.update_seq_number, 0);
    assert!(!deck.collapsed);
    assert!(!deck.browser_collapsed);
    assert_eq!(deck.new_today, [0, 0]);
    assert_eq!(deck.review_today, [0, 0]);
    assert_eq!(deck.learn_today, [0, 0]);
    assert_eq!(deck.time_today, [0, 0]);
    assert_eq!(deck.filtered, 0);
    assert_eq!(deck.extended_new_limit, None);
    assert_eq!(deck.config_id, None);
    assert_eq!(deck.id, 0);
    assert_eq!(deck.modified, 0);
    assert_eq!(deck.description, "");
}

#[test]
fn test_lapse_config_init() {
    let lapse_config = LapseConfig::new();
    assert_eq!(lapse_config.delays, vec![0]);
    assert_eq!(lapse_config.leech_action, 0);
    assert_eq!(lapse_config.leech_fails, 0);
    assert_eq!(lapse_config.min_interval, 0);
    assert_eq!(lapse_config.interval_increase, 0);
}

#[test]
fn test_new_config_init() {
    let new_config = NewConfig::new();
    assert!(!new_config.bury);
    assert_eq!(new_config.delays, vec![0]);
    assert_eq!(new_config.initial_factor, 0);
    assert_eq!(new_config.intervals, vec![0]);
    assert_eq!(new_config.order, NewCardOrder::Random);
    assert_eq!(new_config.per_day, 0);
    assert!(!new_config.separate);
}

#[test]
fn test_review_config_init() {
    let review_config = ReviewConfig::new();
    assert!(!review_config.bury);
    assert_eq!(review_config.ease_factor, 0);
    assert_eq!(review_config.fuzz, 0);
    assert_eq!(review_config.interval_factor, 0);
    assert_eq!(review_config.max_interval, 0);
    assert_eq!(review_config.min_space, 0);
    assert_eq!(review_config.cards_daily, 0);
}

#[test]
fn test_deck_config_init() {
    let deck_config = DeckConfig::new("Test Deck".to_string());
    assert!(!deck_config.autoplay);
    assert_eq!(deck_config.filtered, None);
    assert_eq!(deck_config.id, None);
    assert_eq!(deck_config.lapse_config.delays, vec![0]);
    assert_eq!(deck_config.max_taken, 0);
    assert_eq!(deck_config.modified, 0);
    assert_eq!(deck_config.name, "Test Deck");
    assert!(!deck_config.new_config.bury);
    assert!(!deck_config.replay_question);
    assert!(!deck_config.review_config.bury);
    assert!(!deck_config.timer);
    assert_eq!(deck_config.update_seq_number, 0);
}

#[test]
fn test_deck_config_holds_fresh_parts() {
    let deck_config = DeckConfig::new("Test Deck".to_string());
    assert_eq!(deck_config.lapse_config, LapseConfig::new());
    assert_eq!(deck_config.new_config, NewConfig::new());
    assert_eq!(deck_config.review_config, ReviewConfig::new());
}

#[test]
fn test_deck_defaults() {
    assert_eq!(Deck::default(), Deck::new("default".to_string()));
    assert_eq!(LapseConfig::default(), LapseConfig::new());
    assert_eq!(NewConfig::default(), NewConfig::new());
    assert_eq!(ReviewConfig::default(), ReviewConfig::new());
}

#[test]
fn test_deck_table_name() {
    assert_eq!(Deck::new("Test Deck".to_string()).table_name(), "decks");
}
