//! Decks and the settings of a deck.

use vstd::prelude::*;
use vstd::string::StringExecFns;
use crate::db_model::table::Table;

verus! {

/// A deck as the database holds it.
#[derive(Debug, Clone, PartialEq)]
pub struct Deck {
    pub name: String,
    pub extended_review_limit: Option<usize>,
    pub update_seq_number: i64,
    pub collapsed: bool,
    pub browser_collapsed: bool,
    pub new_today: [usize; 2],
    pub review_today: [usize; 2],
    pub learn_today: [usize; 2],
    /// Not in use.
    pub time_today: [usize; 2],
    pub filtered: usize,
    pub extended_new_limit: Option<usize>,
    pub config_id: Option<usize>,
    pub id: i64,
    pub modified: i64,
    pub description: String,
}

/// The counts of a day on which nothing was done: two zeros.
pub open spec fn no_counts() -> Seq<usize> {
    seq![0usize, 0usize]
}

impl Deck {
    /// Whether the deck is a fresh one: nothing is set in it but its name.
    pub open spec fn is_fresh(&self) -> bool {
        &&& self.extended_review_limit is None
        &&& self.update_seq_number == 0
        &&& !self.collapsed
        &&& !self.browser_collapsed
        &&& self.new_today@ == no_counts()
        &&& self.review_today@ == no_counts()
        &&& self.learn_today@ == no_counts()
        &&& self.time_today@ == no_counts()
        &&& self.filtered == 0
        &&& self.extended_new_limit is None
        &&& self.config_id is None
        &&& self.id == 0
        &&& self.modified == 0
        &&& self.description@ == Seq::<char>::empty()
    }

    /// A fresh deck with the given name.
    pub fn new(name: String) -> (deck: Deck)
        ensures
            deck.name == name,
            deck.is_fresh(),
    {
        let deck = Deck {
            name,
            extended_review_limit: None,
            update_seq_number: 0,
            collapsed: false,
            browser_collapsed: false,
            new_today: [0, 0],
            review_today: [0, 0],
            learn_today: [0, 0],
            time_today: [0, 0],
            filtered: 0,
            extended_new_limit: None,
            config_id: None,
            id: 0,
            modified: 0,
            description: String::new(),
        };
        assert(deck.new_today@ =~= no_counts());
        assert(deck.review_today@ =~= no_counts());
        assert(deck.learn_today@ =~= no_counts());
        assert(deck.time_today@ =~= no_counts());
        deck
    }
}

impl Default for Deck {
    /// A fresh deck with the name `default`.
    fn default() -> (deck: Deck)
        ensures
            deck.name@ == "default"@,
            deck.is_fresh(),
    {
        Deck::new(String::from_str("default"))
    }
}

impl Table for Deck {
    open spec fn table(&self) -> Seq<char> {
        "decks"@
    }

    fn table_name(&self) -> (name: &'static str) {
        "decks"
    }
}

/// What becomes of a card that was forgotten.
#[derive(Debug, Clone, PartialEq)]
pub struct LapseConfig {
    pub delays: Vec<usize>,
    pub leech_action: usize,
    pub leech_fails: usize,
    pub min_interval: usize,
    pub interval_increase: usize,
}

impl LapseConfig {
    /// The settings of a new deck: one delay of 0, and 0 everywhere else.
    pub fn new() -> (config: LapseConfig)
        ensures
            config.delays@ == seq![0usize],
            config.leech_action == 0,
            config.leech_fails == 0,
            config.min_interval == 0,
            config.interval_increase == 0,
    {
        let config = LapseConfig {
            delays: vec![0],
            leech_action: 0,
            leech_fails: 0,
            min_interval: 0,
            interval_increase: 0,
        };
        assert(config.delays@ =~= seq![0usize]);
        config
    }
}

impl Default for LapseConfig {
    fn default() -> (config: LapseConfig)
        ensures
            config.delays@ == seq![0usize],
            config.leech_action == 0,
            config.leech_fails == 0,
            config.min_interval == 0,
            config.interval_increase == 0,
    {
        LapseConfig::new()
    }
}

/// The order in which new cards are shown.
#[derive(Debug, Clone, Copy, PartialEq, Eq, Structural)]
pub enum NewCardOrder {
    Random,
    Due,
}

/// How new cards are shown.
#[derive(Debug, Clone, PartialEq)]
pub struct NewConfig {
    pub bury: bool,
    pub delays: Vec<usize>,
    pub initial_factor: usize,
    pub intervals: Vec<usize>,
    pub order: NewCardOrder,
    pub per_day: usize,
    pub separate: bool,
}

impl NewConfig {
    /// Whether the settings are those of a new deck: one delay and one
    /// interval of 0, random order, and nothing else set.
    pub open spec fn is_fresh(&self) -> bool {
        &&& !self.bury
        &&& self.delays@ == seq![0usize]
        &&& self.initial_factor == 0
        &&& self.intervals@ == seq![0usize]
        &&& self.order == NewCardOrder::Random
        &&& self.per_day == 0
        &&& !self.separate
    }

    /// The settings of a new deck.
    pub fn new() -> (config: NewConfig)
        ensures
            config.is_fresh(),
    {
        let config = NewConfig {
            bury: false,
            delays: vec![0],
            initial_factor: 0,
            intervals: vec![0],
            order: NewCardOrder::Random,
            per_day: 0,
            separate: false,
        };
        assert(config.delays@ =~= seq![0usize]);
        assert(config.intervals@ =~= seq![0usize]);
        config
    }
}

impl Default for NewConfig {
    fn default() -> (config: NewConfig)
        ensures
            config.is_fresh(),
    {
        NewConfig::new()
    }
}

/// How cards are reviewed.
#[derive(Debug, Clone, PartialEq)]
pub struct ReviewConfig {
    pub bury: bool,
    pub ease_factor: usize,
    pub fuzz: usize,
    pub interval_factor: usize,
    pub max_interval: usize,
    /// Not in use.
    pub min_space: usize,
    pub cards_daily: usize,
}

impl ReviewConfig {
    /// Whether the settings are those of a new deck: nothing is set.
    pub open spec fn is_fresh(&self) -> bool {
        &&& !self.bury
        &&& self.ease_factor == 0
        &&& self.fuzz == 0
        &&& self.interval_factor == 0
        &&& self.max_interval == 0
        &&& self.min_space == 0
        &&& self.cards_daily == 0
    }

    /// The settings of a new deck.
    pub fn new() -> (config: ReviewConfig)
        ensures
            config.is_fresh(),
    {
        ReviewConfig {
            bury: false,
            ease_factor: 0,
            fuzz: 0,
            interval_factor: 0,
            max_interval: 0,
            min_space: 0,
            cards_daily: 0,
        }
    }
}

impl Default for ReviewConfig {
    fn default() -> (config: ReviewConfig)
        ensures
            config.is_fresh(),
    {
        ReviewConfig::new()
    }
}

/// The settings of a deck.
#[derive(Debug, Clone, PartialEq)]
pub struct DeckConfig {
    pub autoplay: bool,
    pub filtered: Option<bool>,
    pub id: Option<usize>,
    pub lapse_config: LapseConfig,
    pub max_taken: usize,
    pub modified: usize,
    pub name: String,
    pub new_config: NewConfig,
    pub replay_question: bool,
    pub review_config: ReviewConfig,
    pub timer: bool,
    pub update_seq_number: usize,
}

impl DeckConfig {
    /// The settings of a new deck under the given name.
    pub fn new(name: String) -> (config: DeckConfig)
        ensures
            config.name == name,
            !config.autoplay,
            config.filtered is None,
            config.id is None,
            config.lapse_config.delays@ == seq![0usize],
            config.lapse_config.leech_action == 0,
            config.lapse_config.leech_fails == 0,
            config.lapse_config.min_interval == 0,
            config.lapse_config.interval_increase == 0,
            config.max_taken == 0,
            config.modified == 0,
            config.new_config.is_fresh(),
            !config.replay_question,
            config.review_config.is_fresh(),
            !config.timer,
            config.update_seq_number == 0,
    {
        DeckConfig {
            autoplay: false,
            filtered: None,
            id: None,
            lapse_config: LapseConfig::new(),
            max_taken: 0,
            modified: 0,
            name,
            new_config: NewConfig::new(),
            replay_question: false,
            review_config: ReviewConfig::new(),
            timer: false,
            update_seq_number: 0,
        }
    }
}

} // verus!
