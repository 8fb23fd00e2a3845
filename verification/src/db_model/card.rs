//! Cards: one way of asking for a note.

use vstd::prelude::*;
use crate::db_model::table::Table;

verus! {

/// The learning stage of a card.
#[derive(Debug, Clone, Copy, PartialEq, Eq, Structural)]
pub enum CardType {
    New,
    Learning,
    Review,
    Relearning,
}

/// The queue that a card waits in.
#[derive(Debug, Clone, Copy, PartialEq, Eq, Structural)]
pub enum CardQueue {
    UserSuspended,
    Buried,
    Suspended,
    New,
    Learning,
    Review,
    InLearning,
    Preview,
}

/// The flag that a user has put on a card.
#[derive(Debug, Clone, Copy, PartialEq, Eq, Structural)]
pub enum CardFlag {
    Null,
    Redo,
    Orange,
    Green,
    Blue,
}

/// The remainder of a division by 8 that rounds towards zero: it has the
/// sign of `value`.
pub open spec fn remainder_of_8(value: int) -> int {
    if value >= 0 {
        value % 8
    } else {
        -((-value) % 8)
    }
}

/// The flag that a number stands for, if it stands for one: the number is
/// taken by its remainder of 8.
pub open spec fn flag_of(value: int) -> Option<CardFlag> {
    let code = remainder_of_8(value);
    if code == 0 {
        Some(CardFlag::Null)
    } else if code == 1 {
        Some(CardFlag::Redo)
    } else if code == 2 {
        Some(CardFlag::Orange)
    } else if code == 3 {
        Some(CardFlag::Green)
    } else if code == 4 {
        Some(CardFlag::Blue)
    } else {
        None
    }
}

impl CardFlag {
    /// The flag that `value` stands for. Only the remainder of 8 counts;
    /// remainders above 4, and negative ones, stand for no flag.
    pub fn try_from(value: i64) -> (flag: Result<CardFlag, &'static str>)
        ensures
            match flag {
                Ok(flag) => flag_of(value as int) == Some(flag),
                Err(message) => flag_of(value as int) is None && message@
                    == "Invalid CardFlag value"@,
            },
    {
        let code = value % 8;
        if code == 0 {
            Ok(CardFlag::Null)
        } else if code == 1 {
            Ok(CardFlag::Redo)
        } else if code == 2 {
            Ok(CardFlag::Orange)
        } else if code == 3 {
            Ok(CardFlag::Green)
        } else if code == 4 {
            Ok(CardFlag::Blue)
        } else {
            Err("Invalid CardFlag value")
        }
    }
}

/// A card as the database holds it.
#[derive(Debug, Clone, PartialEq)]
pub struct Card {
    /// The time of creation, which names the card.
    pub id: i64,
    pub note_id: usize,
    pub deck_id: usize,
    /// Which of the note's templates the card shows.
    pub ordinal: u64,
    /// The time of the last change.
    pub modified: i64,
    pub update_seq_number: i64,
    pub card_type: CardType,
    pub queue: CardQueue,
    pub due: i64,
    pub interval: i64,
    pub factor: i64,
    pub reviews: i64,
    pub lapses: i64,
    pub left: i64,
    pub original_due: usize,
    pub original_deck_id: usize,
    pub flags: CardFlag,
    /// Not in use; empty in a new card.
    pub data: String,
}

impl Card {
    /// A card with the given fields and no data.
    pub fn new(
        id: i64,
        note_id: usize,
        deck_id: usize,
        ordinal: u64,
        modified: i64,
        update_seq_number: i64,
        card_type: CardType,
        queue: CardQueue,
        due: i64,
        interval: i64,
        factor: i64,
        reviews: i64,
        lapses: i64,
        left: i64,
        original_due: usize,
        original_deck_id: usize,
        flags: CardFlag,
    ) -> (card: Card)
        ensures
            card.id == id,
            card.note_id == note_id,
            card.deck_id == deck_id,
            card.ordinal == ordinal,
            card.modified == modified,
            card.update_seq_number == update_seq_number,
            card.card_type == card_type,
            card.queue == queue,
            card.due == due,
            card.interval == interval,
            card.factor == factor,
            card.reviews == reviews,
            card.lapses == lapses,
            card.left == left,
            card.original_due == original_due,
            card.original_deck_id == original_deck_id,
            card.flags == flags,
            card.data@ == Seq::<char>::empty(),
    {
        Card {
            id,
            note_id,
            deck_id,
            ordinal,
            modified,
            update_seq_number,
            card_type,
            queue,
            due,
            interval,
            factor,
            reviews,
            lapses,
            left,
            original_due,
            original_deck_id,
            flags,
            data: String::new(),
        }
    }
}

impl Table for Card {
    open spec fn table(&self) -> Seq<char> {
        "cards"@
    }

    fn table_name(&self) -> (name: &'static str) {
        "cards"
    }
}

} // verus!
