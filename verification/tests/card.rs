use ankimdown::db_model::card::{Card, CardFlag, CardQueue, CardType};
use ankimdown::db_model::table::Table;

#[test]
fn test_card_flag() {
    assert_eq!(CardFlag::try_from(0).unwrap(), CardFlag::Null);
    assert_eq!(CardFlag::try_from(1).unwrap(), CardFlag::Redo);
    assert_eq!(CardFlag::try_from(2).unwrap(), CardFlag::Orange);
    assert_eq!(CardFlag::try_from(3).unwrap(), CardFlag::Green);
    assert_eq!(CardFlag::try_from(4).unwrap(), CardFlag::Blue);
    assert!(CardFlag::try_from(5).is_err());
}

#[test]
fn test_card_new() {
    let card = Card::new(
        1,
        2,
        3,
        4,
        5,
        6,
        CardType::New,
        CardQueue::New,
        7,
        8,
        9,
        10,
        11,
        12,
        0,
        13,
        CardFlag::Null,
    );
    assert_eq!(card.id, 1);
    assert_eq!(card.note_id, 2);
    assert_eq!(card.deck_id, 3);
    assert_eq!(card.ordinal, 4);
    assert_eq!(card.modified, 5);
    assert_eq!(card.update_seq_number, 6);
    assert_eq!(card.card_type, CardType::New);
    assert_eq!(card.queue, CardQueue::New);
    assert_eq!(card.due, 7);
    assert_eq!(card.interval, 8);
    assert_eq!(card.factor, 9);
    assert_eq!(card.reviews, 10);
    assert_eq!(card.lapses, 11);
    assert_eq!(card.left, 12);
    assert_eq!(card.original_due, 0);
    assert_eq!(card.original_deck_id, 13);
    assert_eq!(card.flags, CardFlag::Null);
}

#[test]
fn test_card_new_has_no_data() {
    let card = Card::new(
        1,
        2,
        3,
        4,
        5,
        6,
        CardType::Review,
        CardQueue::Buried,
        7,
        8,
        9,
        10,
        11,
        12,
        0,
        13,
        CardFlag::Blue,
    );
    assert_eq!(card.data, "");
    assert_eq!(card.card_type, CardType::Review);
    assert_eq!(card.queue, CardQueue::Buried);
    assert_eq!(card.flags, CardFlag::Blue);
}

#[test]
fn test_card_flag_takes_the_remainder_of_eight() {
    assert_eq!(CardFlag::try_from(8).unwrap(), CardFlag::Null);
    assert_eq!(CardFlag::try_from(9).unwrap(), CardFlag::Redo);
    assert_eq!(CardFlag::try_from(12).unwrap(), CardFlag::Blue);
    assert_eq!(CardFlag::try_from(6), Err("Invalid CardFlag value"));
    assert_eq!(CardFlag::try_from(7), Err("Invalid CardFlag value"));
    assert_eq!(CardFlag::try_from(13), Err("Invalid CardFlag value"));
}

#[test]
fn test_card_flag_of_negative_numbers() {
    assert_eq!(CardFlag::try_from(-8).unwrap(), CardFlag::Null);
    assert_eq!(CardFlag::try_from(-16).unwrap(), CardFlag::Null);
    assert_eq!(CardFlag::try_from(-1), Err("Invalid CardFlag value"));
    assert_eq!(CardFlag::try_from(-4), Err("Invalid CardFlag value"));
    assert_eq!(CardFlag::try_from(i64::MIN).unwrap(), CardFlag::Null);
    assert_eq!(CardFlag::try_from(i64::MAX), Err("Invalid CardFlag value"));
}

#[test]
fn test_card_table_name() {
    let card = Card::new(
        1,
        2,
        3,
        4,
        5,
        6,
        CardType::New,
        CardQueue::New,
        7,
        8,
        9,
        10,
        11,
        12,
        0,
        13,
        CardFlag::Null,
    );
    assert_eq!(card.table_name(), "cards");
}
