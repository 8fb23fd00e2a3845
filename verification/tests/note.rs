use ankimdown::db_model::note::{Note, NoteTag};

#[test]
fn test_note_tag_new() {
    let tag = NoteTag::new("grammar").unwrap();
    assert_eq!(tag.name, "grammar");
    let tag = NoteTag::new("a_b").unwrap();
    assert_eq!(tag.name, "a_b");
}

#[test]
fn test_note_tag_empty_name() {
    assert_eq!(NoteTag::new(""), Err("Tag name cannot be empty".to_string()));
}

#[test]
fn test_note_tag_double_underscore() {
    assert_eq!(NoteTag::new("a__b"), Err("Tag name cannot contain '__'".to_string()));
    assert_eq!(NoteTag::new("__"), Err("Tag name cannot contain '__'".to_string()));
    assert_eq!(NoteTag::new("a __b"), Err("Tag name cannot contain '__'".to_string()));
}

#[test]
fn test_note_tag_space() {
    assert_eq!(NoteTag::new("a b"), Err("Tag name cannot contain spaces".to_string()));
    assert_eq!(NoteTag::new(" "), Err("Tag name cannot contain spaces".to_string()));
}

#[test]
fn test_note_tag_length_is_counted_in_bytes() {
    let longest = "a".repeat(255);
    assert_eq!(NoteTag::new(&longest).unwrap().name, longest);
    let too_long = "a".repeat(256);
    assert_eq!(
        NoteTag::new(&too_long),
        Err("Tag name cannot be longer than 255 characters".to_string())
    );
    let wide = "é".repeat(128);
    assert_eq!(
        NoteTag::new(&wide),
        Err("Tag name cannot be longer than 255 characters".to_string())
    );
    let wide_fits = "é".repeat(127);
    assert_eq!(NoteTag::new(&wide_fits).unwrap().name, wide_fits);
}

#[test]
fn test_note_tag_default() {
    assert_eq!(NoteTag::default().name, "default_tag");
}

#[test]
fn test_note_new() {
    let tags = vec![NoteTag::new("one").unwrap(), NoteTag::new("two").unwrap()];
    let fields = vec!["front".to_string(), "back".to_string()];
    let note = Note::new(1, "guid".to_string(), 2, 3, 4, tags.clone(), fields.clone(), 1, 99);
    assert_eq!(note.id, 1);
    assert_eq!(note.global_id, "guid");
    assert_eq!(note.model_id, 2);
    assert_eq!(note.modified, 3);
    assert_eq!(note.update_seq_number, 4);
    assert_eq!(note.tags, tags);
    assert_eq!(note.fields, fields);
    assert_eq!(note.sort_filed, 1);
    assert_eq!(note.checksum, 99);
    assert_eq!(note.flags, 0);
    assert_eq!(note.data, "");
}
