//! Notes: the facts that cards ask for, and the tags on them.

use vstd::prelude::*;
use vstd::string::StringExecFns;
use vstd::utf8::encode_utf8;

verus! {

/// Whether `pattern` stands in `text` at position `at`.
pub open spec fn occurs_at(text: Seq<char>, pattern: Seq<char>, at: int) -> bool {
    0 <= at && at + pattern.len() <= text.len() && text.subrange(at, at + pattern.len())
        == pattern
}

/// Whether `pattern` stands somewhere in `text`.
pub open spec fn has_substring(text: Seq<char>, pattern: Seq<char>) -> bool {
    exists|at: int| occurs_at(text, pattern, at)
}

/// `str::contains` of std with a string as the pattern: whether the pattern
/// matches a part of the text, which is to say whether the pattern's
/// characters stand somewhere in the text one behind the other.
#[verifier::external_body]
fn str_contains(text: &str, pattern: &str) -> (found: bool)
    ensures
        found == has_substring(text@, pattern@),
{
    text.contains(pattern)
}

/// The longest tag name, in bytes of UTF-8.
pub const MAX_TAG_BYTES: usize = 255;

/// What is wrong with a tag name, in the words of the error; `None` for a
/// name that a tag can have. A name is tested for emptiness first, then for
/// two underscores in a row, then for a space, then for its length.
pub open spec fn tag_name_fault(name: Seq<char>) -> Option<Seq<char>> {
    if name.len() == 0 {
        Some("Tag name cannot be empty"@)
    } else if has_substring(name, "__"@) {
        Some("Tag name cannot contain '__'"@)
    } else if has_substring(name, " "@) {
        Some("Tag name cannot contain spaces"@)
    } else if encode_utf8(name).len() > MAX_TAG_BYTES {
        Some("Tag name cannot be longer than 255 characters"@)
    } else {
        None
    }
}

/// A tag on a note.
#[derive(Debug, Clone, PartialEq, Eq)]
pub struct NoteTag {
    pub name: String,
}

impl NoteTag {
    /// The tag with the given name, or the reason why the name is none that a
    /// tag can have.
    pub fn new(name: &str) -> (made: Result<NoteTag, String>)
        ensures
            match made {
                Ok(tag) => tag_name_fault(name@) is None && tag.name@ == name@,
                Err(message) => tag_name_fault(name@) == Some(message@),
            },
    {
        if name.is_empty() {
            return Err(String::from_str("Tag name cannot be empty"));
        } else if str_contains(name, "__") {
            return Err(String::from_str("Tag name cannot contain '__'"));
        } else if str_contains(name, " ") {
            return Err(String::from_str("Tag name cannot contain spaces"));
        } else if name.as_bytes().len() > MAX_TAG_BYTES {
            return Err(String::from_str("Tag name cannot be longer than 255 characters"));
        }
        Ok(NoteTag { name: String::from_str(name) })
    }
}

impl Default for NoteTag {
    /// The tag `default_tag`.
    fn default() -> (tag: NoteTag)
        ensures
            tag.name@ == "default_tag"@,
    {
        NoteTag { name: String::from_str("default_tag") }
    }
}

/// A note as the database holds it.
#[derive(Debug, Clone, PartialEq)]
pub struct Note {
    /// The time of creation in milliseconds, which names the note.
    pub id: i64,
    pub global_id: String,
    pub model_id: usize,
    /// The time of the last change in milliseconds.
    pub modified: i64,
    pub update_seq_number: i64,
    pub tags: Vec<NoteTag>,
    pub fields: Vec<String>,
    /// The position of the field that notes are sorted by.
    pub sort_filed: usize,
    pub checksum: i64,
    /// Not in use; 0 in a new note.
    pub flags: i64,
    /// Not in use; empty in a new note.
    pub data: String,
}

impl Note {
    /// A note with the given fields, no flags and no data.
    pub fn new(
        id: i64,
        global_id: String,
        model_id: usize,
        modified: i64,
        update_seq_number: i64,
        tags: Vec<NoteTag>,
        fields: Vec<String>,
        sort_filed: usize,
        checksum: i64,
    ) -> (note: Note)
        ensures
            note.id == id,
            note.global_id == global_id,
            note.model_id == model_id,
            note.modified == modified,
            note.update_seq_number == update_seq_number,
            note.tags == tags,
            note.fields == fields,
            note.sort_filed == sort_filed,
            note.checksum == checksum,
            note.flags == 0,
            note.data@ == Seq::<char>::empty(),
    {
        Note {
            id,
            global_id,
            model_id,
            modified,
            update_seq_number,
            tags,
            fields,
            sort_filed,
            checksum,
            flags: 0,
            data: String::new(),
        }
    }
}

} // verus!
