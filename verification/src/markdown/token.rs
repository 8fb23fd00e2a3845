//! The tokens that a markdown tokenizer hands to the tree builder.

use vstd::prelude::*;

verus! {

/// The inline formatting kinds.
#[derive(Clone, Copy, Debug, PartialEq, Eq, Structural)]
pub enum InlineKind {
    Emphasis,
    Strong,
    Strikethrough,
}

/// The block kinds. A heading carries its level, a list whether it is
/// numbered.
#[derive(Clone, Copy, Debug, PartialEq, Eq, Structural)]
pub enum BlockKind {
    Heading(usize),
    Paragraph,
    List(bool),
    ListItem,
}

/// One token of the flat stream.
#[derive(Clone, Debug, PartialEq, Eq)]
pub enum Token {
    BlockStart(BlockKind),
    BlockEnd(BlockKind),
    InlineStart(InlineKind),
    InlineEnd(InlineKind),
    Text(String),
    SoftBreak,
    HardBreak,
}

/// The mathematical value of a [`Token`]: text is a sequence of characters.
pub enum SpecToken {
    BlockStart(BlockKind),
    BlockEnd(BlockKind),
    InlineStart(InlineKind),
    InlineEnd(InlineKind),
    Text(Seq<char>),
    SoftBreak,
    HardBreak,
}

impl View for Token {
    type V = SpecToken;

    open spec fn view(&self) -> SpecToken {
        match *self {
            Token::BlockStart(kind) => SpecToken::BlockStart(kind),
            Token::BlockEnd(kind) => SpecToken::BlockEnd(kind),
            Token::InlineStart(kind) => SpecToken::InlineStart(kind),
            Token::InlineEnd(kind) => SpecToken::InlineEnd(kind),
            Token::Text(text) => SpecToken::Text(text@),
            Token::SoftBreak => SpecToken::SoftBreak,
            Token::HardBreak => SpecToken::HardBreak,
        }
    }
}

/// The values of a slice of tokens, in order.
pub open spec fn token_views(tokens: Seq<Token>) -> Seq<SpecToken> {
    Seq::new(tokens.len(), |i: int| tokens[i]@)
}

/// Whether an inline end tag closes a span opened with `start`.
pub fn check_matching_tags(start: InlineKind, end: InlineKind) -> (matching: bool)
    ensures
        matching == (start == end),
{
    match start {
        InlineKind::Emphasis => matches!(end, InlineKind::Emphasis),
        InlineKind::Strong => matches!(end, InlineKind::Strong),
        InlineKind::Strikethrough => matches!(end, InlineKind::Strikethrough),
    }
}

/// Whether two block kinds are the same.
pub fn same_block_kind(one: BlockKind, other: BlockKind) -> (same: bool)
    ensures
        same == (one == other),
{
    match one {
        BlockKind::Heading(level) => match other {
            BlockKind::Heading(other_level) => level == other_level,
            _ => false,
        },
        BlockKind::Paragraph => matches!(other, BlockKind::Paragraph),
        BlockKind::List(ordered) => match other {
            BlockKind::List(other_ordered) => ordered == other_ordered,
            _ => false,
        },
        BlockKind::ListItem => matches!(other, BlockKind::ListItem),
    }
}

/// Whether the token at `end` is the end tag of a block of the given kind.
pub fn closes_block(tokens: &[Token], end: usize, kind: BlockKind) -> (closes: bool)
    requires
        end < tokens@.len(),
    ensures
        closes == (token_views(tokens@)[end as int] == SpecToken::BlockEnd(kind)),
{
    assert(token_views(tokens@)[end as int] == tokens@[end as int]@);
    match &tokens[end] {
        Token::BlockEnd(closing) => same_block_kind(*closing, kind),
        _ => false,
    }
}

} // verus!
