//! Headings as they stand in the token stream: a level and a line of spans.

use vstd::prelude::*;
use crate::markdown::text::{
    SpanError, SpecText, Text, lemma_read_spans_end, read_spans, text_views,
};
use crate::markdown::token::{BlockKind, SpecToken, Token, closes_block, token_views};

verus! {

/// A heading without what hangs under it.
#[derive(Debug, PartialEq, Eq)]
pub struct Heading {
    pub level: usize,
    pub content: Vec<Text>,
}

/// The mathematical value of a [`Heading`].
pub struct SpecHeading {
    pub level: nat,
    pub content: Seq<SpecText>,
}

impl View for Heading {
    type V = SpecHeading;

    open spec fn view(&self) -> SpecHeading {
        SpecHeading { level: self.level as nat, content: text_views(self.content@) }
    }
}

/// Whether `level` is a level that a heading can have.
pub open spec fn is_heading_level(level: int) -> bool {
    1 <= level <= 6
}

/// The heading whose start tag stands at `pos`, with the position behind its
/// end tag. Between the two tags stand spans only, and the end tag carries
/// the level of the start tag.
pub open spec fn heading_block(tokens: Seq<SpecToken>, pos: int) -> Result<
    (SpecHeading, int),
    SpanError,
> {
    if !(0 <= pos < tokens.len()) {
        Err(SpanError::UnterminatedSpan)
    } else {
        match tokens[pos] {
            SpecToken::BlockStart(BlockKind::Heading(level)) => if !is_heading_level(
                level as int,
            ) {
                Err(SpanError::UnsupportedNesting)
            } else {
                match read_spans(tokens, pos + 1) {
                    Ok((content, end)) => if tokens[end] == SpecToken::BlockEnd(
                        BlockKind::Heading(level),
                    ) {
                        Ok((SpecHeading { level: level as nat, content }, end + 1))
                    } else {
                        Err(SpanError::TagMismatch)
                    },
                    Err(error) => Err(error),
                }
            },
            _ => Err(SpanError::UnsupportedNesting),
        }
    }
}

impl Heading {
    /// Reads the heading whose start tag stands at `pos` and returns it with
    /// the position behind its end tag.
    pub fn try_from_events(tokens: &[Token], pos: usize) -> (read: Result<
        (Heading, usize),
        SpanError,
    >)
        ensures
            match read {
                Ok((heading, next)) => heading_block(token_views(tokens@), pos as int) == Ok::<
                    (SpecHeading, int),
                    SpanError,
                >((heading@, next as int)),
                Err(error) => heading_block(token_views(tokens@), pos as int) == Err::<
                    (SpecHeading, int),
                    SpanError,
                >(error),
            },
    {
        let ghost stream = token_views(tokens@);
        if pos >= tokens.len() {
            return Err(SpanError::UnterminatedSpan);
        }
        assert(stream[pos as int] == tokens@[pos as int]@);
        let level = match &tokens[pos] {
            Token::BlockStart(BlockKind::Heading(level)) => *level,
            _ => {
                return Err(SpanError::UnsupportedNesting);
            },
        };
        if level < 1 || level > 6 {
            return Err(SpanError::UnsupportedNesting);
        }
        proof {
            lemma_read_spans_end(stream, pos + 1);
        }
        match Text::read_spans(tokens, pos + 1) {
            Ok((content, end)) => {
                if closes_block(tokens, end, BlockKind::Heading(level)) {
                    Ok((Heading { level, content }, end + 1))
                } else {
                    Err(SpanError::TagMismatch)
                }
            },
            Err(error) => Err(error),
        }
    }
}

} // verus!
