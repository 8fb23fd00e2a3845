//! Text spans: the leaves of the document tree, and the resolver that reads
//! one span off a token stream.

use vstd::prelude::*;
use vstd::string::StringExecFns;
use crate::markdown::token::{InlineKind, SpecToken, Token, token_views, check_matching_tags};

verus! {

/// One formatted run of text. A span never holds another span.
#[derive(Clone, Debug, PartialEq, Eq)]
pub enum Text {
    Plain(String),
    Italic(String),
    Bold(String),
    Strikethrough(String),
    SoftBreak,
    HardBreak,
}

/// The mathematical value of a [`Text`].
pub enum SpecText {
    Plain(Seq<char>),
    Italic(Seq<char>),
    Bold(Seq<char>),
    Strikethrough(Seq<char>),
    SoftBreak,
    HardBreak,
}

impl View for Text {
    type V = SpecText;

    open spec fn view(&self) -> SpecText {
        match *self {
            Text::Plain(text) => SpecText::Plain(text@),
            Text::Italic(text) => SpecText::Italic(text@),
            Text::Bold(text) => SpecText::Bold(text@),
            Text::Strikethrough(text) => SpecText::Strikethrough(text@),
            Text::SoftBreak => SpecText::SoftBreak,
            Text::HardBreak => SpecText::HardBreak,
        }
    }
}

/// The values of a run of spans, in order.
pub open spec fn text_views(spans: Seq<Text>) -> Seq<SpecText> {
    Seq::new(spans.len(), |i: int| spans[i]@)
}

/// Why a run of tokens is not a span.
#[derive(Clone, Copy, Debug, PartialEq, Eq, Structural)]
pub enum SpanError {
    /// An end tag of another kind than the open start tag, or with no start
    /// tag open at all.
    TagMismatch,
    /// The stream ran out before the end tag that was owed.
    UnterminatedSpan,
    /// A token that may not stand where it was met, such as a start tag
    /// inside an open span.
    UnsupportedNesting,
}

/// The markdown of a soft break: it ends the line.
pub open spec fn soft_break_markdown() -> Seq<char> {
    seq!['\n']
}

/// The markdown of a hard break: a backslash, then the end of the line.
pub open spec fn hard_break_markdown() -> Seq<char> {
    seq!['\\', '\n']
}

/// The delimiter that stands on both sides of a span of the given kind:
/// `_` for emphasis, `**` for strong, `~~` for strikethrough.
pub open spec fn delimiter(kind: InlineKind) -> Seq<char> {
    match kind {
        InlineKind::Emphasis => seq!['_'],
        InlineKind::Strong => seq!['*', '*'],
        InlineKind::Strikethrough => seq!['~', '~'],
    }
}

/// The markdown of one span.
pub open spec fn span_markdown(span: SpecText) -> Seq<char> {
    match span {
        SpecText::Plain(text) => text,
        SpecText::Italic(text) => delimiter(InlineKind::Emphasis) + text + delimiter(
            InlineKind::Emphasis,
        ),
        SpecText::Bold(text) => delimiter(InlineKind::Strong) + text + delimiter(
            InlineKind::Strong,
        ),
        SpecText::Strikethrough(text) => delimiter(InlineKind::Strikethrough) + text + delimiter(
            InlineKind::Strikethrough,
        ),
        SpecText::SoftBreak => soft_break_markdown(),
        SpecText::HardBreak => hard_break_markdown(),
    }
}

/// The markdown of a run of spans: that of each span, in order.
pub open spec fn spans_markdown(spans: Seq<SpecText>) -> Seq<char>
    decreases spans.len(),
{
    if spans.len() == 0 {
        Seq::empty()
    } else {
        spans_markdown(spans.drop_last()) + span_markdown(spans.last())
    }
}

/// Whether a token may stand inside an open span.
pub open spec fn is_inner(token: SpecToken) -> bool {
    token is Text || token is SoftBreak || token is HardBreak
}

/// What a token inside an open span adds to the span's text: a text token its
/// text, a break its markdown.
pub open spec fn inner_text(token: SpecToken) -> Seq<char> {
    match token {
        SpecToken::Text(text) => text,
        SpecToken::SoftBreak => soft_break_markdown(),
        SpecToken::HardBreak => hard_break_markdown(),
        _ => Seq::empty(),
    }
}

/// The first position from `pos` on whose token may not stand inside a span;
/// the length of the stream if there is none.
pub open spec fn inner_run_end(tokens: Seq<SpecToken>, pos: int) -> int
    decreases tokens.len() - pos,
{
    if 0 <= pos < tokens.len() && is_inner(tokens[pos]) {
        inner_run_end(tokens, pos + 1)
    } else {
        pos
    }
}

/// The text that the tokens from `from` up to `to` add to a span, in the order
/// of the stream.
pub open spec fn run_text(tokens: Seq<SpecToken>, from: int, to: int) -> Seq<char>
    decreases to - from,
{
    if to <= from {
        Seq::empty()
    } else {
        run_text(tokens, from, to - 1) + inner_text(tokens[to - 1])
    }
}

/// The span of the given kind that holds `text`.
pub open spec fn styled(kind: InlineKind, text: Seq<char>) -> SpecText {
    match kind {
        InlineKind::Emphasis => SpecText::Italic(text),
        InlineKind::Strong => SpecText::Bold(text),
        InlineKind::Strikethrough => SpecText::Strikethrough(text),
    }
}

/// The span that starts at `pos`, with the position behind its last token.
///
/// A text token or a break is a span by itself. A start tag opens a span
/// that runs over text tokens and breaks up to the first other token, which
/// has to be the end tag of the same kind.
///
/// The result is `TagMismatch` where that token is an end tag of another
/// kind, or where an end tag stands at `pos`; `UnterminatedSpan` where the
/// stream ends before that token, or holds no token at `pos`; and
/// `UnsupportedNesting` where that token is any other one, or where a block
/// tag stands at `pos`.
pub open spec fn resolve_span(tokens: Seq<SpecToken>, pos: int) -> Result<
    (SpecText, int),
    SpanError,
> {
    if !(0 <= pos < tokens.len()) {
        Err(SpanError::UnterminatedSpan)
    } else {
        match tokens[pos] {
            SpecToken::Text(text) => Ok((SpecText::Plain(text), pos + 1)),
            SpecToken::SoftBreak => Ok((SpecText::SoftBreak, pos + 1)),
            SpecToken::HardBreak => Ok((SpecText::HardBreak, pos + 1)),
            SpecToken::InlineStart(kind) => {
                let end = inner_run_end(tokens, pos + 1);
                if end >= tokens.len() {
                    Err(SpanError::UnterminatedSpan)
                } else {
                    match tokens[end] {
                        SpecToken::InlineEnd(closing) => if closing == kind {
                            Ok((styled(kind, run_text(tokens, pos + 1, end)), end + 1))
                        } else {
                            Err(SpanError::TagMismatch)
                        },
                        _ => Err(SpanError::UnsupportedNesting),
                    }
                }
            },
            SpecToken::InlineEnd(_) => Err(SpanError::TagMismatch),
            SpecToken::BlockStart(_) => Err(SpanError::UnsupportedNesting),
            SpecToken::BlockEnd(_) => Err(SpanError::UnsupportedNesting),
        }
    }
}

/// The end of a run of inner tokens lies at or behind its start and within the
/// stream, every token before it is an inner token, and the token at it is
/// none.
pub proof fn lemma_inner_run_end(tokens: Seq<SpecToken>, pos: int)
    requires
        0 <= pos <= tokens.len(),
    ensures
        pos <= inner_run_end(tokens, pos) <= tokens.len(),
        forall|i: int| pos <= i < inner_run_end(tokens, pos) ==> is_inner(#[trigger] tokens[i]),
        inner_run_end(tokens, pos) < tokens.len() ==> !is_inner(
            tokens[inner_run_end(tokens, pos)],
        ),
    decreases tokens.len() - pos,
{
    if pos < tokens.len() && is_inner(tokens[pos]) {
        lemma_inner_run_end(tokens, pos + 1);
    }
}

/// A run of inner tokens that stops at `end` has its end there, wherever in
/// the run the search starts.
pub proof fn lemma_inner_run_stops(tokens: Seq<SpecToken>, pos: int, end: int)
    requires
        0 <= pos <= end <= tokens.len(),
        forall|i: int| pos <= i < end ==> is_inner(#[trigger] tokens[i]),
        end < tokens.len() ==> !is_inner(tokens[end]),
    ensures
        inner_run_end(tokens, pos) == end,
    decreases end - pos,
{
    if pos < end {
        lemma_inner_run_stops(tokens, pos + 1, end);
    }
}

/// A start tag whose run of text is closed by an end tag of another kind never
/// gives a span: the result is `TagMismatch`.
pub proof fn lemma_mismatched_tags(
    tokens: Seq<SpecToken>,
    pos: int,
    end: int,
    opening: InlineKind,
    closing: InlineKind,
)
    requires
        0 <= pos < end < tokens.len(),
        tokens[pos] == SpecToken::InlineStart(opening),
        tokens[end] == SpecToken::InlineEnd(closing),
        forall|i: int| pos < i < end ==> is_inner(#[trigger] tokens[i]),
        opening != closing,
    ensures
        resolve_span(tokens, pos) == Err::<(SpecText, int), SpanError>(SpanError::TagMismatch),
{
    lemma_inner_run_stops(tokens, pos + 1, end);
}

/// A span takes at least one token and ends within the stream.
pub proof fn lemma_span_advances(tokens: Seq<SpecToken>, pos: int)
    ensures
        match resolve_span(tokens, pos) {
            Ok((_, next)) => 0 <= pos < next <= tokens.len(),
            Err(_) => true,
        },
{
    if 0 <= pos < tokens.len() {
        lemma_inner_run_end(tokens, pos + 1);
    }
}

/// `first` put before the spans of a later result.
pub open spec fn spans_after(
    first: Seq<SpecText>,
    later: Result<(Seq<SpecText>, int), SpanError>,
) -> Result<(Seq<SpecText>, int), SpanError> {
    match later {
        Ok((rest, end)) => Ok((first + rest, end)),
        Err(error) => Err(error),
    }
}

/// The spans from `pos` up to the next block end tag, with the position of
/// that tag. The content of a heading or of a paragraph is read so.
pub open spec fn read_spans(tokens: Seq<SpecToken>, pos: int) -> Result<
    (Seq<SpecText>, int),
    SpanError,
>
    decreases tokens.len() - pos,
{
    if !(0 <= pos < tokens.len()) {
        Err(SpanError::UnterminatedSpan)
    } else if tokens[pos] is BlockEnd {
        Ok((Seq::empty(), pos))
    } else {
        match resolve_span(tokens, pos) {
            Ok((span, next)) => {
                proof {
                    lemma_span_advances(tokens, pos);
                }
                spans_after(seq![span], read_spans(tokens, next))
            },
            Err(error) => Err(error),
        }
    }
}

/// A run of spans ends at a block end tag behind its start.
pub proof fn lemma_read_spans_end(tokens: Seq<SpecToken>, pos: int)
    ensures
        match read_spans(tokens, pos) {
            Ok((_, end)) => 0 <= pos <= end < tokens.len() && tokens[end] is BlockEnd,
            Err(_) => true,
        },
    decreases tokens.len() - pos,
{
    if 0 <= pos < tokens.len() && !(tokens[pos] is BlockEnd) {
        lemma_span_advances(tokens, pos);
        match resolve_span(tokens, pos) {
            Ok((_, next)) => {
                lemma_read_spans_end(tokens, next);
            },
            Err(_) => {},
        }
    }
}

impl Text {
    /// Reads spans from `pos` up to the next block end tag and returns them
    /// with the position of that tag.
    pub fn read_spans(tokens: &[Token], pos: usize) -> (read: Result<(Vec<Text>, usize), SpanError>)
        ensures
            match read {
                Ok((spans, end)) => read_spans(token_views(tokens@), pos as int) == Ok::<
                    (Seq<SpecText>, int),
                    SpanError,
                >((text_views(spans@), end as int)),
                Err(error) => read_spans(token_views(tokens@), pos as int) == Err::<
                    (Seq<SpecText>, int),
                    SpanError,
                >(error),
            },
    {
        let ghost stream = token_views(tokens@);
        let mut spans: Vec<Text> = Vec::new();
        let mut at = pos;
        assert(text_views(spans@) =~= Seq::<SpecText>::empty());
        loop
            invariant
                stream == token_views(tokens@),
                read_spans(stream, pos as int) == spans_after(
                    text_views(spans@),
                    read_spans(stream, at as int),
                ),
            decreases tokens.len() - at,
        {
            if at >= tokens.len() {
                return Err(SpanError::UnterminatedSpan);
            }
            assert(stream[at as int] == tokens@[at as int]@);
            if let Token::BlockEnd(_) = &tokens[at] {
                assert(text_views(spans@) + Seq::<SpecText>::empty() =~= text_views(spans@));
                return Ok((spans, at));
            }
            proof {
                lemma_span_advances(stream, at as int);
            }
            match Text::try_from_events(tokens, at) {
                Ok((span, next)) => {
                    let ghost before = text_views(spans@);
                    spans.push(span);
                    proof {
                        assert(text_views(spans@) =~= before.push(span@));
                        match read_spans(stream, next as int) {
                            Ok((rest, end)) => {
                                assert(before + (seq![span@] + rest) =~= before.push(span@) + rest);
                            },
                            Err(_) => {},
                        }
                    }
                    at = next;
                },
                Err(error) => {
                    return Err(error);
                },
            }
        }
    }

    /// Renders the span as markdown: plain text as it is, emphasis between
    /// `_`, strong between `**`, strikethrough between `~~`, a soft break
    /// as a line end and a hard break as a backslash before the line end.
    pub fn to_markdown(&self) -> (markdown: String)
        ensures
            markdown@ == span_markdown(self@),
    {
        proof {
            reveal_strlit("_");
            reveal_strlit("**");
            reveal_strlit("~~");
            reveal_strlit("\n");
            reveal_strlit("\\\n");
        }
        match self {
            Text::Plain(text) => text.clone(),
            Text::Italic(text) => surround("_", text),
            Text::Bold(text) => surround("**", text),
            Text::Strikethrough(text) => surround("~~", text),
            Text::SoftBreak => String::from_str("\n"),
            Text::HardBreak => String::from_str("\\\n"),
        }
    }

    /// Reads the span that starts at `pos` and returns it with the position
    /// behind its last token.
    pub fn try_from_events(tokens: &[Token], pos: usize) -> (resolved: Result<
        (Text, usize),
        SpanError,
    >)
        ensures
            match resolved {
                Ok((span, next)) => resolve_span(token_views(tokens@), pos as int) == Ok::<
                    (SpecText, int),
                    SpanError,
                >((span@, next as int)),
                Err(error) => resolve_span(token_views(tokens@), pos as int) == Err::<
                    (SpecText, int),
                    SpanError,
                >(error),
            },
    {
        let ghost stream = token_views(tokens@);
        if pos >= tokens.len() {
            return Err(SpanError::UnterminatedSpan);
        }
        assert(stream[pos as int] == tokens@[pos as int]@);
        let kind = match &tokens[pos] {
            Token::Text(text) => {
                return Ok((Text::Plain(text.clone()), pos + 1));
            },
            Token::SoftBreak => {
                return Ok((Text::SoftBreak, pos + 1));
            },
            Token::HardBreak => {
                return Ok((Text::HardBreak, pos + 1));
            },
            Token::InlineStart(kind) => *kind,
            Token::InlineEnd(_) => {
                return Err(SpanError::TagMismatch);
            },
            Token::BlockStart(_) => {
                return Err(SpanError::UnsupportedNesting);
            },
            Token::BlockEnd(_) => {
                return Err(SpanError::UnsupportedNesting);
            },
        };
        let mut inner = String::new();
        let mut at: usize = pos + 1;
        proof {
            reveal_strlit("\n");
            reveal_strlit("\\\n");
        }
        while at < tokens.len()
            invariant
                stream == token_views(tokens@),
                pos < at <= tokens.len(),
                stream[pos as int] == SpecToken::InlineStart(kind),
                forall|i: int| pos < i < at ==> is_inner(#[trigger] stream[i]),
                inner@ == run_text(stream, pos + 1, at as int),
                "\n"@ == soft_break_markdown(),
                "\\\n"@ == hard_break_markdown(),
            decreases tokens.len() - at,
        {
            assert(stream[at as int] == tokens@[at as int]@);
            match &tokens[at] {
                Token::Text(text) => {
                    inner.append(text.as_str());
                },
                Token::SoftBreak => {
                    inner.append("\n");
                },
                Token::HardBreak => {
                    inner.append("\\\n");
                },
                Token::InlineEnd(closing) => {
                    proof {
                        lemma_inner_run_stops(stream, pos + 1, at as int);
                    }
                    if check_matching_tags(kind, *closing) {
                        let span = match kind {
                            InlineKind::Emphasis => Text::Italic(inner),
                            InlineKind::Strong => Text::Bold(inner),
                            InlineKind::Strikethrough => Text::Strikethrough(inner),
                        };
                        return Ok((span, at + 1));
                    } else {
                        return Err(SpanError::TagMismatch);
                    }
                },
                _ => {
                    proof {
                        lemma_inner_run_stops(stream, pos + 1, at as int);
                    }
                    return Err(SpanError::UnsupportedNesting);
                },
            }
            at = at + 1;
        }
        proof {
            lemma_inner_run_stops(stream, pos + 1, at as int);
        }
        Err(SpanError::UnterminatedSpan)
    }
}

/// `text` between two copies of `delimiter`.
fn surround(delimiter: &str, text: &String) -> (markdown: String)
    ensures
        markdown@ == delimiter@ + text@ + delimiter@,
{
    let mut markdown = String::from_str(delimiter);
    markdown.append(text.as_str());
    markdown.append(delimiter);
    markdown
}

} // verus!
