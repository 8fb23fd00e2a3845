//! The token stream of a tree: the way back from the document tree to the
//! tokens that fold into it.

use vstd::prelude::*;
use crate::markdown::nesting::{
    block_walk_run, childless, lemma_walk_gives_the_blocks_back, nest,
};
use crate::markdown::node::{ListOrderType, SpecNode};
use crate::markdown::parser::{
    ErrorPolicy, block_at, blocks_from, document_nodes, heading_node_block, item_body,
    item_child, item_order, lemma_balanced_end, lemma_block_advances, list_block, list_item,
    list_items, paragraph_block, skip_end, text_nodes,
};
use crate::markdown::text::{
    SpanError, SpecText, inner_run_end, lemma_inner_run_stops, lemma_span_advances, read_spans,
    resolve_span, run_text,
};
use crate::markdown::token::{BlockKind, InlineKind, SpecToken};

verus! {

/// The tokens of a span: a text token or a break for itself, a styled span
/// as its text between the start tag and the end tag of its kind.
pub open spec fn span_tokens(span: SpecText) -> Seq<SpecToken> {
    match span {
        SpecText::Plain(text) => seq![SpecToken::Text(text)],
        SpecText::Italic(text) => seq![
            SpecToken::InlineStart(InlineKind::Emphasis),
            SpecToken::Text(text),
            SpecToken::InlineEnd(InlineKind::Emphasis),
        ],
        SpecText::Bold(text) => seq![
            SpecToken::InlineStart(InlineKind::Strong),
            SpecToken::Text(text),
            SpecToken::InlineEnd(InlineKind::Strong),
        ],
        SpecText::Strikethrough(text) => seq![
            SpecToken::InlineStart(InlineKind::Strikethrough),
            SpecToken::Text(text),
            SpecToken::InlineEnd(InlineKind::Strikethrough),
        ],
        SpecText::SoftBreak => seq![SpecToken::SoftBreak],
        SpecText::HardBreak => seq![SpecToken::HardBreak],
    }
}

/// The tokens of the spans from position `from` on, span by span.
pub open spec fn spans_tokens(spans: Seq<SpecText>, from: int) -> Seq<SpecToken>
    decreases spans.len() - from,
{
    if 0 <= from < spans.len() {
        span_tokens(spans[from]) + spans_tokens(spans, from + 1)
    } else {
        Seq::empty()
    }
}

/// Whether `piece` stands in the stream at position `pos`.
pub open spec fn stands_at(tokens: Seq<SpecToken>, pos: int, piece: Seq<SpecToken>) -> bool {
    &&& 0 <= pos
    &&& pos + piece.len() <= tokens.len()
    &&& forall|k: int| 0 <= k < piece.len() ==> tokens[pos + k] == #[trigger] piece[k]
}

/// Where two pieces stand one behind the other, each of them stands at its
/// place.
pub proof fn lemma_stands_apart(
    tokens: Seq<SpecToken>,
    pos: int,
    first: Seq<SpecToken>,
    second: Seq<SpecToken>,
)
    requires
        stands_at(tokens, pos, first + second),
    ensures
        stands_at(tokens, pos, first),
        stands_at(tokens, pos + first.len(), second),
{
    let both = first + second;
    assert forall|k: int| 0 <= k < first.len() implies tokens[pos + k] == #[trigger] first[k] by {
        assert(both[k] == first[k]);
    }
    assert forall|k: int| 0 <= k < second.len() implies tokens[pos + first.len() + k]
        == #[trigger] second[k] by {
        assert(both[first.len() + k] == second[k]);
    }
}

/// The tokens of a span, read as a span, give the span back.
pub proof fn lemma_span_read(tokens: Seq<SpecToken>, pos: int, span: SpecText)
    requires
        stands_at(tokens, pos, span_tokens(span)),
    ensures
        resolve_span(tokens, pos) == Ok::<(SpecText, int), SpanError>(
            (span, pos + span_tokens(span).len()),
        ),
{
    let piece = span_tokens(span);
    assert(tokens[pos + 0] == piece[0]);
    match span {
        SpecText::Plain(_) => {},
        SpecText::SoftBreak => {},
        SpecText::HardBreak => {},
        _ => {
            assert(tokens[pos + 1] == piece[1]);
            assert(tokens[pos + 2] == piece[2]);
            lemma_inner_run_stops(tokens, pos + 1, pos + 2);
            assert(inner_run_end(tokens, pos + 1) == pos + 2);
            assert(run_text(tokens, pos + 1, pos + 1) =~= Seq::<char>::empty());
            match span {
                SpecText::Italic(text) => {
                    assert(run_text(tokens, pos + 1, pos + 2) =~= text);
                },
                SpecText::Bold(text) => {
                    assert(run_text(tokens, pos + 1, pos + 2) =~= text);
                },
                SpecText::Strikethrough(text) => {
                    assert(run_text(tokens, pos + 1, pos + 2) =~= text);
                },
                _ => {},
            }
        },
    }
}

/// The first token of a span is neither a block tag nor an inline end tag.
pub proof fn lemma_span_starts(span: SpecText)
    ensures
        span_tokens(span).len() >= 1,
        !(span_tokens(span)[0] is BlockStart),
        !(span_tokens(span)[0] is BlockEnd),
        !(span_tokens(span)[0] is InlineEnd),
{
}

/// The tokens of a run of spans before a block end tag, read as spans, give
/// the spans back and stop at the tag.
pub proof fn lemma_spans_read(tokens: Seq<SpecToken>, pos: int, spans: Seq<SpecText>, from: int)
    requires
        0 <= from <= spans.len(),
        stands_at(tokens, pos, spans_tokens(spans, from)),
        pos + spans_tokens(spans, from).len() < tokens.len(),
        tokens[pos + spans_tokens(spans, from).len()] is BlockEnd,
    ensures
        read_spans(tokens, pos) == Ok::<(Seq<SpecText>, int), SpanError>(
            (spans.skip(from), pos + spans_tokens(spans, from).len()),
        ),
    decreases spans.len() - from,
{
    if from == spans.len() {
        assert(spans.skip(from) =~= Seq::<SpecText>::empty());
    } else {
        let first = span_tokens(spans[from]);
        let rest = spans_tokens(spans, from + 1);
        lemma_stands_apart(tokens, pos, first, rest);
        lemma_span_starts(spans[from]);
        lemma_span_read(tokens, pos, spans[from]);
        assert(tokens[pos + 0] == first[0]);
        lemma_spans_read(tokens, pos + first.len(), spans, from + 1);
        assert(seq![spans[from]] + spans.skip(from + 1) =~= spans.skip(from));
    }
}

/// Whether a list is numbered, as its first item tells. A list without
/// items counts as not numbered.
pub open spec fn is_numbered(items: Seq<SpecNode>) -> bool {
    items.len() > 0 && match items[0] {
        SpecNode::ListItem { order, .. } => order is Ordered,
        _ => false,
    }
}

/// The tokens of a block without what hangs under it: the tokens between
/// its start tag and its end tag are those of its content. A heading is
/// taken without its children, and a document has no tokens of its own.
pub open spec fn block_tokens(node: SpecNode) -> Seq<SpecToken>
    decreases node, 0nat,
{
    match node {
        SpecNode::Document(_) => Seq::empty(),
        SpecNode::Heading { level, content, .. } => seq![
            SpecToken::BlockStart(BlockKind::Heading(level as usize)),
        ] + spans_tokens(content, 0) + seq![
            SpecToken::BlockEnd(BlockKind::Heading(level as usize)),
        ],
        SpecNode::Paragraph(children) => seq![SpecToken::BlockStart(BlockKind::Paragraph)]
            + run_tokens(children, 0) + seq![SpecToken::BlockEnd(BlockKind::Paragraph)],
        SpecNode::Text(span) => span_tokens(span),
        SpecNode::List { items } => seq![
            SpecToken::BlockStart(BlockKind::List(is_numbered(items))),
        ] + run_tokens(items, 0) + seq![SpecToken::BlockEnd(BlockKind::List(is_numbered(items)))],
        SpecNode::ListItem { text, subnodes, .. } => seq![
            SpecToken::BlockStart(BlockKind::ListItem),
        ] + spans_tokens(text, 0) + run_tokens(subnodes, 0) + seq![
            SpecToken::BlockEnd(BlockKind::ListItem),
        ],
    }
}

/// The tokens of the blocks from position `from` on, block by block.
pub open spec fn run_tokens(nodes: Seq<SpecNode>, from: int) -> Seq<SpecToken>
    decreases nodes, nodes.len() - from,
{
    if 0 <= from < nodes.len() {
        block_tokens(nodes[from]) + run_tokens(nodes, from + 1)
    } else {
        Seq::empty()
    }
}

/// Whether a block is one that reading a stream gives: a heading has a level
/// from 1 to 6 and no children yet, a paragraph holds text nodes, the items
/// of a list are list items that are numbered from 1 or not at all, and a
/// list item holds paragraphs and lists that are such blocks themselves.
pub open spec fn as_read(node: SpecNode) -> bool
    decreases node,
{
    match node {
        SpecNode::Document(_) => false,
        SpecNode::Heading { level, subnodes, .. } => 1 <= level <= 6 && subnodes.len() == 0,
        SpecNode::Paragraph(children) => forall|i: int|
            0 <= i < children.len() ==> #[trigger] children[i] is Text,
        SpecNode::Text(_) => true,
        SpecNode::List { items } => forall|i: int|
            0 <= i < items.len() ==> is_item_with_order(
                #[trigger] items[i],
                item_order(is_numbered(items), i + 1),
            ) && as_read(items[i]),
        SpecNode::ListItem { subnodes, .. } => forall|i: int|
            0 <= i < subnodes.len() ==> (#[trigger] subnodes[i] is Paragraph || subnodes[i]
                is List) && as_read(subnodes[i]),
    }
}

/// Whether a node is a list item with the given mark.
pub open spec fn is_item_with_order(node: SpecNode, order: ListOrderType) -> bool {
    match node {
        SpecNode::ListItem { order: own, .. } => own == order,
        _ => false,
    }
}

/// The span of a text node.
pub open spec fn span_of(node: SpecNode) -> SpecText {
    match node {
        SpecNode::Text(span) => span,
        _ => SpecText::SoftBreak,
    }
}

/// The spans of a run of text nodes.
pub open spec fn spans_of(nodes: Seq<SpecNode>) -> Seq<SpecText> {
    Seq::new(nodes.len(), |i: int| span_of(nodes[i]))
}

/// The tokens of a run of text nodes are the tokens of their spans.
pub proof fn lemma_tokens_of_text_nodes(nodes: Seq<SpecNode>, from: int)
    requires
        0 <= from <= nodes.len(),
        forall|i: int| 0 <= i < nodes.len() ==> #[trigger] nodes[i] is Text,
    ensures
        run_tokens(nodes, from) == spans_tokens(spans_of(nodes), from),
    decreases nodes.len() - from,
{
    if from < nodes.len() {
        lemma_tokens_of_text_nodes(nodes, from + 1);
        assert(nodes[from] is Text);
        assert(block_tokens(nodes[from]) == span_tokens(span_of(nodes[from])));
        assert(spans_of(nodes)[from] == span_of(nodes[from]));
        assert(run_tokens(nodes, from) == block_tokens(nodes[from]) + run_tokens(nodes, from + 1));
    }
}

/// The tokens of a heading without children, read as a heading, give the
/// heading back.
pub proof fn lemma_heading_read(tokens: Seq<SpecToken>, pos: int, node: SpecNode)
    requires
        node is Heading,
        as_read(node),
        stands_at(tokens, pos, block_tokens(node)),
    ensures
        heading_node_block(tokens, pos) == Ok::<(SpecNode, int), SpanError>(
            (node, pos + block_tokens(node).len()),
        ),
{
    match node {
        SpecNode::Heading { level, content, subnodes } => {
            let start = seq![SpecToken::BlockStart(BlockKind::Heading(level as usize))];
            let inside = spans_tokens(content, 0);
            let end = seq![SpecToken::BlockEnd(BlockKind::Heading(level as usize))];
            lemma_stands_apart(tokens, pos, start + inside, end);
            lemma_stands_apart(tokens, pos, start, inside);
            assert(tokens[pos + 0] == start[0]);
            assert(tokens[pos + 1 + inside.len() + 0] == end[0]);
            lemma_spans_read(tokens, pos + 1, content, 0);
            assert(content.skip(0) =~= content);
            assert(subnodes =~= Seq::<SpecNode>::empty());
            assert((level as usize) as nat == level);
        },
        _ => {},
    }
}

/// The tokens of a paragraph of text nodes, read as a paragraph, give the
/// paragraph back.
pub proof fn lemma_paragraph_read(tokens: Seq<SpecToken>, pos: int, node: SpecNode)
    requires
        node is Paragraph,
        as_read(node),
        stands_at(tokens, pos, block_tokens(node)),
    ensures
        paragraph_block(tokens, pos) == Ok::<(SpecNode, int), SpanError>(
            (node, pos + block_tokens(node).len()),
        ),
{
    match node {
        SpecNode::Paragraph(children) => {
            let start = seq![SpecToken::BlockStart(BlockKind::Paragraph)];
            let inside = run_tokens(children, 0);
            let end = seq![SpecToken::BlockEnd(BlockKind::Paragraph)];
            lemma_stands_apart(tokens, pos, start + inside, end);
            lemma_stands_apart(tokens, pos, start, inside);
            assert(tokens[pos + 0] == start[0]);
            assert(tokens[pos + 1 + inside.len() + 0] == end[0]);
            lemma_tokens_of_text_nodes(children, 0);
            let spans = spans_of(children);
            lemma_spans_read(tokens, pos + 1, spans, 0);
            assert(spans.skip(0) =~= spans);
            assert(text_nodes(spans) =~= children) by {
                assert forall|i: int| 0 <= i < children.len() implies text_nodes(spans)[i]
                    == children[i] by {
                    assert(children[i] is Text);
                }
            }
        },
        _ => {},
    }
}

/// Whether each node of a run is a list item as reading gives it, with the
/// mark of its place in a list that is numbered or not.
pub open spec fn items_as_read(items: Seq<SpecNode>, ordered: bool) -> bool {
    forall|i: int|
        0 <= i < items.len() ==> is_item_with_order(
            #[trigger] items[i],
            item_order(ordered, i + 1),
        ) && as_read(items[i])
}

/// Whether each node of a run is a paragraph or a list as reading gives it.
pub open spec fn children_as_read(nodes: Seq<SpecNode>) -> bool {
    forall|i: int|
        0 <= i < nodes.len() ==> (#[trigger] nodes[i] is Paragraph || nodes[i] is List) && as_read(
            nodes[i],
        )
}

/// The tokens of a list, read as a list, give the list back.
pub proof fn lemma_list_read(tokens: Seq<SpecToken>, pos: int, node: SpecNode)
    requires
        node is List,
        as_read(node),
        stands_at(tokens, pos, block_tokens(node)),
    ensures
        list_block(tokens, pos) == Ok::<(SpecNode, int), SpanError>(
            (node, pos + block_tokens(node).len()),
        ),
    decreases node, 0nat,
{
    match node {
        SpecNode::List { items } => {
            let ordered = is_numbered(items);
            let start = seq![SpecToken::BlockStart(BlockKind::List(ordered))];
            let inside = run_tokens(items, 0);
            let end = seq![SpecToken::BlockEnd(BlockKind::List(ordered))];
            lemma_stands_apart(tokens, pos, start + inside, end);
            lemma_stands_apart(tokens, pos, start, inside);
            assert(tokens[pos + 0] == start[0]);
            assert(tokens[pos + 1 + inside.len() + 0] == end[0]);
            lemma_items_read(tokens, pos + 1, items, 0, ordered);
            assert(items.skip(0) =~= items);
        },
        _ => {},
    }
}

/// The tokens of a run of list items before a block end tag, read as the
/// items of a list, give the items back and stop at the tag.
pub proof fn lemma_items_read(
    tokens: Seq<SpecToken>,
    pos: int,
    items: Seq<SpecNode>,
    from: int,
    ordered: bool,
)
    requires
        0 <= from <= items.len(),
        items_as_read(items, ordered),
        stands_at(tokens, pos, run_tokens(items, from)),
        pos + run_tokens(items, from).len() < tokens.len(),
        tokens[pos + run_tokens(items, from).len()] is BlockEnd,
    ensures
        list_items(tokens, pos, ordered, from + 1) == Ok::<(Seq<SpecNode>, int), SpanError>(
            (items.skip(from), pos + run_tokens(items, from).len()),
        ),
    decreases items, items.len() - from,
{
    if from == items.len() {
        assert(items.skip(from) =~= Seq::<SpecNode>::empty());
    } else {
        let first = block_tokens(items[from]);
        let rest = run_tokens(items, from + 1);
        lemma_stands_apart(tokens, pos, first, rest);
        assert(is_item_with_order(items[from], item_order(ordered, from + 1)));
        lemma_item_read(tokens, pos, items[from], item_order(ordered, from + 1));
        lemma_block_has_tokens(items[from]);
        assert(tokens[pos + 0] == first[0]);
        lemma_items_read(tokens, pos + first.len(), items, from + 1, ordered);
        assert(seq![items[from]] + items.skip(from + 1) =~= items.skip(from));
    }
}

/// The tokens of a list item, read as a list item with the item's own mark,
/// give the item back.
pub proof fn lemma_item_read(
    tokens: Seq<SpecToken>,
    pos: int,
    node: SpecNode,
    order: ListOrderType,
)
    requires
        is_item_with_order(node, order),
        as_read(node),
        stands_at(tokens, pos, block_tokens(node)),
    ensures
        list_item(tokens, pos, order) == Ok::<(SpecNode, int), SpanError>(
            (node, pos + block_tokens(node).len()),
        ),
    decreases node, 0nat,
{
    match node {
        SpecNode::ListItem { text, order: own, subnodes } => {
            let start = seq![SpecToken::BlockStart(BlockKind::ListItem)];
            let spans = spans_tokens(text, 0);
            let blocks = run_tokens(subnodes, 0);
            let end = seq![SpecToken::BlockEnd(BlockKind::ListItem)];
            assert(block_tokens(node) =~= start + (spans + blocks) + end);
            lemma_stands_apart(tokens, pos, start + (spans + blocks), end);
            lemma_stands_apart(tokens, pos, start, spans + blocks);
            assert(tokens[pos + 0] == start[0]);
            assert(tokens[pos + 1 + (spans + blocks).len() + 0] == end[0]);
            lemma_body_spans_read(tokens, pos + 1, text, 0, subnodes);
            assert(text.skip(0) =~= text);
        },
        _ => {},
    }
}

/// The tokens of the spans and then the blocks inside a list item, read as
/// the inside of a list item, give both back and stop at the block end tag
/// behind them.
pub proof fn lemma_body_spans_read(
    tokens: Seq<SpecToken>,
    pos: int,
    text: Seq<SpecText>,
    from: int,
    subnodes: Seq<SpecNode>,
)
    requires
        0 <= from <= text.len(),
        children_as_read(subnodes),
        stands_at(tokens, pos, spans_tokens(text, from) + run_tokens(subnodes, 0)),
        pos + (spans_tokens(text, from) + run_tokens(subnodes, 0)).len() < tokens.len(),
        tokens[pos + (spans_tokens(text, from) + run_tokens(subnodes, 0)).len()] is BlockEnd,
    ensures
        item_body(tokens, pos) == Ok::<(Seq<SpecText>, Seq<SpecNode>, int), SpanError>(
            (
                text.skip(from),
                subnodes,
                pos + (spans_tokens(text, from) + run_tokens(subnodes, 0)).len(),
            ),
        ),
    decreases subnodes, subnodes.len() + 1 + text.len() - from,
{
    let blocks = run_tokens(subnodes, 0);
    if from == text.len() {
        assert(spans_tokens(text, from) + blocks =~= blocks);
        lemma_body_blocks_read(tokens, pos, subnodes, 0);
        assert(text.skip(from) =~= Seq::<SpecText>::empty());
        assert(subnodes.skip(0) =~= subnodes);
    } else {
        let first = span_tokens(text[from]);
        let rest = spans_tokens(text, from + 1);
        assert(spans_tokens(text, from) + blocks =~= first + (rest + blocks));
        lemma_stands_apart(tokens, pos, first, rest + blocks);
        lemma_span_starts(text[from]);
        lemma_span_read(tokens, pos, text[from]);
        assert(tokens[pos + 0] == first[0]);
        lemma_body_spans_read(tokens, pos + first.len(), text, from + 1, subnodes);
        assert(seq![text[from]] + text.skip(from + 1) =~= text.skip(from));
        assert(Seq::<SpecNode>::empty() + subnodes =~= subnodes);
    }
}

/// The tokens of the blocks inside a list item, read as the inside of a list
/// item, give the blocks back and stop at the block end tag behind them.
pub proof fn lemma_body_blocks_read(
    tokens: Seq<SpecToken>,
    pos: int,
    subnodes: Seq<SpecNode>,
    from: int,
)
    requires
        0 <= from <= subnodes.len(),
        children_as_read(subnodes),
        stands_at(tokens, pos, run_tokens(subnodes, from)),
        pos + run_tokens(subnodes, from).len() < tokens.len(),
        tokens[pos + run_tokens(subnodes, from).len()] is BlockEnd,
    ensures
        item_body(tokens, pos) == Ok::<(Seq<SpecText>, Seq<SpecNode>, int), SpanError>(
            (Seq::empty(), subnodes.skip(from), pos + run_tokens(subnodes, from).len()),
        ),
    decreases subnodes, subnodes.len() - from,
{
    if from == subnodes.len() {
        assert(subnodes.skip(from) =~= Seq::<SpecNode>::empty());
    } else {
        let node = subnodes[from];
        let first = block_tokens(node);
        let rest = run_tokens(subnodes, from + 1);
        lemma_stands_apart(tokens, pos, first, rest);
        lemma_block_has_tokens(node);
        assert(tokens[pos + 0] == first[0]);
        assert(node is Paragraph || node is List);
        let next = pos + first.len();
        match node {
            SpecNode::Paragraph(_) => {
                lemma_paragraph_read(tokens, pos, node);
                assert(tokens[pos] == SpecToken::BlockStart(BlockKind::Paragraph));
                assert(item_child(tokens, pos, BlockKind::Paragraph) == Ok::<
                    (SpecNode, int),
                    SpanError,
                >((node, next)));
            },
            SpecNode::List { items } => {
                lemma_list_read(tokens, pos, node);
                let kind = BlockKind::List(is_numbered(items));
                assert(tokens[pos] == SpecToken::BlockStart(kind));
                assert(item_child(tokens, pos, kind) == Ok::<(SpecNode, int), SpanError>(
                    (node, next),
                ));
            },
            _ => {},
        }
        lemma_body_blocks_read(tokens, next, subnodes, from + 1);
        assert(seq![node] + subnodes.skip(from + 1) =~= subnodes.skip(from));
        assert(Seq::<SpecText>::empty() + Seq::<SpecText>::empty() =~= Seq::<SpecText>::empty());
    }
}

/// A block as reading gives it has a token, and its first token is the
/// start tag of its kind or, for a text node, the first token of its span.
pub proof fn lemma_block_has_tokens(node: SpecNode)
    requires
        !(node is Document),
    ensures
        block_tokens(node).len() >= 1,
        match node {
            SpecNode::Heading { level, .. } => block_tokens(node)[0] == SpecToken::BlockStart(
                BlockKind::Heading(level as usize),
            ),
            SpecNode::Paragraph(_) => block_tokens(node)[0] == SpecToken::BlockStart(
                BlockKind::Paragraph,
            ),
            SpecNode::List { items } => block_tokens(node)[0] == SpecToken::BlockStart(
                BlockKind::List(is_numbered(items)),
            ),
            SpecNode::ListItem { .. } => block_tokens(node)[0] == SpecToken::BlockStart(
                BlockKind::ListItem,
            ),
            SpecNode::Text(span) => block_tokens(node)[0] == span_tokens(span)[0],
            SpecNode::Document(_) => true,
        },
{
}

/// Whether a block is one that reading a stream gives on the level of the
/// document: a heading without children yet, a paragraph, a list, or a text
/// node.
pub open spec fn block_as_read(node: SpecNode) -> bool {
    as_read(node) && !(node is ListItem)
}

/// Whether each block of a run is one that reading a stream gives on the
/// level of the document.
pub open spec fn blocks_as_read(blocks: Seq<SpecNode>) -> bool {
    forall|i: int| 0 <= i < blocks.len() ==> block_as_read(#[trigger] blocks[i])
}

/// The tokens of a block, read as a block on the level of the document,
/// give the block back.
pub proof fn lemma_block_read(tokens: Seq<SpecToken>, pos: int, node: SpecNode)
    requires
        block_as_read(node),
        stands_at(tokens, pos, block_tokens(node)),
    ensures
        block_at(tokens, pos) == Ok::<(SpecNode, int), SpanError>(
            (node, pos + block_tokens(node).len()),
        ),
{
    lemma_block_has_tokens(node);
    let piece = block_tokens(node);
    assert(tokens[pos + 0] == piece[0]);
    match node {
        SpecNode::Heading { .. } => {
            lemma_heading_read(tokens, pos, node);
        },
        SpecNode::Paragraph(_) => {
            lemma_paragraph_read(tokens, pos, node);
        },
        SpecNode::List { .. } => {
            lemma_list_read(tokens, pos, node);
        },
        SpecNode::Text(span) => {
            lemma_span_starts(span);
            lemma_span_read(tokens, pos, span);
        },
        _ => {},
    }
}

/// The tokens of a run of blocks, read as the blocks of a document, give the
/// blocks back, whatever the policy.
pub proof fn lemma_blocks_read(
    tokens: Seq<SpecToken>,
    pos: int,
    blocks: Seq<SpecNode>,
    from: int,
    policy: ErrorPolicy,
)
    requires
        0 <= from <= blocks.len(),
        blocks_as_read(blocks),
        stands_at(tokens, pos, run_tokens(blocks, from)),
        pos + run_tokens(blocks, from).len() == tokens.len(),
    ensures
        blocks_from(tokens, pos, policy) == Ok::<Seq<SpecNode>, SpanError>(blocks.skip(from)),
    decreases blocks.len() - from,
{
    if from == blocks.len() {
        assert(blocks.skip(from) =~= Seq::<SpecNode>::empty());
    } else {
        let first = block_tokens(blocks[from]);
        let rest = run_tokens(blocks, from + 1);
        lemma_stands_apart(tokens, pos, first, rest);
        assert(block_as_read(blocks[from]));
        lemma_block_has_tokens(blocks[from]);
        lemma_block_read(tokens, pos, blocks[from]);
        lemma_blocks_read(tokens, pos + first.len(), blocks, from + 1, policy);
        assert(seq![blocks[from]] + blocks.skip(from + 1) =~= blocks.skip(from));
    }
}

/// The items of a list that were read are list items as reading gives them,
/// each with the mark of its place.
pub proof fn lemma_list_items_as_read(
    tokens: Seq<SpecToken>,
    pos: int,
    ordered: bool,
    number: int,
)
    ensures
        match list_items(tokens, pos, ordered, number) {
            Ok((items, _)) => forall|i: int|
                0 <= i < items.len() ==> is_item_with_order(
                    #[trigger] items[i],
                    item_order(ordered, number + i),
                ) && as_read(items[i]),
            Err(_) => true,
        },
    decreases tokens.len() - pos, 3int,
{
    if 0 <= pos < tokens.len() && !(tokens[pos] is BlockEnd) {
        let order = item_order(ordered, number);
        lemma_list_item_as_read(tokens, pos, order);
        match list_item(tokens, pos, order) {
            Ok((item, next)) => {
                if pos < next <= tokens.len() {
                    lemma_list_items_as_read(tokens, next, ordered, number + 1);
                    match list_items(tokens, next, ordered, number + 1) {
                        Ok((rest, _)) => {
                            let items = seq![item] + rest;
                            assert forall|i: int| 0 <= i < items.len() implies is_item_with_order(
                                #[trigger] items[i],
                                item_order(ordered, number + i),
                            ) && as_read(items[i]) by {
                                if i > 0 {
                                    assert(items[i] == rest[i - 1]);
                                }
                            }
                        },
                        Err(_) => {},
                    }
                }
            },
            Err(_) => {},
        }
    }
}

/// A list item that was read is a list item as reading gives it, with the
/// mark that was asked for.
pub proof fn lemma_list_item_as_read(tokens: Seq<SpecToken>, pos: int, order: ListOrderType)
    ensures
        match list_item(tokens, pos, order) {
            Ok((item, _)) => is_item_with_order(item, order) && as_read(item),
            Err(_) => true,
        },
    decreases tokens.len() - pos, 2int,
{
    if 0 <= pos < tokens.len() && tokens[pos] == SpecToken::BlockStart(BlockKind::ListItem) {
        lemma_item_body_as_read(tokens, pos + 1);
    }
}

/// The blocks inside a list item that were read are paragraphs and lists as
/// reading gives them.
pub proof fn lemma_item_body_as_read(tokens: Seq<SpecToken>, pos: int)
    ensures
        match item_body(tokens, pos) {
            Ok((_, nodes, _)) => children_as_read(nodes),
            Err(_) => true,
        },
    decreases tokens.len() - pos, 2int,
{
    if 0 <= pos < tokens.len() {
        match tokens[pos] {
            SpecToken::BlockEnd(_) => {},
            SpecToken::BlockStart(kind) => {
                match kind {
                    BlockKind::List(_) => {
                        lemma_list_as_read(tokens, pos);
                    },
                    _ => {},
                }
                match item_child(tokens, pos, kind) {
                    Ok((node, next)) => {
                        if pos < next <= tokens.len() {
                            lemma_item_body_as_read(tokens, next);
                            match item_body(tokens, next) {
                                Ok((_, more, _)) => {
                                    let nodes = seq![node] + more;
                                    assert forall|i: int| 0 <= i < nodes.len() implies (
                                    #[trigger] nodes[i] is Paragraph || nodes[i] is List)
                                        && as_read(nodes[i]) by {
                                        if i > 0 {
                                            assert(nodes[i] == more[i - 1]);
                                        }
                                    }
                                },
                                Err(_) => {},
                            }
                        }
                    },
                    Err(_) => {},
                }
            },
            _ => {
                lemma_span_advances(tokens, pos);
                match resolve_span(tokens, pos) {
                    Ok((_, next)) => {
                        lemma_item_body_as_read(tokens, next);
                        match item_body(tokens, next) {
                            Ok((_, more, _)) => {
                                assert(Seq::<SpecNode>::empty() + more =~= more);
                            },
                            Err(_) => {},
                        }
                    },
                    Err(_) => {},
                }
            },
        }
    }
}

/// A list that was read is a list as reading gives it.
pub proof fn lemma_list_as_read(tokens: Seq<SpecToken>, pos: int)
    ensures
        match list_block(tokens, pos) {
            Ok((node, _)) => node is List && as_read(node),
            Err(_) => true,
        },
    decreases tokens.len() - pos, 0int,
{
    if 0 <= pos < tokens.len() {
        match tokens[pos] {
            SpecToken::BlockStart(BlockKind::List(ordered)) => {
                lemma_list_items_as_read(tokens, pos + 1, ordered, 1);
                match list_items(tokens, pos + 1, ordered, 1) {
                    Ok((items, _)) => {
                        if items.len() > 0 {
                            assert(is_item_with_order(items[0], item_order(ordered, 1int + 0)));
                            assert(is_numbered(items) == ordered);
                        }
                    },
                    Err(_) => {},
                }
            },
            _ => {},
        }
    }
}

/// A block that was read on the level of the document is a block as reading
/// gives it.
pub proof fn lemma_block_as_read(tokens: Seq<SpecToken>, pos: int)
    ensures
        match block_at(tokens, pos) {
            Ok((block, _)) => block_as_read(block),
            Err(_) => true,
        },
{
    lemma_list_as_read(tokens, pos);
}

/// The blocks of a document that were read are blocks as reading gives
/// them.
pub proof fn lemma_blocks_as_read(tokens: Seq<SpecToken>, pos: int, policy: ErrorPolicy)
    ensures
        match blocks_from(tokens, pos, policy) {
            Ok(blocks) => blocks_as_read(blocks),
            Err(_) => true,
        },
    decreases tokens.len() - pos,
{
    if 0 <= pos < tokens.len() {
        lemma_block_as_read(tokens, pos);
        lemma_block_advances(tokens, pos);
        match block_at(tokens, pos) {
            Ok((block, next)) => {
                lemma_blocks_as_read(tokens, next, policy);
                match blocks_from(tokens, next, policy) {
                    Ok(rest) => {
                        let blocks = seq![block] + rest;
                        assert forall|i: int| 0 <= i < blocks.len() implies block_as_read(
                            #[trigger] blocks[i],
                        ) by {
                            if i > 0 {
                                assert(blocks[i] == rest[i - 1]);
                            }
                        }
                    },
                    Err(_) => {},
                }
            },
            Err(_) => {
                if policy == ErrorPolicy::Skip {
                    lemma_balanced_end(tokens, pos, 0);
                    lemma_blocks_as_read(tokens, skip_end(tokens, pos), policy);
                }
            },
        }
    }
}

/// The token stream of a run of trees: the tokens of their blocks in the
/// order of a walk that goes depth first.
pub open spec fn tree_tokens(nodes: Seq<SpecNode>) -> Seq<SpecToken> {
    run_tokens(block_walk_run(nodes, nodes.len()), 0)
}

/// What was built from a token stream is built again from its own token
/// stream: the tokens of the tree's blocks, taken in the order of a walk
/// that goes depth first and read under any policy, give the same children
/// of the document root.
pub proof fn lemma_rebuilt_from_own_tokens(
    tokens: Seq<SpecToken>,
    policy: ErrorPolicy,
    again: ErrorPolicy,
)
    ensures
        match document_nodes(tokens, policy) {
            Ok(children) => document_nodes(tree_tokens(children), again) == Ok::<
                Seq<SpecNode>,
                SpanError,
            >(children),
            Err(_) => true,
        },
{
    lemma_blocks_as_read(tokens, 0, policy);
    match blocks_from(tokens, 0, policy) {
        Ok(blocks) => {
            assert forall|i: int| 0 <= i < blocks.len() implies childless(#[trigger] blocks[i]) by {
                assert(block_as_read(blocks[i]));
            }
            lemma_walk_gives_the_blocks_back(blocks);
            let stream = run_tokens(blocks, 0);
            assert(tree_tokens(nest(blocks)) == stream);
            lemma_blocks_read(stream, 0, blocks, 0, again);
            assert(blocks.skip(0) =~= blocks);
        },
        Err(_) => {},
    }
}

} // verus!
