//! From the token stream to the document tree: the blocks are read off the
//! stream one by one and handed to the heading stack builder.

use vstd::prelude::*;
use crate::markdown::builder::Builder;
use crate::markdown::heading::{Heading, SpecHeading, heading_block};
use crate::markdown::nesting::{lemma_nest_well_formed, nest};
use crate::markdown::node::{
    ListOrderType, Node, SpecNode, node_views, well_formed_block, well_formed_blocks,
    well_formed_document,
};
use crate::markdown::text::{
    SpanError, SpecText, Text, lemma_read_spans_end, lemma_span_advances, read_spans,
    resolve_span, text_views,
};
use crate::markdown::token::{BlockKind, SpecToken, Token, closes_block, token_views};

verus! {

/// What becomes of a block that cannot be read.
#[derive(Clone, Copy, Debug, PartialEq, Eq, Structural)]
pub enum ErrorPolicy {
    /// The whole parse fails with the block's error.
    Abort,
    /// The block is left out, and the parse goes on behind it.
    Skip,
}

/// What reading one node gives: the node and the position behind it.
pub type NodeRead = Result<(SpecNode, int), SpanError>;

/// What reading a run of nodes gives: the nodes and the position of the block
/// end tag that stopped the run.
pub type NodesRead = Result<(Seq<SpecNode>, int), SpanError>;

/// What reading the inside of a list item gives: its spans, its blocks, and
/// the position of the block end tag that stopped the run.
pub type BodyRead = Result<(Seq<SpecText>, Seq<SpecNode>, int), SpanError>;

/// The heading as a node that has no children yet.
pub open spec fn heading_node(heading: SpecHeading) -> SpecNode {
    SpecNode::Heading { level: heading.level, content: heading.content, subnodes: Seq::empty() }
}

/// The heading whose start tag stands at `pos`, as a node that has no
/// children yet, with the position behind its end tag.
pub open spec fn heading_node_block(tokens: Seq<SpecToken>, pos: int) -> NodeRead {
    match heading_block(tokens, pos) {
        Ok((heading, next)) => Ok((heading_node(heading), next)),
        Err(error) => Err(error),
    }
}

/// Each span as a text node.
pub open spec fn text_nodes(spans: Seq<SpecText>) -> Seq<SpecNode> {
    Seq::new(spans.len(), |i: int| SpecNode::Text(spans[i]))
}

/// The paragraph whose start tag stands at `pos`, with the position behind
/// its end tag. Between the two tags stand spans only.
pub open spec fn paragraph_block(tokens: Seq<SpecToken>, pos: int) -> NodeRead {
    if !(0 <= pos < tokens.len()) {
        Err(SpanError::UnterminatedSpan)
    } else if tokens[pos] == SpecToken::BlockStart(BlockKind::Paragraph) {
        match read_spans(tokens, pos + 1) {
            Ok((spans, end)) => if tokens[end] == SpecToken::BlockEnd(BlockKind::Paragraph) {
                Ok((SpecNode::Paragraph(text_nodes(spans)), end + 1))
            } else {
                Err(SpanError::TagMismatch)
            },
            Err(error) => Err(error),
        }
    } else {
        Err(SpanError::UnsupportedNesting)
    }
}

/// The mark of the item with the given number (the first item has number 1)
/// in a list that is numbered or not.
pub open spec fn item_order(ordered: bool, number: int) -> ListOrderType {
    if ordered {
        ListOrderType::Ordered(number as usize)
    } else {
        ListOrderType::Unordered
    }
}

/// `first` put before the nodes of a later result.
pub open spec fn nodes_after(first: Seq<SpecNode>, later: NodesRead) -> NodesRead {
    match later {
        Ok((rest, end)) => Ok((first + rest, end)),
        Err(error) => Err(error),
    }
}

/// `spans` and `nodes` put before those of a later result.
pub open spec fn body_after(
    spans: Seq<SpecText>,
    nodes: Seq<SpecNode>,
    later: BodyRead,
) -> BodyRead {
    match later {
        Ok((more_spans, more_nodes, end)) => Ok((spans + more_spans, nodes + more_nodes, end)),
        Err(error) => Err(error),
    }
}

/// The list whose start tag stands at `pos`, with the position behind its
/// end tag. Between the two tags stand list items only. The items of a
/// numbered list are numbered from 1.
pub open spec fn list_block(tokens: Seq<SpecToken>, pos: int) -> NodeRead
    decreases tokens.len() - pos, 0int,
{
    if !(0 <= pos < tokens.len()) {
        Err(SpanError::UnterminatedSpan)
    } else {
        match tokens[pos] {
            SpecToken::BlockStart(BlockKind::List(ordered)) => match list_items(
                tokens,
                pos + 1,
                ordered,
                1,
            ) {
                Ok((items, end)) => if 0 <= end < tokens.len() && tokens[end]
                    == SpecToken::BlockEnd(BlockKind::List(ordered)) {
                    Ok((SpecNode::List { items }, end + 1))
                } else {
                    Err(SpanError::TagMismatch)
                },
                Err(error) => Err(error),
            },
            _ => Err(SpanError::UnsupportedNesting),
        }
    }
}

/// The items of a list from `pos` up to the next block end tag, with the
/// position of that tag; the first of them has the given number.
pub open spec fn list_items(
    tokens: Seq<SpecToken>,
    pos: int,
    ordered: bool,
    number: int,
) -> NodesRead
    decreases tokens.len() - pos, 3int,
{
    if !(0 <= pos < tokens.len()) {
        Err(SpanError::UnterminatedSpan)
    } else if tokens[pos] is BlockEnd {
        Ok((Seq::empty(), pos))
    } else {
        match list_item(tokens, pos, item_order(ordered, number)) {
            Ok((item, next)) => if pos < next <= tokens.len() {
                nodes_after(seq![item], list_items(tokens, next, ordered, number + 1))
            } else {
                // never so: an item takes its start tag at least
                Err(SpanError::UnsupportedNesting)
            },
            Err(error) => Err(error),
        }
    }
}

/// The list item whose start tag stands at `pos`, with the position behind
/// its end tag.
pub open spec fn list_item(tokens: Seq<SpecToken>, pos: int, order: ListOrderType) -> NodeRead
    decreases tokens.len() - pos, 2int,
{
    if !(0 <= pos < tokens.len()) {
        Err(SpanError::UnterminatedSpan)
    } else if tokens[pos] == SpecToken::BlockStart(BlockKind::ListItem) {
        match item_body(tokens, pos + 1) {
            Ok((text, subnodes, end)) => if 0 <= end < tokens.len() && tokens[end]
                == SpecToken::BlockEnd(BlockKind::ListItem) {
                Ok((SpecNode::ListItem { text, order, subnodes }, end + 1))
            } else {
                Err(SpanError::TagMismatch)
            },
            Err(error) => Err(error),
        }
    } else {
        Err(SpanError::UnsupportedNesting)
    }
}

/// The block that starts at `pos` inside a list item: a paragraph or a list.
pub open spec fn item_child(tokens: Seq<SpecToken>, pos: int, kind: BlockKind) -> NodeRead
    decreases tokens.len() - pos, 1int,
{
    match kind {
        BlockKind::Paragraph => paragraph_block(tokens, pos),
        BlockKind::List(_) => list_block(tokens, pos),
        _ => Err(SpanError::UnsupportedNesting),
    }
}

/// The inside of a list item from `pos` up to the next block end tag, with
/// the position of that tag: the spans that stand there are the item's
/// text, the paragraphs and lists its children.
pub open spec fn item_body(tokens: Seq<SpecToken>, pos: int) -> BodyRead
    decreases tokens.len() - pos, 2int,
{
    if !(0 <= pos < tokens.len()) {
        Err(SpanError::UnterminatedSpan)
    } else {
        match tokens[pos] {
            SpecToken::BlockEnd(_) => Ok((Seq::empty(), Seq::empty(), pos)),
            SpecToken::BlockStart(kind) => match item_child(tokens, pos, kind) {
                Ok((node, next)) => if pos < next <= tokens.len() {
                    body_after(Seq::empty(), seq![node], item_body(tokens, next))
                } else {
                    // never so: a block takes its start tag at least
                    Err(SpanError::UnsupportedNesting)
                },
                Err(error) => Err(error),
            },
            _ => match resolve_span(tokens, pos) {
                Ok((span, next)) => {
                    proof {
                        lemma_span_advances(tokens, pos);
                    }
                    body_after(seq![span], Seq::empty(), item_body(tokens, next))
                },
                Err(error) => Err(error),
            },
        }
    }
}

/// The block that starts at `pos` on the level of the document, with the
/// position behind it: a heading (without children yet), a paragraph, a
/// list, or a span that stands outside every block.
///
/// A block end tag at `pos` gives `TagMismatch`, the start tag of a list
/// item `UnsupportedNesting`, and no token at all `UnterminatedSpan`. Inside
/// a block, an end tag that is not the one the block waits for gives
/// `TagMismatch`, a token that may not stand there `UnsupportedNesting`, and
/// the end of the stream `UnterminatedSpan`.
pub open spec fn block_at(tokens: Seq<SpecToken>, pos: int) -> NodeRead {
    if !(0 <= pos < tokens.len()) {
        Err(SpanError::UnterminatedSpan)
    } else {
        match tokens[pos] {
            SpecToken::BlockStart(BlockKind::Heading(_)) => heading_node_block(tokens, pos),
            SpecToken::BlockStart(BlockKind::Paragraph) => paragraph_block(tokens, pos),
            SpecToken::BlockStart(BlockKind::List(_)) => list_block(tokens, pos),
            SpecToken::BlockStart(BlockKind::ListItem) => Err(SpanError::UnsupportedNesting),
            SpecToken::BlockEnd(_) => Err(SpanError::TagMismatch),
            _ => match resolve_span(tokens, pos) {
                Ok((span, next)) => Ok((SpecNode::Text(span), next)),
                Err(error) => Err(error),
            },
        }
    }
}

/// How many blocks are open behind a token, where `depth` were open before
/// it.
pub open spec fn depth_after(token: SpecToken, depth: int) -> int {
    match token {
        SpecToken::BlockStart(_) => depth + 1,
        SpecToken::BlockEnd(_) => depth - 1,
        _ => depth,
    }
}

/// The position behind the first token from `pos` on behind which no block
/// is open, where `depth` blocks are open before `pos`; the length of the
/// stream if there is no such token.
pub open spec fn balanced_end(tokens: Seq<SpecToken>, pos: int, depth: int) -> int
    decreases tokens.len() - pos,
{
    if !(0 <= pos < tokens.len()) {
        tokens.len() as int
    } else if depth_after(tokens[pos], depth) <= 0 {
        pos + 1
    } else {
        balanced_end(tokens, pos + 1, depth_after(tokens[pos], depth))
    }
}

/// Where the parse goes on behind a block at `pos` that is left out: behind
/// the end tag that balances the block's start tag, or behind the one token
/// at `pos` where that is no start tag.
pub open spec fn skip_end(tokens: Seq<SpecToken>, pos: int) -> int {
    balanced_end(tokens, pos, 0)
}

/// The balanced end lies behind the position and within the stream.
pub proof fn lemma_balanced_end(tokens: Seq<SpecToken>, pos: int, depth: int)
    requires
        0 <= pos < tokens.len(),
    ensures
        pos < balanced_end(tokens, pos, depth) <= tokens.len(),
    decreases tokens.len() - pos,
{
    let open = depth_after(tokens[pos], depth);
    if open > 0 {
        if pos + 1 < tokens.len() {
            lemma_balanced_end(tokens, pos + 1, open);
        } else {
            assert(balanced_end(tokens, pos + 1, open) == tokens.len());
        }
    }
}

/// `first` put before the blocks of a later result.
pub open spec fn blocks_after(
    first: Seq<SpecNode>,
    later: Result<Seq<SpecNode>, SpanError>,
) -> Result<Seq<SpecNode>, SpanError> {
    match later {
        Ok(rest) => Ok(first + rest),
        Err(error) => Err(error),
    }
}

/// The blocks of the document from `pos` on, in the order of the stream,
/// before they are nested. A block that cannot be read fails the parse or is
/// left out, as `policy` says.
pub open spec fn blocks_from(tokens: Seq<SpecToken>, pos: int, policy: ErrorPolicy) -> Result<
    Seq<SpecNode>,
    SpanError,
>
    decreases tokens.len() - pos,
{
    if !(0 <= pos < tokens.len()) {
        Ok(Seq::empty())
    } else {
        match block_at(tokens, pos) {
            Ok((block, next)) => {
                proof {
                    lemma_block_advances(tokens, pos);
                }
                blocks_after(seq![block], blocks_from(tokens, next, policy))
            },
            Err(error) => match policy {
                ErrorPolicy::Abort => Err(error),
                ErrorPolicy::Skip => {
                    proof {
                        lemma_balanced_end(tokens, pos, 0);
                    }
                    blocks_from(tokens, skip_end(tokens, pos), policy)
                },
            },
        }
    }
}

/// The children of the document root that the token stream describes: its
/// blocks, each hung under the nearest heading before it that may take it.
pub open spec fn document_nodes(tokens: Seq<SpecToken>, policy: ErrorPolicy) -> Result<
    Seq<SpecNode>,
    SpanError,
> {
    match blocks_from(tokens, 0, policy) {
        Ok(blocks) => Ok(nest(blocks)),
        Err(error) => Err(error),
    }
}

/// The document that the token stream describes.
pub open spec fn document(tokens: Seq<SpecToken>, policy: ErrorPolicy) -> Result<
    SpecNode,
    SpanError,
> {
    match document_nodes(tokens, policy) {
        Ok(children) => Ok(SpecNode::Document(children)),
        Err(error) => Err(error),
    }
}

/// With no token the document has no children, whatever the policy.
pub proof fn lemma_empty_stream(policy: ErrorPolicy)
    ensures
        blocks_from(Seq::<SpecToken>::empty(), 0, policy) == Ok::<Seq<SpecNode>, SpanError>(
            Seq::<SpecNode>::empty(),
        ),
{
}

/// A paragraph takes its two tags at least and ends within the stream.
pub proof fn lemma_paragraph_advances(tokens: Seq<SpecToken>, pos: int)
    ensures
        match paragraph_block(tokens, pos) {
            Ok((_, next)) => 0 <= pos < next <= tokens.len(),
            Err(_) => true,
        },
{
    lemma_read_spans_end(tokens, pos + 1);
}

/// A list takes its two tags at least and ends within the stream.
pub proof fn lemma_list_advances(tokens: Seq<SpecToken>, pos: int)
    ensures
        match list_block(tokens, pos) {
            Ok((_, next)) => 0 <= pos < next <= tokens.len(),
            Err(_) => true,
        },
{
    if 0 <= pos < tokens.len() {
        match tokens[pos] {
            SpecToken::BlockStart(BlockKind::List(ordered)) => {
                lemma_list_items_end(tokens, pos + 1, ordered, 1);
            },
            _ => {},
        }
    }
}

/// A run of list items stops at a block end tag within the stream.
pub proof fn lemma_list_items_end(tokens: Seq<SpecToken>, pos: int, ordered: bool, number: int)
    ensures
        match list_items(tokens, pos, ordered, number) {
            Ok((_, end)) => 0 <= pos <= end < tokens.len() && tokens[end] is BlockEnd,
            Err(_) => true,
        },
    decreases tokens.len() - pos,
{
    if 0 <= pos < tokens.len() && !(tokens[pos] is BlockEnd) {
        match list_item(tokens, pos, item_order(ordered, number)) {
            Ok((_, next)) => {
                if pos < next <= tokens.len() {
                    lemma_list_items_end(tokens, next, ordered, number + 1);
                }
            },
            Err(_) => {},
        }
    }
}

/// The inside of a list item stops at a block end tag within the stream.
pub proof fn lemma_item_body_end(tokens: Seq<SpecToken>, pos: int)
    ensures
        match item_body(tokens, pos) {
            Ok((_, _, end)) => 0 <= pos <= end < tokens.len() && tokens[end] is BlockEnd,
            Err(_) => true,
        },
    decreases tokens.len() - pos,
{
    if 0 <= pos < tokens.len() {
        match tokens[pos] {
            SpecToken::BlockEnd(_) => {},
            SpecToken::BlockStart(kind) => {
                match item_child(tokens, pos, kind) {
                    Ok((_, next)) => {
                        if pos < next <= tokens.len() {
                            lemma_item_body_end(tokens, next);
                        }
                    },
                    Err(_) => {},
                }
            },
            _ => {
                lemma_span_advances(tokens, pos);
                match resolve_span(tokens, pos) {
                    Ok((_, next)) => {
                        lemma_item_body_end(tokens, next);
                    },
                    Err(_) => {},
                }
            },
        }
    }
}

/// A block takes at least one token and ends within the stream.
pub proof fn lemma_block_advances(tokens: Seq<SpecToken>, pos: int)
    ensures
        match block_at(tokens, pos) {
            Ok((_, next)) => 0 <= pos < next <= tokens.len(),
            Err(_) => true,
        },
{
    lemma_read_spans_end(tokens, pos + 1);
    lemma_span_advances(tokens, pos);
    lemma_list_advances(tokens, pos);
}

/// A list item takes its two tags at least and ends within the stream.
pub proof fn lemma_list_item_advances(tokens: Seq<SpecToken>, pos: int, order: ListOrderType)
    ensures
        match list_item(tokens, pos, order) {
            Ok((_, next)) => 0 <= pos < next <= tokens.len(),
            Err(_) => true,
        },
{
    lemma_item_body_end(tokens, pos + 1);
}

/// A list that was read is well formed.
pub proof fn lemma_list_well_formed(tokens: Seq<SpecToken>, pos: int)
    ensures
        match list_block(tokens, pos) {
            Ok((node, _)) => well_formed_block(node),
            Err(_) => true,
        },
    decreases tokens.len() - pos, 0int,
{
    if 0 <= pos < tokens.len() {
        match tokens[pos] {
            SpecToken::BlockStart(BlockKind::List(ordered)) => {
                lemma_list_items_well_formed(tokens, pos + 1, ordered, 1);
            },
            _ => {},
        }
    }
}

/// The items of a list that were read are well-formed list items.
pub proof fn lemma_list_items_well_formed(
    tokens: Seq<SpecToken>,
    pos: int,
    ordered: bool,
    number: int,
)
    ensures
        match list_items(tokens, pos, ordered, number) {
            Ok((items, _)) => forall|i: int|
                0 <= i < items.len() ==> #[trigger] items[i] is ListItem && well_formed_block(
                    items[i],
                ),
            Err(_) => true,
        },
    decreases tokens.len() - pos, 3int,
{
    if 0 <= pos < tokens.len() && !(tokens[pos] is BlockEnd) {
        lemma_list_item_well_formed(tokens, pos, item_order(ordered, number));
        match list_item(tokens, pos, item_order(ordered, number)) {
            Ok((item, next)) => {
                if pos < next <= tokens.len() {
                    lemma_list_items_well_formed(tokens, next, ordered, number + 1);
                    match list_items(tokens, next, ordered, number + 1) {
                        Ok((rest, _)) => {
                            let items = seq![item] + rest;
                            assert forall|i: int| 0 <= i < items.len() implies #[trigger] items[i]
                                is ListItem && well_formed_block(items[i]) by {
                                if i > 0 {
                                    assert(items[i] == rest[i - 1]);
                                }
                            }
                        },
                        Err(_) => {},
                    }
                }
            },
            Err(_) => {},
        }
    }
}

/// A list item that was read is a well-formed list item.
pub proof fn lemma_list_item_well_formed(tokens: Seq<SpecToken>, pos: int, order: ListOrderType)
    ensures
        match list_item(tokens, pos, order) {
            Ok((item, _)) => item is ListItem && well_formed_block(item),
            Err(_) => true,
        },
    decreases tokens.len() - pos, 2int,
{
    if 0 <= pos < tokens.len() && tokens[pos] == SpecToken::BlockStart(BlockKind::ListItem) {
        lemma_item_body_well_formed(tokens, pos + 1);
    }
}

/// The blocks inside a list item that were read are well formed.
pub proof fn lemma_item_body_well_formed(tokens: Seq<SpecToken>, pos: int)
    ensures
        match item_body(tokens, pos) {
            Ok((_, nodes, _)) => well_formed_blocks(nodes),
            Err(_) => true,
        },
    decreases tokens.len() - pos, 2int,
{
    if 0 <= pos < tokens.len() {
        match tokens[pos] {
            SpecToken::BlockEnd(_) => {},
            SpecToken::BlockStart(kind) => {
                match kind {
                    BlockKind::List(_) => {
                        lemma_list_well_formed(tokens, pos);
                    },
                    _ => {},
                }
                match item_child(tokens, pos, kind) {
                    Ok((node, next)) => {
                        if pos < next <= tokens.len() {
                            lemma_item_body_well_formed(tokens, next);
                            match item_body(tokens, next) {
                                Ok((_, more, _)) => {
                                    let nodes = seq![node] + more;
                                    assert forall|i: int|
                                        0 <= i < nodes.len() implies well_formed_block(
                                        #[trigger] nodes[i],
                                    ) by {
                                        if i > 0 {
                                            assert(nodes[i] == more[i - 1]);
                                        }
                                    }
                                },
                                Err(_) => {},
                            }
                        }
                    },
                    Err(_) => {},
                }
            },
            _ => {
                lemma_span_advances(tokens, pos);
                match resolve_span(tokens, pos) {
                    Ok((_, next)) => {
                        lemma_item_body_well_formed(tokens, next);
                        match item_body(tokens, next) {
                            Ok((_, more, _)) => {
                                assert(Seq::<SpecNode>::empty() + more =~= more);
                            },
                            Err(_) => {},
                        }
                    },
                    Err(_) => {},
                }
            },
        }
    }
}

/// A block that was read is well formed.
pub proof fn lemma_block_well_formed(tokens: Seq<SpecToken>, pos: int)
    ensures
        match block_at(tokens, pos) {
            Ok((block, _)) => well_formed_block(block),
            Err(_) => true,
        },
{
    lemma_list_well_formed(tokens, pos);
}

/// The blocks of a document that were read are well formed.
pub proof fn lemma_blocks_well_formed(tokens: Seq<SpecToken>, pos: int, policy: ErrorPolicy)
    ensures
        match blocks_from(tokens, pos, policy) {
            Ok(blocks) => well_formed_blocks(blocks),
            Err(_) => true,
        },
    decreases tokens.len() - pos,
{
    if 0 <= pos < tokens.len() {
        lemma_block_well_formed(tokens, pos);
        lemma_block_advances(tokens, pos);
        match block_at(tokens, pos) {
            Ok((block, next)) => {
                lemma_blocks_well_formed(tokens, next, policy);
                match blocks_from(tokens, next, policy) {
                    Ok(rest) => {
                        let blocks = seq![block] + rest;
                        assert forall|i: int| 0 <= i < blocks.len() implies well_formed_block(
                            #[trigger] blocks[i],
                        ) by {
                            if i > 0 {
                                assert(blocks[i] == rest[i - 1]);
                            }
                        }
                    },
                    Err(_) => {},
                }
            },
            Err(_) => {
                if policy == ErrorPolicy::Skip {
                    lemma_balanced_end(tokens, pos, 0);
                    lemma_blocks_well_formed(tokens, skip_end(tokens, pos), policy);
                }
            },
        }
    }
}

/// A document that was read is a well-formed document.
pub proof fn lemma_document_well_formed(tokens: Seq<SpecToken>, policy: ErrorPolicy)
    ensures
        match document(tokens, policy) {
            Ok(root) => well_formed_document(root),
            Err(_) => true,
        },
{
    lemma_blocks_well_formed(tokens, 0, policy);
    match blocks_from(tokens, 0, policy) {
        Ok(blocks) => {
            lemma_nest_well_formed(blocks);
        },
        Err(_) => {},
    }
}

/// Whether what was read is what the stream holds.
pub open spec fn node_read_is(read: Result<(Node, usize), SpanError>, owed: NodeRead) -> bool {
    match read {
        Ok((node, next)) => owed == Ok::<(SpecNode, int), SpanError>((node@, next as int)),
        Err(error) => owed == Err::<(SpecNode, int), SpanError>(error),
    }
}

/// Each span as a text node, in the same order.
fn wrap_spans(spans: Vec<Text>) -> (nodes: Vec<Node>)
    ensures
        node_views(nodes@) == text_nodes(text_views(spans@)),
{
    let ghost owed = text_nodes(text_views(spans@));
    let mut spans = spans;
    let mut turned: Vec<Node> = Vec::new();
    while spans.len() > 0
        invariant
            spans.len() + turned.len() == owed.len(),
            forall|i: int|
                0 <= i < spans.len() ==> SpecNode::Text((#[trigger] spans@[i])@) == owed[i],
            forall|i: int|
                0 <= i < turned.len() ==> (#[trigger] turned@[i])@ == owed[owed.len() - 1 - i],
        decreases spans.len(),
    {
        let span = spans.pop().unwrap();
        turned.push(Node::Text(span));
    }
    let mut nodes: Vec<Node> = Vec::new();
    while turned.len() > 0
        invariant
            nodes.len() + turned.len() == owed.len(),
            forall|i: int|
                0 <= i < turned.len() ==> (#[trigger] turned@[i])@ == owed[owed.len() - 1 - i],
            forall|i: int| 0 <= i < nodes.len() ==> (#[trigger] nodes@[i])@ == owed[i],
        decreases turned.len(),
    {
        let node = turned.pop().unwrap();
        nodes.push(node);
    }
    assert(node_views(nodes@) =~= owed);
    nodes
}

impl Node {
    /// Reads the heading whose start tag stands at `pos`, as a node that has
    /// no children yet.
    pub fn parse_heading(tokens: &[Token], pos: usize) -> (read: Result<(Node, usize), SpanError>)
        ensures
            node_read_is(read, heading_node_block(token_views(tokens@), pos as int)),
    {
        match Heading::try_from_events(tokens, pos) {
            Ok((heading, next)) => {
                let node = Node::Heading {
                    level: heading.level,
                    content: heading.content,
                    subnodes: Vec::new(),
                };
                assert(node_views(Seq::<Node>::empty()) =~= Seq::<SpecNode>::empty());
                Ok((node, next))
            },
            Err(error) => Err(error),
        }
    }

    /// Reads the paragraph whose start tag stands at `pos`.
    pub fn parse_paragraph(tokens: &[Token], pos: usize) -> (read: Result<(Node, usize), SpanError>)
        ensures
            node_read_is(read, paragraph_block(token_views(tokens@), pos as int)),
    {
        let ghost stream = token_views(tokens@);
        if pos >= tokens.len() {
            return Err(SpanError::UnterminatedSpan);
        }
        assert(stream[pos as int] == tokens@[pos as int]@);
        match &tokens[pos] {
            Token::BlockStart(BlockKind::Paragraph) => {},
            _ => {
                return Err(SpanError::UnsupportedNesting);
            },
        }
        proof {
            lemma_read_spans_end(stream, pos + 1);
        }
        match Text::read_spans(tokens, pos + 1) {
            Ok((spans, end)) => {
                if closes_block(tokens, end, BlockKind::Paragraph) {
                    Ok((Node::Paragraph(wrap_spans(spans)), end + 1))
                } else {
                    Err(SpanError::TagMismatch)
                }
            },
            Err(error) => Err(error),
        }
    }

    /// Reads the list whose start tag stands at `pos`.
    pub fn parse_list(tokens: &[Token], pos: usize) -> (read: Result<(Node, usize), SpanError>)
        ensures
            node_read_is(read, list_block(token_views(tokens@), pos as int)),
        decreases tokens@.len() - pos,
    {
        let ghost stream = token_views(tokens@);
        if pos >= tokens.len() {
            return Err(SpanError::UnterminatedSpan);
        }
        assert(stream[pos as int] == tokens@[pos as int]@);
        let ordered = match &tokens[pos] {
            Token::BlockStart(BlockKind::List(ordered)) => *ordered,
            _ => {
                return Err(SpanError::UnsupportedNesting);
            },
        };
        let mut items: Vec<Node> = Vec::new();
        let mut at: usize = pos + 1;
        let mut number: usize = 1;
        assert(node_views(items@) =~= Seq::<SpecNode>::empty());
        loop
            invariant
                stream == token_views(tokens@),
                pos < tokens@.len(),
                stream[pos as int] == SpecToken::BlockStart(BlockKind::List(ordered)),
                pos < at,
                1 <= number <= at,
                list_items(stream, pos + 1, ordered, 1) == nodes_after(
                    node_views(items@),
                    list_items(stream, at as int, ordered, number as int),
                ),
            decreases tokens@.len() - at,
        {
            if at >= tokens.len() {
                return Err(SpanError::UnterminatedSpan);
            }
            assert(stream[at as int] == tokens@[at as int]@);
            if let Token::BlockEnd(_) = &tokens[at] {
                assert(node_views(items@) + Seq::<SpecNode>::empty() =~= node_views(items@));
                if closes_block(tokens, at, BlockKind::List(ordered)) {
                    return Ok((Node::List { items }, at + 1));
                } else {
                    return Err(SpanError::TagMismatch);
                }
            }
            let order = if ordered {
                ListOrderType::Ordered(number)
            } else {
                ListOrderType::Unordered
            };
            proof {
                lemma_list_item_advances(stream, at as int, order);
            }
            match Node::parse_list_item(tokens, at, order) {
                Ok((item, next)) => {
                    let ghost before = node_views(items@);
                    items.push(item);
                    proof {
                        assert(node_views(items@) =~= before.push(item@));
                        match list_items(stream, next as int, ordered, number + 1) {
                            Ok((rest, end)) => {
                                assert(before + (seq![item@] + rest) =~= before.push(item@) + rest);
                            },
                            Err(_) => {},
                        }
                    }
                    at = next;
                    number = number + 1;
                },
                Err(error) => {
                    return Err(error);
                },
            }
        }
    }

    /// Reads the list item whose start tag stands at `pos` and gives it the
    /// mark `order`.
    pub fn parse_list_item(tokens: &[Token], pos: usize, order: ListOrderType) -> (read: Result<
        (Node, usize),
        SpanError,
    >)
        ensures
            node_read_is(read, list_item(token_views(tokens@), pos as int, order)),
        decreases tokens@.len() - pos,
    {
        let ghost stream = token_views(tokens@);
        if pos >= tokens.len() {
            return Err(SpanError::UnterminatedSpan);
        }
        assert(stream[pos as int] == tokens@[pos as int]@);
        match &tokens[pos] {
            Token::BlockStart(BlockKind::ListItem) => {},
            _ => {
                return Err(SpanError::UnsupportedNesting);
            },
        }
        let mut text: Vec<Text> = Vec::new();
        let mut subnodes: Vec<Node> = Vec::new();
        let mut at: usize = pos + 1;
        assert(node_views(subnodes@) =~= Seq::<SpecNode>::empty());
        assert(text_views(text@) =~= Seq::<SpecText>::empty());
        loop
            invariant
                stream == token_views(tokens@),
                pos < tokens@.len(),
                stream[pos as int] == SpecToken::BlockStart(BlockKind::ListItem),
                pos < at,
                item_body(stream, pos + 1) == body_after(
                    text_views(text@),
                    node_views(subnodes@),
                    item_body(stream, at as int),
                ),
            decreases tokens@.len() - at,
        {
            if at >= tokens.len() {
                return Err(SpanError::UnterminatedSpan);
            }
            assert(stream[at as int] == tokens@[at as int]@);
            let ghost spans_before = text_views(text@);
            let ghost nodes_before = node_views(subnodes@);
            match &tokens[at] {
                Token::BlockEnd(_) => {
                    assert(spans_before + Seq::<SpecText>::empty() =~= spans_before);
                    assert(nodes_before + Seq::<SpecNode>::empty() =~= nodes_before);
                    if closes_block(tokens, at, BlockKind::ListItem) {
                        return Ok((Node::ListItem { text, order, subnodes }, at + 1));
                    } else {
                        return Err(SpanError::TagMismatch);
                    }
                },
                Token::BlockStart(kind) => {
                    proof {
                        lemma_paragraph_advances(stream, at as int);
                        lemma_list_advances(stream, at as int);
                    }
                    let inner = match kind {
                        BlockKind::Paragraph => Node::parse_paragraph(tokens, at),
                        BlockKind::List(_) => Node::parse_list(tokens, at),
                        _ => Err(SpanError::UnsupportedNesting),
                    };
                    assert(node_read_is(inner, item_child(stream, at as int, *kind)));
                    match inner {
                        Ok((node, next)) => {
                            subnodes.push(node);
                            proof {
                                assert(node_views(subnodes@) =~= nodes_before.push(node@));
                                match item_body(stream, next as int) {
                                    Ok((more_spans, more_nodes, end)) => {
                                        assert(spans_before + (Seq::<SpecText>::empty()
                                            + more_spans) =~= spans_before + more_spans);
                                        assert(nodes_before + (seq![node@] + more_nodes)
                                            =~= nodes_before.push(node@) + more_nodes);
                                    },
                                    Err(_) => {},
                                }
                            }
                            at = next;
                        },
                        Err(error) => {
                            return Err(error);
                        },
                    }
                },
                _ => {
                    proof {
                        lemma_span_advances(stream, at as int);
                    }
                    match Text::try_from_events(tokens, at) {
                        Ok((span, next)) => {
                            text.push(span);
                            proof {
                                assert(text_views(text@) =~= spans_before.push(span@));
                                match item_body(stream, next as int) {
                                    Ok((more_spans, more_nodes, end)) => {
                                        assert(spans_before + (seq![span@] + more_spans)
                                            =~= spans_before.push(span@) + more_spans);
                                        assert(nodes_before + (Seq::<SpecNode>::empty()
                                            + more_nodes) =~= nodes_before + more_nodes);
                                    },
                                    Err(_) => {},
                                }
                            }
                            at = next;
                        },
                        Err(error) => {
                            return Err(error);
                        },
                    }
                },
            }
        }
    }

    /// Reads the block that starts at `pos` on the level of the document: a
    /// heading, a paragraph, a list, or a span that stands outside every
    /// block.
    pub fn parse_tag(tokens: &[Token], pos: usize) -> (read: Result<(Node, usize), SpanError>)
        ensures
            node_read_is(read, block_at(token_views(tokens@), pos as int)),
    {
        let ghost stream = token_views(tokens@);
        if pos >= tokens.len() {
            return Err(SpanError::UnterminatedSpan);
        }
        assert(stream[pos as int] == tokens@[pos as int]@);
        match &tokens[pos] {
            Token::BlockStart(BlockKind::Heading(_)) => Node::parse_heading(tokens, pos),
            Token::BlockStart(BlockKind::Paragraph) => Node::parse_paragraph(tokens, pos),
            Token::BlockStart(BlockKind::List(_)) => Node::parse_list(tokens, pos),
            Token::BlockStart(BlockKind::ListItem) => Err(SpanError::UnsupportedNesting),
            Token::BlockEnd(_) => Err(SpanError::TagMismatch),
            _ => match Text::try_from_events(tokens, pos) {
                Ok((span, next)) => Ok((Node::Text(span), next)),
                Err(error) => Err(error),
            },
        }
    }

    /// The position where the parse goes on behind a block at `pos` that is
    /// left out.
    pub fn skip_block(tokens: &[Token], pos: usize) -> (next: usize)
        requires
            pos < tokens@.len(),
        ensures
            next as int == skip_end(token_views(tokens@), pos as int),
            pos < next <= tokens@.len(),
    {
        let ghost stream = token_views(tokens@);
        let mut at: usize = pos;
        let mut depth: usize = 0;
        proof {
            lemma_balanced_end(stream, pos as int, 0);
        }
        while at < tokens.len()
            invariant
                stream == token_views(tokens@),
                pos <= at <= tokens@.len(),
                depth <= at - pos,
                at == pos ==> depth == 0,
                skip_end(stream, pos as int) == balanced_end(stream, at as int, depth as int),
            decreases tokens@.len() - at,
        {
            assert(stream[at as int] == tokens@[at as int]@);
            match &tokens[at] {
                Token::BlockStart(_) => {
                    depth = depth + 1;
                },
                Token::BlockEnd(_) => {
                    if depth <= 1 {
                        return at + 1;
                    }
                    depth = depth - 1;
                },
                _ => {
                    if depth == 0 {
                        return at + 1;
                    }
                },
            }
            at = at + 1;
        }
        at
    }

    /// Reads the whole stream and returns the children of the document
    /// root: the blocks of the stream, each hung under the nearest heading
    /// before it that may take it.
    pub fn parse_nodes(tokens: &[Token], policy: ErrorPolicy) -> (parsed: Result<
        Vec<Node>,
        SpanError,
    >)
        ensures
            match parsed {
                Ok(nodes) => document_nodes(token_views(tokens@), policy) == Ok::<
                    Seq<SpecNode>,
                    SpanError,
                >(node_views(nodes@)),
                Err(error) => document_nodes(token_views(tokens@), policy) == Err::<
                    Seq<SpecNode>,
                    SpanError,
                >(error),
            },
            parsed matches Ok(nodes) ==> well_formed_blocks(node_views(nodes@)),
            policy == ErrorPolicy::Skip ==> parsed is Ok,
    {
        let ghost stream = token_views(tokens@);
        proof {
            lemma_document_well_formed(stream, policy);
        }
        let mut builder = Builder::new();
        let mut at: usize = 0;
        assert(Seq::<SpecNode>::empty() + Seq::<SpecNode>::empty() =~= Seq::<SpecNode>::empty());
        while at < tokens.len()
            invariant
                stream == token_views(tokens@),
                at <= tokens@.len(),
                builder.wf(),
                blocks_from(stream, 0, policy) == blocks_after(
                    builder.blocks(),
                    blocks_from(stream, at as int, policy),
                ),
            decreases tokens@.len() - at,
        {
            proof {
                lemma_block_advances(stream, at as int);
            }
            match Node::parse_tag(tokens, at) {
                Ok((block, next)) => {
                    let ghost before = builder.blocks();
                    proof {
                        match blocks_from(stream, next as int, policy) {
                            Ok(rest) => {
                                assert(before + (seq![block@] + rest) =~= before.push(block@)
                                    + rest);
                            },
                            Err(_) => {},
                        }
                    }
                    builder.push_node(block);
                    at = next;
                },
                Err(error) => {
                    match policy {
                        ErrorPolicy::Abort => {
                            return Err(error);
                        },
                        ErrorPolicy::Skip => {
                            at = Node::skip_block(tokens, at);
                        },
                    }
                },
            }
        }
        proof {
            assert(builder.blocks() + Seq::<SpecNode>::empty() =~= builder.blocks());
        }
        Ok(builder.finish())
    }

    /// Reads the whole stream and returns the document that it describes.
    /// An empty stream gives a document without children.
    pub fn parse_document(tokens: &[Token], policy: ErrorPolicy) -> (parsed: Result<
        Node,
        SpanError,
    >)
        ensures
            match parsed {
                Ok(root) => document(token_views(tokens@), policy) == Ok::<SpecNode, SpanError>(
                    root@,
                ),
                Err(error) => document(token_views(tokens@), policy) == Err::<SpecNode, SpanError>(
                    error,
                ),
            },
            parsed matches Ok(root) ==> well_formed_document(root@),
            policy == ErrorPolicy::Skip ==> parsed is Ok,
    {
        match Node::parse_nodes(tokens, policy) {
            Ok(children) => Ok(Node::Document(children)),
            Err(error) => Err(error),
        }
    }
}

} // verus!
