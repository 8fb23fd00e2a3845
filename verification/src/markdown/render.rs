//! The two renderers of the document tree: markdown, and an indented dump of
//! the tree for the eye.

use vstd::prelude::*;
use vstd::string::StringExecFns;
use crate::markdown::heading::{Heading, SpecHeading};
use crate::markdown::node::{ListOrderType, Node, SpecNode, node_views};
use crate::markdown::text::{SpecText, Text, span_markdown, spans_markdown, text_views};

verus! {

/// The indentation that stands for one level of depth where none is asked
/// for: two spaces.
pub const DEFAULT_INDENT: usize = 2;

/// `count` spaces.
pub open spec fn spaces(count: nat) -> Seq<char> {
    Seq::new(count, |i: int| ' ')
}

/// `count` hash signs.
pub open spec fn hashes(count: nat) -> Seq<char> {
    Seq::new(count, |i: int| '#')
}

/// The character of a decimal digit.
pub open spec fn digit(d: int) -> char {
    seq!['0', '1', '2', '3', '4', '5', '6', '7', '8', '9'][d]
}

/// The decimal digits of a number, without leading zeros.
pub open spec fn decimal(n: nat) -> Seq<char>
    decreases n,
{
    if n < 10 {
        seq![digit(n as int)]
    } else {
        decimal(n / 10).push(digit((n % 10) as int))
    }
}

/// The markdown of a heading's own line, without the line end: as many hash
/// signs as the level says, a space, and the content.
pub open spec fn heading_markdown(heading: SpecHeading) -> Seq<char> {
    hashes(heading.level) + seq![' '] + spans_markdown(heading.content)
}

/// The marker of a list item: `-`, or the item's number and a dot.
pub open spec fn order_markdown(order: ListOrderType) -> Seq<char> {
    match order {
        ListOrderType::Unordered => seq!['-'],
        ListOrderType::Ordered(number) => decimal(number as nat).push('.'),
    }
}

/// What stands behind a node in a run of blocks: an empty line behind a
/// paragraph, nothing behind the others. A heading and a list item end
/// their own lines.
pub open spec fn terminator(node: SpecNode) -> Seq<char> {
    if node is Paragraph {
        seq!['\n', '\n']
    } else {
        Seq::empty()
    }
}

/// The markdown of a node at the given depth, with `unit` spaces of
/// indentation for each level of depth.
///
/// A heading is its line, the line end, and its children one level deeper. A
/// list item is its marker, a space, its text, the line end, and its
/// children one level deeper. A paragraph is the markdown of its children
/// one after the other. A document and a list are their children at the same
/// depth.
pub open spec fn node_markdown(node: SpecNode, depth: nat, unit: nat) -> Seq<char>
    decreases node, 0nat,
{
    match node {
        SpecNode::Document(children) => nodes_markdown(
            children,
            children.len(),
            depth,
            unit,
        ),
        SpecNode::Heading { level, content, subnodes } => spaces(depth * unit) + heading_markdown(
            SpecHeading { level, content },
        ) + seq!['\n'] + nodes_markdown(subnodes, subnodes.len(), depth + 1, unit),
        SpecNode::Paragraph(children) => spaces(depth * unit) + inline_markdown(
            children,
            children.len(),
            unit,
        ),
        SpecNode::Text(span) => spaces(depth * unit) + span_markdown(span),
        SpecNode::List { items } => nodes_markdown(items, items.len(), depth, unit),
        SpecNode::ListItem { text, order, subnodes } => spaces(depth * unit) + order_markdown(
            order,
        ) + seq![' '] + spans_markdown(text) + seq!['\n'] + nodes_markdown(
            subnodes,
            subnodes.len(),
            depth + 1,
            unit,
        ),
    }
}

/// The markdown of the first `count` nodes of a run of blocks, each followed
/// by its terminator.
pub open spec fn nodes_markdown(
    nodes: Seq<SpecNode>,
    count: nat,
    depth: nat,
    unit: nat,
) -> Seq<char>
    decreases nodes, count,
{
    if count == 0 || count > nodes.len() {
        Seq::empty()
    } else {
        nodes_markdown(nodes, (count - 1) as nat, depth, unit) + node_markdown(
            nodes[count - 1],
            depth,
            unit,
        ) + terminator(nodes[count - 1])
    }
}

/// The markdown of the first `count` children of a paragraph, one directly
/// behind the other.
pub open spec fn inline_markdown(nodes: Seq<SpecNode>, count: nat, unit: nat) -> Seq<char>
    decreases nodes, count,
{
    if count == 0 || count > nodes.len() {
        Seq::empty()
    } else {
        inline_markdown(nodes, (count - 1) as nat, unit) + node_markdown(nodes[count - 1], 0, unit)
    }
}

/// The string of one decimal digit.
fn digit_str(d: usize) -> (text: &'static str)
    requires
        d < 10,
    ensures
        text@ == seq![digit(d as int)],
{
    proof {
        reveal_strlit("0");
        reveal_strlit("1");
        reveal_strlit("2");
        reveal_strlit("3");
        reveal_strlit("4");
        reveal_strlit("5");
        reveal_strlit("6");
        reveal_strlit("7");
        reveal_strlit("8");
        reveal_strlit("9");
    }
    let text = match d {
        0 => "0",
        1 => "1",
        2 => "2",
        3 => "3",
        4 => "4",
        5 => "5",
        6 => "6",
        7 => "7",
        8 => "8",
        _ => "9",
    };
    assert(text@ =~= seq![digit(d as int)]);
    text
}

/// The decimal digits of a number, without leading zeros.
pub fn decimal_string(n: usize) -> (text: String)
    ensures
        text@ == decimal(n as nat),
    decreases n,
{
    if n < 10 {
        String::from_str(digit_str(n))
    } else {
        let mut text = decimal_string(n / 10);
        text.append(digit_str(n % 10));
        assert(text@ =~= decimal(n as nat));
        text
    }
}

/// Appends `count` copies of `piece` to `out`.
fn append_repeated(out: &mut String, piece: &str, count: usize, Ghost(symbol): Ghost<char>)
    requires
        piece@ == seq![symbol],
    ensures
        final(out)@ == old(out)@ + Seq::new(count as nat, |i: int| symbol),
{
    let mut done: usize = 0;
    assert(out@ =~= old(out)@ + Seq::new(0nat, |i: int| symbol));
    while done < count
        invariant
            done <= count,
            piece@ == seq![symbol],
            out@ == old(out)@ + Seq::new(done as nat, |i: int| symbol),
        decreases count - done,
    {
        out.append(piece);
        done = done + 1;
        assert(out@ =~= old(out)@ + Seq::new(done as nat, |i: int| symbol));
    }
}

/// Appends the markdown of a run of spans to `out`.
fn append_spans(out: &mut String, spans: &Vec<Text>)
    ensures
        final(out)@ == old(out)@ + spans_markdown(text_views(spans@)),
{
    let ghost all = text_views(spans@);
    let mut i: usize = 0;
    assert(all.take(0) =~= Seq::<SpecText>::empty());
    assert(out@ =~= old(out)@ + spans_markdown(all.take(0)));
    while i < spans.len()
        invariant
            i <= spans.len(),
            all == text_views(spans@),
            out@ == old(out)@ + spans_markdown(all.take(i as int)),
        decreases spans.len() - i,
    {
        let piece = spans[i].to_markdown();
        out.append(piece.as_str());
        proof {
            let upto = all.take(i + 1);
            assert(upto.drop_last() =~= all.take(i as int));
            assert(upto.last() == spans@[i as int]@);
            assert(out@ =~= old(out)@ + spans_markdown(upto));
        }
        i = i + 1;
    }
    assert(all.take(spans.len() as int) =~= all);
}

impl Heading {
    /// The heading's own line as markdown, without the line end.
    pub fn to_markdown(&self) -> (markdown: String)
        ensures
            markdown@ == heading_markdown(self@),
    {
        let mut markdown = String::new();
        proof {
            reveal_strlit("#");
            reveal_strlit(" ");
        }
        assert("#"@ =~= seq!['#']);
        append_repeated(&mut markdown, "#", self.level, Ghost('#'));
        markdown.append(" ");
        append_spans(&mut markdown, &self.content);
        assert(markdown@ =~= heading_markdown(self@));
        markdown
    }
}

impl ListOrderType {
    /// The marker of a list item: `-`, or the item's number and a dot.
    pub fn to_markdown(&self) -> (markdown: String)
        ensures
            markdown@ == order_markdown(*self),
    {
        proof {
            reveal_strlit("-");
            reveal_strlit(".");
        }
        match self {
            ListOrderType::Unordered => String::from_str("-"),
            ListOrderType::Ordered(number) => {
                let mut markdown = decimal_string(*number);
                markdown.append(".");
                assert(markdown@ =~= order_markdown(*self));
                markdown
            },
        }
    }
}

impl Node {
    /// Appends the markdown of the node to `out`. `indent` holds the
    /// indentation of the node's depth, `unit` that of one level.
    fn write_indented(
        &self,
        out: &mut String,
        indent: &str,
        unit: &str,
        Ghost(depth): Ghost<nat>,
        Ghost(width): Ghost<nat>,
    )
        requires
            indent@ == spaces(depth * width),
            unit@ == spaces(width),
        ensures
            final(out)@ == old(out)@ + node_markdown(self@, depth, width),
        decreases self, 1nat,
    {
        proof {
            reveal_strlit(" ");
            reveal_strlit("#");
            reveal_strlit("\n");
            reveal_strlit("");
            assert((depth + 1) * width == depth * width + width) by (nonlinear_arith);
            assert(0 * width == 0) by (nonlinear_arith);
            assert(spaces(depth * width) + spaces(width) =~= spaces((depth + 1) * width));
        }
        match self {
            Node::Document(children) => {
                Node::write_run(children, out, indent, unit, Ghost(depth), Ghost(width));
            },
            Node::Heading { level, content, subnodes } => {
                out.append(indent);
                assert("#"@ =~= seq!['#']);
                append_repeated(out, "#", *level, Ghost('#'));
                out.append(" ");
                append_spans(out, content);
                out.append("\n");
                let mut deeper = String::from_str(indent);
                deeper.append(unit);
                let ghost line = out@;
                Node::write_run(
                    subnodes,
                    out,
                    deeper.as_str(),
                    unit,
                    Ghost(depth + 1),
                    Ghost(width),
                );
                assert(line =~= old(out)@ + (spaces(depth * width) + heading_markdown(
                    SpecHeading { level: *level as nat, content: text_views(content@) },
                ) + seq!['\n']));
                assert(out@ =~= old(out)@ + node_markdown(self@, depth, width));
            },
            Node::Paragraph(children) => {
                out.append(indent);
                Node::write_inline(children, out, unit, Ghost(width));
                assert(out@ =~= old(out)@ + node_markdown(self@, depth, width));
            },
            Node::Text(span) => {
                out.append(indent);
                let piece = span.to_markdown();
                out.append(piece.as_str());
                assert(out@ =~= old(out)@ + node_markdown(self@, depth, width));
            },
            Node::List { items } => {
                Node::write_run(items, out, indent, unit, Ghost(depth), Ghost(width));
            },
            Node::ListItem { text, order, subnodes } => {
                out.append(indent);
                let marker = order.to_markdown();
                out.append(marker.as_str());
                out.append(" ");
                append_spans(out, text);
                out.append("\n");
                let mut deeper = String::from_str(indent);
                deeper.append(unit);
                let ghost line = out@;
                Node::write_run(
                    subnodes,
                    out,
                    deeper.as_str(),
                    unit,
                    Ghost(depth + 1),
                    Ghost(width),
                );
                assert(line =~= old(out)@ + (spaces(depth * width) + order_markdown(*order)
                    + seq![' '] + spans_markdown(text_views(text@)) + seq!['\n']));
                assert(out@ =~= old(out)@ + node_markdown(self@, depth, width));
            },
        }
    }

    /// Appends the markdown of the children of a paragraph to `out`, one
    /// directly behind the other.
    fn write_inline(nodes: &Vec<Node>, out: &mut String, unit: &str, Ghost(width): Ghost<nat>)
        requires
            unit@ == spaces(width),
        ensures
            final(out)@ == old(out)@ + inline_markdown(node_views(nodes@), nodes@.len(), width),
        decreases nodes, 0nat,
    {
        let ghost all = node_views(nodes@);
        let mut i: usize = 0;
        proof {
            reveal_strlit("");
            assert(0 * width == 0) by (nonlinear_arith);
            assert(""@ =~= spaces(0 * width));
        }
        assert(out@ =~= old(out)@ + inline_markdown(all, 0, width));
        while i < nodes.len()
            invariant
                i <= nodes.len(),
                all == node_views(nodes@),
                unit@ == spaces(width),
                ""@ == spaces(0 * width),
                out@ == old(out)@ + inline_markdown(all, i as nat, width),
            decreases nodes.len() - i,
        {
            let ghost before = out@;
            nodes[i].write_indented(out, "", unit, Ghost(0), Ghost(width));
            assert(all[i as int] == nodes@[i as int]@);
            assert(out@ =~= before + node_markdown(all[i as int], 0, width));
            i = i + 1;
            assert(out@ =~= old(out)@ + inline_markdown(all, i as nat, width));
        }
    }

    /// Appends the markdown of a run of blocks to `out`, each followed by its
    /// terminator.
    fn write_run(
        nodes: &Vec<Node>,
        out: &mut String,
        indent: &str,
        unit: &str,
        Ghost(depth): Ghost<nat>,
        Ghost(width): Ghost<nat>,
    )
        requires
            indent@ == spaces(depth * width),
            unit@ == spaces(width),
        ensures
            final(out)@ == old(out)@ + nodes_markdown(
                node_views(nodes@),
                nodes@.len(),
                depth,
                width,
            ),
        decreases nodes, 0nat,
    {
        let ghost all = node_views(nodes@);
        let mut i: usize = 0;
        proof {
            reveal_strlit("\n\n");
        }
        assert(out@ =~= old(out)@ + nodes_markdown(all, 0, depth, width));
        while i < nodes.len()
            invariant
                i <= nodes.len(),
                all == node_views(nodes@),
                indent@ == spaces(depth * width),
                unit@ == spaces(width),
                "\n\n"@ == seq!['\n', '\n'],
                out@ == old(out)@ + nodes_markdown(all, i as nat, depth, width),
            decreases nodes.len() - i,
        {
            let ghost before = out@;
            nodes[i].write_indented(out, indent, unit, Ghost(depth), Ghost(width));
            if let Node::Paragraph(_) = &nodes[i] {
                out.append("\n\n");
            }
            assert(all[i as int] == nodes@[i as int]@);
            assert(out@ =~= before + node_markdown(all[i as int], depth, width) + terminator(
                all[i as int],
            ));
            i = i + 1;
            assert(out@ =~= old(out)@ + nodes_markdown(all, i as nat, depth, width));
        }
    }

    /// Renders the tree as markdown with `indent_unit` spaces of indentation
    /// for each level of depth.
    pub fn to_markdown_with(&self, indent_unit: usize) -> (markdown: String)
        ensures
            markdown@ == node_markdown(self@, 0, indent_unit as nat),
    {
        proof {
            reveal_strlit(" ");
            reveal_strlit("");
        }
        let mut unit = String::new();
        assert(" "@ =~= seq![' ']);
        append_repeated(&mut unit, " ", indent_unit, Ghost(' '));
        assert(unit@ =~= spaces(indent_unit as nat));
        assert(""@ =~= spaces(0 * indent_unit as nat));
        let mut markdown = String::new();
        self.write_indented(&mut markdown, "", unit.as_str(), Ghost(0), Ghost(indent_unit as nat));
        assert(markdown@ =~= node_markdown(self@, 0, indent_unit as nat));
        markdown
    }

    /// Renders the tree as markdown with two spaces of indentation for each
    /// level of depth.
    pub fn to_markdown(&self) -> (markdown: String)
        ensures
            markdown@ == node_markdown(self@, 0, DEFAULT_INDENT as nat),
    {
        self.to_markdown_with(DEFAULT_INDENT)
    }
}

/// Where a node stands among the children of its parent.
#[derive(Clone, Copy, Debug, PartialEq, Eq, Structural)]
pub enum Branch {
    /// The node is the root of what is shown.
    Root,
    /// Another child follows.
    Middle,
    /// The node is the last child.
    Last,
}

/// What the dump says of a node by itself: its kind and, for a heading, a
/// text node and a list item, its content as markdown.
pub open spec fn node_label(node: SpecNode) -> Seq<char> {
    match node {
        SpecNode::Document(_) => "Document"@,
        SpecNode::Heading { level, content, .. } => "Heading: #H"@ + decimal(level) + seq![' ']
            + spans_markdown(content),
        SpecNode::Paragraph(_) => "Paragraph"@,
        SpecNode::Text(span) => "Text: "@ + span_markdown(span),
        SpecNode::List { .. } => "List"@,
        SpecNode::ListItem { text, order, .. } => match order {
            ListOrderType::Unordered => "ListItem: Unordered "@ + spans_markdown(text),
            ListOrderType::Ordered(number) => "ListItem: Ordered "@ + decimal(number as nat)
                + seq![' '] + spans_markdown(text),
        },
    }
}

/// What stands before the label on a node's line: nothing for the root;
/// for any other node the end of the line before, the prefix, and the
/// branch glyph, which is `└─` for a last child and `├─` for any other.
pub open spec fn line_start(prefix: Seq<char>, branch: Branch) -> Seq<char> {
    match branch {
        Branch::Root => Seq::empty(),
        Branch::Middle => seq!['\n'] + prefix + "├─"@,
        Branch::Last => seq!['\n'] + prefix + "└─"@,
    }
}

/// The prefix of the lines under a node: that of the node itself, then a
/// bar where another child follows the node, and blanks where none does.
pub open spec fn child_prefix(prefix: Seq<char>, branch: Branch) -> Seq<char> {
    match branch {
        Branch::Root => prefix,
        Branch::Middle => prefix + "│ "@,
        Branch::Last => prefix + "  "@,
    }
}

/// The branch of the child at position `i` among `count` children.
pub open spec fn branch_of(i: int, count: int) -> Branch {
    if i + 1 == count {
        Branch::Last
    } else {
        Branch::Middle
    }
}

/// The dump of a node and of everything under it: one line for each node,
/// the lines of a node's children behind its own.
pub open spec fn tree_lines(node: SpecNode, prefix: Seq<char>, branch: Branch) -> Seq<char>
    decreases node, 0nat,
{
    line_start(prefix, branch) + node_label(node) + match node {
        SpecNode::Document(children) => children_lines(
            children,
            children.len(),
            child_prefix(prefix, branch),
        ),
        SpecNode::Heading { subnodes, .. } => children_lines(
            subnodes,
            subnodes.len(),
            child_prefix(prefix, branch),
        ),
        SpecNode::Paragraph(children) => children_lines(
            children,
            children.len(),
            child_prefix(prefix, branch),
        ),
        SpecNode::Text(_) => Seq::empty(),
        SpecNode::List { items } => children_lines(
            items,
            items.len(),
            child_prefix(prefix, branch),
        ),
        SpecNode::ListItem { subnodes, .. } => children_lines(
            subnodes,
            subnodes.len(),
            child_prefix(prefix, branch),
        ),
    }
}

/// The dump of the first `count` of the given children.
pub open spec fn children_lines(nodes: Seq<SpecNode>, count: nat, prefix: Seq<char>) -> Seq<char>
    decreases nodes, count,
{
    if count == 0 || count > nodes.len() {
        Seq::empty()
    } else {
        children_lines(nodes, (count - 1) as nat, prefix) + tree_lines(
            nodes[count - 1],
            prefix,
            branch_of(count - 1, nodes.len() as int),
        )
    }
}

impl Node {
    /// What the dump says of the node by itself.
    pub fn label(&self) -> (label: String)
        ensures
            label@ == node_label(self@),
    {
        match self {
            Node::Document(_) => String::from_str("Document"),
            Node::Heading { level, content, .. } => {
                let mut label = String::from_str("Heading: #H");
                let digits = decimal_string(*level);
                label.append(digits.as_str());
                proof {
                    reveal_strlit(" ");
                }
                label.append(" ");
                append_spans(&mut label, content);
                assert(label@ =~= node_label(self@));
                label
            },
            Node::Paragraph(_) => String::from_str("Paragraph"),
            Node::Text(span) => {
                let mut label = String::from_str("Text: ");
                let piece = span.to_markdown();
                label.append(piece.as_str());
                label
            },
            Node::List { .. } => String::from_str("List"),
            Node::ListItem { text, order, .. } => {
                match order {
                    ListOrderType::Unordered => {
                        let mut label = String::from_str("ListItem: Unordered ");
                        append_spans(&mut label, text);
                        label
                    },
                    ListOrderType::Ordered(number) => {
                        let mut label = String::from_str("ListItem: Ordered ");
                        let digits = decimal_string(*number);
                        label.append(digits.as_str());
                        proof {
                            reveal_strlit(" ");
                        }
                        label.append(" ");
                        append_spans(&mut label, text);
                        assert(label@ =~= node_label(self@));
                        label
                    },
                }
            },
        }
    }

    /// Appends the dump of the node and of everything under it to `out`.
    pub fn tree_view(&self, out: &mut String, prefix: &str, branch: Branch)
        ensures
            final(out)@ == old(out)@ + tree_lines(self@, prefix@, branch),
        decreases self, 1nat,
    {
        proof {
            reveal_strlit("\n");
        }
        let mut below = String::from_str(prefix);
        match branch {
            Branch::Root => {},
            Branch::Middle => {
                out.append("\n");
                out.append(prefix);
                out.append("├─");
                below.append("│ ");
            },
            Branch::Last => {
                out.append("\n");
                out.append(prefix);
                out.append("└─");
                below.append("  ");
            },
        }
        assert(out@ =~= old(out)@ + line_start(prefix@, branch));
        assert(below@ =~= child_prefix(prefix@, branch));
        let label = self.label();
        out.append(label.as_str());
        let ghost line = out@;
        match self {
            Node::Document(children) => {
                Node::tree_view_run(children, out, below.as_str());
            },
            Node::Heading { subnodes, .. } => {
                Node::tree_view_run(subnodes, out, below.as_str());
            },
            Node::Paragraph(children) => {
                Node::tree_view_run(children, out, below.as_str());
            },
            Node::Text(_) => {},
            Node::List { items } => {
                Node::tree_view_run(items, out, below.as_str());
            },
            Node::ListItem { subnodes, .. } => {
                Node::tree_view_run(subnodes, out, below.as_str());
            },
        }
        assert(line =~= old(out)@ + (line_start(prefix@, branch) + node_label(self@)));
        assert(out@ =~= old(out)@ + tree_lines(self@, prefix@, branch));
    }

    /// Appends the dump of the given children to `out`.
    fn tree_view_run(nodes: &Vec<Node>, out: &mut String, prefix: &str)
        ensures
            final(out)@ == old(out)@ + children_lines(node_views(nodes@), nodes@.len(), prefix@),
        decreases nodes, 0nat,
    {
        let ghost all = node_views(nodes@);
        let mut i: usize = 0;
        assert(out@ =~= old(out)@ + children_lines(all, 0, prefix@));
        while i < nodes.len()
            invariant
                i <= nodes.len(),
                all == node_views(nodes@),
                out@ == old(out)@ + children_lines(all, i as nat, prefix@),
            decreases nodes.len() - i,
        {
            let ghost before = out@;
            let branch = if i + 1 == nodes.len() {
                Branch::Last
            } else {
                Branch::Middle
            };
            nodes[i].tree_view(out, prefix, branch);
            assert(all[i as int] == nodes@[i as int]@);
            i = i + 1;
            assert(out@ =~= old(out)@ + children_lines(all, i as nat, prefix@));
        }
    }

    /// The tree as an indented dump: one line for each node, which names its
    /// kind and its content, under the line of its parent.
    pub fn tree_to_string(&self) -> (dump: String)
        ensures
            dump@ == tree_lines(self@, Seq::empty(), Branch::Root),
    {
        proof {
            reveal_strlit("");
        }
        let mut dump = String::new();
        assert(""@ =~= Seq::<char>::empty());
        self.tree_view(&mut dump, "", Branch::Root);
        assert(dump@ =~= tree_lines(self@, Seq::empty(), Branch::Root));
        dump
    }
}

} // verus!
