//! The heading stack builder: it takes the blocks of a document one by one
//! and hangs each under the heading that is open for it.
//!
//! The blocks live in an arena and are named by their position in it. The
//! stack of open headings and the parent of each block hold such handles,
//! never references.

use vstd::prelude::*;
use crate::markdown::nesting::{
    adopts, ancestry, children_of, hangs_before, heading_level, last_heading, lemma_ancestry,
    lemma_ancestry_prefix, lemma_nearest_adopter, lemma_nearest_adopter_prefix,
    lemma_pick_members, lemma_roots_of_all, lemma_roots_step, lemma_same_adopters,
    lemma_skip_non_adopters, nearest_adopter, nest, open_headings, parent_of, roots_from, subtree,
    subtrees, with_children,
};
use crate::markdown::node::{Node, SpecNode, node_views};

verus! {

/// The position that a handle names, `None` for the document root.
pub open spec fn handle_index(handle: Option<usize>) -> Option<int> {
    match handle {
        Some(h) => Some(h as int),
        None => None,
    }
}

/// The builder's state: the blocks pushed so far, the parent of each, and the
/// headings that are still open.
pub struct Builder {
    nodes: Vec<Node>,
    parents: Vec<Option<usize>>,
    open: Vec<usize>,
}

/// The level of a heading; `None` for any other node.
pub fn level_of(node: &Node) -> (level: Option<usize>)
    ensures
        match level {
            Some(l) => heading_level(node@) == Some(l as nat),
            None => heading_level(node@) is None,
        },
{
    match node {
        Node::Heading { level, .. } => Some(*level),
        _ => None,
    }
}

/// `node` with `more` behind the children it has. Only a heading takes
/// children: for any other node `more` is dropped.
fn adopt(node: Node, more: Vec<Node>) -> (whole: Node)
    ensures
        whole@ == with_children(node@, node_views(more@)),
{
    match node {
        Node::Heading { level, content, subnodes } => {
            let mut subnodes = subnodes;
            let mut more = more;
            let ghost before = subnodes@;
            let ghost added = more@;
            subnodes.append(&mut more);
            assert(node_views(subnodes@) =~= node_views(before) + node_views(added));
            Node::Heading { level, content, subnodes }
        },
        other => other,
    }
}

impl Builder {
    /// The blocks pushed so far, in the order of the pushes.
    pub closed spec fn blocks(&self) -> Seq<SpecNode> {
        node_views(self.nodes@)
    }

    /// The handle of each block's parent; `None` is the document root.
    pub closed spec fn parents(&self) -> Seq<Option<usize>> {
        self.parents@
    }

    /// The handles of the open headings, the outermost first.
    pub closed spec fn open(&self) -> Seq<usize> {
        self.open@
    }

    /// The builder's invariant: each block hangs under the nearest heading
    /// before it that may take it, and the stack holds the last heading
    /// with the headings above it.
    pub open spec fn wf(&self) -> bool {
        &&& self.parents().len() == self.blocks().len()
        &&& forall|i: int|
            0 <= i < self.blocks().len() ==> handle_index(#[trigger] self.parents()[i])
                == parent_of(self.blocks(), i)
        &&& self.open().len() == open_headings(self.blocks()).len()
        &&& forall|k: int|
            0 <= k < self.open().len() ==> #[trigger] self.open()[k] as int == open_headings(
                self.blocks(),
            )[k]
    }

    /// A builder that holds no block.
    pub fn new() -> (builder: Self)
        ensures
            builder.wf(),
            builder.blocks() == Seq::<SpecNode>::empty(),
    {
        let builder = Builder { nodes: Vec::new(), parents: Vec::new(), open: Vec::new() };
        assert(builder.blocks() =~= Seq::<SpecNode>::empty());
        builder
    }

    /// The number of blocks pushed so far.
    pub fn len(&self) -> (count: usize)
        ensures
            count == self.blocks().len(),
    {
        self.nodes.len()
    }

    /// The handle of the parent of the block with the given handle; `None`
    /// is the document root.
    pub fn parent(&self, handle: usize) -> (parent: Option<usize>)
        requires
            self.wf(),
            handle < self.blocks().len(),
        ensures
            parent == self.parents()[handle as int],
            handle_index(parent) == parent_of(self.blocks(), handle as int),
    {
        self.parents[handle]
    }

    /// The number of headings that are open.
    pub fn depth(&self) -> (count: usize)
        requires
            self.wf(),
        ensures
            count == open_headings(self.blocks()).len(),
    {
        self.open.len()
    }

    /// Takes the next block of the document.
    ///
    /// A heading closes the open headings of its own level and of deeper
    /// ones, hangs under the heading that is then on top of the stack, and
    /// becomes the top itself. Any other block hangs under the top of the
    /// stack and leaves the stack as it is. With an empty stack the block
    /// hangs under the document root. Returns the block's handle.
    pub fn push_node(&mut self, node: Node) -> (handle: usize)
        requires
            old(self).wf(),
        ensures
            final(self).wf(),
            final(self).blocks() == old(self).blocks().push(node@),
            handle == old(self).blocks().len(),
            handle_index(final(self).parents()[handle as int]) == nearest_adopter(
                old(self).blocks(),
                node@,
                handle as int,
            ),
    {
        let ghost before = self.blocks();
        let ghost after = before.push(node@);
        let ghost stack = open_headings(before);
        let ghost leaf = SpecNode::Paragraph(Seq::empty());
        let count = self.nodes.len();
        let level = level_of(&node);
        proof {
            lemma_nearest_adopter(before, leaf, count as int);
            match last_heading(before, count as int) {
                Some(h) => {
                    lemma_ancestry(before, h);
                    lemma_skip_non_adopters(before, node@, h + 1, count as int);
                },
                None => {
                    lemma_skip_non_adopters(before, node@, 0, count as int);
                },
            }
        }
        match level {
            Some(own) => {
                while self.open.len() > 0
                    invariant
                        self.nodes == old(self).nodes,
                        self.parents == old(self).parents,
                        before == node_views(self.nodes@),
                        count == before.len(),
                        stack == open_headings(before),
                        heading_level(node@) == Some(own as nat),
                        self.open.len() <= stack.len(),
                        forall|k: int|
                            0 <= k < self.open.len() ==> #[trigger] self.open@[k] as int
                                == stack[k],
                        forall|k: int|
                            0 <= k < stack.len() ==> 0 <= #[trigger] stack[k] < count
                                && heading_level(before[stack[k]]) is Some,
                        stack.len() > 0 ==> parent_of(before, stack[0]) == None::<int>,
                        forall|k: int|
                            1 <= k < stack.len() ==> parent_of(before, #[trigger] stack[k])
                                == Some(stack[k - 1]),
                        nearest_adopter(before, node@, count as int) == if self.open.len() == 0 {
                            None
                        } else {
                            nearest_adopter(before, node@, stack[self.open.len() - 1] + 1)
                        },
                    ensures
                        self.open.len() > 0 ==> adopts(
                            before[stack[self.open.len() - 1]],
                            node@,
                        ),
                    decreases self.open.len(),
                {
                    let top = self.open[self.open.len() - 1];
                    let ghost depth = self.open.len() as int;
                    assert(top as int == stack[depth - 1]);
                    let top_level = level_of(&self.nodes[top]);
                    let closes = match top_level {
                        Some(l) => l >= own,
                        None => false,
                    };
                    if !closes {
                        break;
                    }
                    proof {
                        let t = top as int;
                        lemma_nearest_adopter(before, before[t], t);
                        assert(!adopts(before[t], node@));
                        if depth >= 2 {
                            let above = stack[depth - 2];
                            assert(parent_of(before, stack[depth - 1]) == Some(above));
                            assert forall|k: int| above + 1 <= k < t implies !adopts(
                                #[trigger] before[k],
                                node@,
                            ) by {
                                assert(!adopts(before[k], before[t]));
                            }
                            lemma_skip_non_adopters(before, node@, above + 1, t);
                        } else {
                            assert(parent_of(before, stack[0]) == None::<int>);
                            assert forall|k: int| 0 <= k < t implies !adopts(
                                #[trigger] before[k],
                                node@,
                            ) by {
                                assert(!adopts(before[k], before[t]));
                            }
                            lemma_skip_non_adopters(before, node@, 0, t);
                        }
                    }
                    self.open.pop();
                }
            },
            None => {
                proof {
                    assert forall|k: int| 0 <= k < count implies adopts(
                        #[trigger] before[k],
                        node@,
                    ) == adopts(before[k], leaf) by {}
                    lemma_same_adopters(before, node@, leaf, count as int);
                }
            },
        }
        let ghost kept = self.open@;
        assert(self.open.len() <= stack.len());
        assert(forall|k: int| 0 <= k < kept.len() ==> #[trigger] kept[k] as int == stack[k]);
        assert(nearest_adopter(before, node@, count as int) == if kept.len() == 0 {
            None
        } else {
            nearest_adopter(before, node@, stack[kept.len() - 1] + 1)
        });
        assert(kept.len() > 0 ==> adopts(before[stack[kept.len() - 1]], node@));
        let parent = if self.open.len() == 0 {
            None
        } else {
            Some(self.open[self.open.len() - 1])
        };
        assert(handle_index(parent) == nearest_adopter(before, node@, count as int)) by {
            if self.open.len() > 0 {
                let t = self.open@[self.open.len() - 1] as int;
                assert(t == stack[self.open.len() - 1]);
                lemma_nearest_adopter(before, node@, t + 1);
            }
        }
        self.parents.push(parent);
        if level.is_some() {
            self.open.push(count);
        }
        self.nodes.push(node);
        proof {
            assert(self.blocks() =~= after);
            assert forall|i: int| 0 <= i < after.len() implies handle_index(
                #[trigger] self.parents()[i],
            ) == parent_of(after, i) by {
                if i < count {
                    lemma_nearest_adopter_prefix(before, after, before[i], i);
                } else {
                    lemma_nearest_adopter_prefix(before, after, node@, i);
                }
            }
            lemma_nearest_adopter_prefix(before, after, leaf, count as int);
            lemma_nearest_adopter_prefix(before, after, node@, count as int);
            assert(parent_of(after, count as int) == handle_index(parent));
            if level.is_some() {
                assert(last_heading(after, after.len() as int) == Some(count as int));
                if kept.len() > 0 {
                    let p = kept[kept.len() - 1] as int;
                    lemma_ancestry_prefix(before, after, p);
                    assert(ancestry(before, p) =~= stack.take(kept.len() as int));
                    assert(open_headings(after) =~= stack.take(kept.len() as int).push(
                        count as int,
                    ));
                } else {
                    assert(open_headings(after) =~= seq![count as int]);
                }
            } else {
                match last_heading(before, count as int) {
                    Some(h) => {
                        lemma_ancestry_prefix(before, after, h);
                    },
                    None => {},
                }
                assert(open_headings(after) =~= stack);
            }
        }
        count
    }

    /// Ends the building and hands out the children of the document root,
    /// each with everything that hangs under it.
    pub fn finish(self) -> (children: Vec<Node>)
        requires
            self.wf(),
        ensures
            node_views(children@) == nest(self.blocks()),
    {
        let ghost blocks = self.blocks();
        let ghost total = blocks.len() as int;
        let mut nodes = self.nodes;
        let parents = self.parents;
        let mut pending: Vec<Node> = Vec::new();
        let mut pending_at: Vec<usize> = Vec::new();
        assert(node_views(nodes@) =~= blocks.take(nodes.len() as int));
        while nodes.len() > 0
            invariant
                total == blocks.len(),
                nodes.len() <= total,
                node_views(nodes@) == blocks.take(nodes.len() as int),
                parents@.len() == total,
                forall|i: int|
                    0 <= i < total ==> handle_index(#[trigger] parents@[i]) == parent_of(blocks, i),
                pending.len() == roots_from(blocks, nodes.len() as int).len(),
                pending_at.len() == pending.len(),
                forall|x: int|
                    0 <= x < pending.len() ==> #[trigger] pending_at@[x] as int == roots_from(
                        blocks,
                        nodes.len() as int,
                    )[pending.len() - 1 - x],
                forall|x: int|
                    0 <= x < pending.len() ==> (#[trigger] pending@[x])@ == subtree(
                        blocks,
                        roots_from(blocks, nodes.len() as int)[pending.len() - 1 - x],
                    ),
            decreases nodes.len(),
        {
            let at = nodes.len() - 1;
            let ghost roots = roots_from(blocks, at + 1);
            let ghost kids = children_of(blocks, Some(at as int));
            let ghost left = roots_from(blocks, at as int);
            proof {
                lemma_roots_step(blocks, at as int);
                lemma_pick_members(0, total, |j: int| parent_of(blocks, j) == Some(at as int));
                lemma_pick_members(at as int, total, |j: int| hangs_before(blocks, j, at as int));
                assert(node_views(nodes@)[at as int] == blocks[at as int]);
            }
            let payload = nodes.pop().unwrap();
            assert(payload@ == blocks[at as int]);
            assert(node_views(nodes@) =~= blocks.take(nodes.len() as int));
            let mut below: Vec<Node> = Vec::new();
            loop
                invariant
                    total == blocks.len(),
                    at < total,
                    roots == roots_from(blocks, at + 1),
                    kids == children_of(blocks, Some(at as int)),
                    left == roots_from(blocks, at as int),
                    roots == kids + left.skip(1),
                    left.len() > 0,
                    parents@.len() == total,
                    forall|i: int|
                        0 <= i < total ==> handle_index(#[trigger] parents@[i]) == parent_of(
                            blocks,
                            i,
                        ),
                    forall|k: int|
                        0 <= k < kids.len() ==> 0 <= #[trigger] kids[k] < total && parent_of(
                            blocks,
                            kids[k],
                        ) == Some(at as int),
                    forall|k: int|
                        0 <= k < left.len() ==> at <= #[trigger] left[k] < total && hangs_before(
                            blocks,
                            left[k],
                            at as int,
                        ),
                    below.len() <= kids.len(),
                    pending.len() + below.len() == roots.len(),
                    pending_at.len() == pending.len(),
                    forall|x: int|
                        0 <= x < pending.len() ==> #[trigger] pending_at@[x] as int
                            == roots[roots.len() - 1 - x],
                    forall|x: int|
                        0 <= x < pending.len() ==> (#[trigger] pending@[x])@ == subtree(
                            blocks,
                            roots[roots.len() - 1 - x],
                        ),
                    forall|y: int|
                        0 <= y < below.len() ==> (#[trigger] below@[y])@ == subtree(
                            blocks,
                            kids[y],
                        ),
                ensures
                    below.len() == kids.len(),
                    pending.len() + below.len() == roots.len(),
                    pending_at.len() == pending.len(),
                    forall|x: int|
                        0 <= x < pending.len() ==> #[trigger] pending_at@[x] as int
                            == roots[roots.len() - 1 - x],
                    forall|x: int|
                        0 <= x < pending.len() ==> (#[trigger] pending@[x])@ == subtree(
                            blocks,
                            roots[roots.len() - 1 - x],
                        ),
                    forall|y: int|
                        0 <= y < below.len() ==> (#[trigger] below@[y])@ == subtree(
                            blocks,
                            kids[y],
                        ),
                decreases pending.len(),
            {
                if pending_at.len() == 0 {
                    break;
                }
                let top = pending_at[pending_at.len() - 1];
                let ghost taken = below.len() as int;
                assert(top as int == roots[taken]);
                let hangs_here = match parents[top] {
                    Some(p) => p == at,
                    None => false,
                };
                proof {
                    if taken < kids.len() {
                        assert(roots[taken] == kids[taken]);
                    } else {
                        assert(roots[taken] == left.skip(1)[taken - kids.len()]);
                        assert(roots[taken] == left[taken - kids.len() + 1]);
                    }
                }
                if !hangs_here {
                    break;
                }
                let tree = pending.pop().unwrap();
                pending_at.pop();
                below.push(tree);
            }
            proof {
                let made = node_views(below@);
                let owed = subtrees(blocks, kids, at as int);
                assert forall|k: int| 0 <= k < kids.len() implies (at as int)
                    < #[trigger] kids[k] by {
                    lemma_nearest_adopter(blocks, blocks[kids[k]], kids[k]);
                }
                assert(made =~= owed);
            }
            let whole = adopt(payload, below);
            assert(whole@ == subtree(blocks, at as int));
            pending.push(whole);
            pending_at.push(at);
            proof {
                assert(left.skip(1) =~= roots.skip(kids.len() as int));
                assert forall|x: int|
                    0 <= x < pending.len() implies #[trigger] pending_at@[x] as int
                    == left[pending.len() - 1 - x] && (#[trigger] pending@[x])@ == subtree(
                    blocks,
                    left[pending.len() - 1 - x],
                ) by {
                    if x < pending.len() - 1 {
                        let y = pending.len() - 1 - x;
                        assert(left[y] == left.skip(1)[y - 1]);
                        assert(left.skip(1)[y - 1] == roots[kids.len() + y - 1]);
                    }
                }
            }
        }
        let ghost roots = roots_from(blocks, 0);
        proof {
            lemma_roots_of_all(blocks);
        }
        let mut children: Vec<Node> = Vec::new();
        while pending.len() > 0
            invariant
                pending.len() + children.len() == roots.len(),
                forall|x: int|
                    0 <= x < pending.len() ==> (#[trigger] pending@[x])@ == subtree(
                        blocks,
                        roots[roots.len() - 1 - x],
                    ),
                forall|y: int|
                    0 <= y < children.len() ==> (#[trigger] children@[y])@ == subtree(
                        blocks,
                        roots[y],
                    ),
            decreases pending.len(),
        {
            let tree = pending.pop().unwrap();
            children.push(tree);
        }
        proof {
            lemma_pick_members(0, total, |j: int| parent_of(blocks, j) == None::<int>);
            assert(node_views(children@) =~= nest(blocks));
        }
        children
    }
}

} // verus!
