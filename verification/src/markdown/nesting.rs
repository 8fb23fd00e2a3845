//! How a flat run of blocks nests under its headings.
//!
//! A block hangs under the nearest heading before it that may take it: any
//! heading takes a block that is no heading, and a heading takes another
//! heading of a strictly higher level number. A block that no heading takes
//! hangs under the document root.

use vstd::prelude::*;
use crate::markdown::node::{SpecNode, well_formed_block, well_formed_blocks};

verus! {

/// The level of a heading; `None` for any other node.
pub open spec fn heading_level(node: SpecNode) -> Option<nat> {
    match node {
        SpecNode::Heading { level, .. } => Some(level),
        _ => None,
    }
}

/// Whether `parent` may take `child` as its child: `parent` is a heading,
/// and where `child` is a heading too, the level of `parent` is strictly
/// lower.
pub open spec fn adopts(parent: SpecNode, child: SpecNode) -> bool {
    match heading_level(parent) {
        Some(parent_level) => match heading_level(child) {
            Some(child_level) => parent_level < child_level,
            None => true,
        },
        None => false,
    }
}

/// The last block before position `below` that takes `child`.
pub open spec fn nearest_adopter(blocks: Seq<SpecNode>, child: SpecNode, below: int) -> Option<int>
    decreases below,
{
    if below <= 0 {
        None
    } else if below <= blocks.len() && adopts(blocks[below - 1], child) {
        Some(below - 1)
    } else {
        nearest_adopter(blocks, child, below - 1)
    }
}

/// The parent of block `i`: the nearest block before it that takes it, or
/// `None` for the document root.
pub open spec fn parent_of(blocks: Seq<SpecNode>, i: int) -> Option<int> {
    nearest_adopter(blocks, blocks[i], i)
}

/// The nearest adopter below a position is the last block before it that
/// takes the child; where there is none, no block before the position does.
pub proof fn lemma_nearest_adopter(blocks: Seq<SpecNode>, child: SpecNode, below: int)
    requires
        below <= blocks.len(),
    ensures
        match nearest_adopter(blocks, child, below) {
            Some(p) => 0 <= p < below && adopts(blocks[p], child) && forall|k: int|
                p < k < below ==> !adopts(#[trigger] blocks[k], child),
            None => forall|k: int| 0 <= k < below ==> !adopts(#[trigger] blocks[k], child),
        },
    decreases below,
{
    if below > 0 && !adopts(blocks[below - 1], child) {
        lemma_nearest_adopter(blocks, child, below - 1);
    }
}

/// The parent of a heading is the nearest heading before it that has a
/// strictly lower level: it stands before the heading, its level is lower,
/// and every heading between the two has a level at least as high as the
/// heading's own. Where no heading of a lower level stands before the
/// heading, its parent is the document root.
pub proof fn lemma_parent_is_nearest_lower_heading(blocks: Seq<SpecNode>, i: int)
    requires
        0 <= i < blocks.len(),
        heading_level(blocks[i]) is Some,
    ensures
        match parent_of(blocks, i) {
            Some(p) => 0 <= p < i && heading_level(blocks[p]) is Some && heading_level(
                blocks[p],
            )->0 < heading_level(blocks[i])->0 && forall|k: int|
                p < k < i && heading_level(#[trigger] blocks[k]) is Some ==> heading_level(
                    blocks[k],
                )->0 >= heading_level(blocks[i])->0,
            None => forall|k: int|
                0 <= k < i && heading_level(#[trigger] blocks[k]) is Some ==> heading_level(
                    blocks[k],
                )->0 >= heading_level(blocks[i])->0,
        },
{
    lemma_nearest_adopter(blocks, blocks[i], i);
    match parent_of(blocks, i) {
        Some(p) => {
            assert forall|k: int|
                p < k < i && heading_level(#[trigger] blocks[k]) is Some implies heading_level(
                blocks[k],
            )->0 >= heading_level(blocks[i])->0 by {
                assert(!adopts(blocks[k], blocks[i]));
            }
        },
        None => {
            assert forall|k: int|
                0 <= k < i && heading_level(#[trigger] blocks[k]) is Some implies heading_level(
                blocks[k],
            )->0 >= heading_level(blocks[i])->0 by {
                assert(!adopts(blocks[k], blocks[i]));
            }
        },
    }
}

/// The parent of a block that is no heading is the last heading before it,
/// whatever its level; where no heading stands before the block, its parent
/// is the document root.
pub proof fn lemma_parent_of_other_block(blocks: Seq<SpecNode>, i: int)
    requires
        0 <= i < blocks.len(),
        heading_level(blocks[i]) is None,
    ensures
        match parent_of(blocks, i) {
            Some(p) => 0 <= p < i && heading_level(blocks[p]) is Some && forall|k: int|
                p < k < i ==> heading_level(#[trigger] blocks[k]) is None,
            None => forall|k: int| 0 <= k < i ==> heading_level(#[trigger] blocks[k]) is None,
        },
{
    lemma_nearest_adopter(blocks, blocks[i], i);
    match parent_of(blocks, i) {
        Some(p) => {
            assert forall|k: int| p < k < i implies heading_level(#[trigger] blocks[k])
                is None by {
                assert(!adopts(blocks[k], blocks[i]));
            }
        },
        None => {
            assert forall|k: int| 0 <= k < i implies heading_level(#[trigger] blocks[k])
                is None by {
                assert(!adopts(blocks[k], blocks[i]));
            }
        },
    }
}

/// Blocks that do not take the child can be left out of the search.
pub proof fn lemma_skip_non_adopters(blocks: Seq<SpecNode>, child: SpecNode, lo: int, hi: int)
    requires
        0 <= lo <= hi <= blocks.len(),
        forall|k: int| lo <= k < hi ==> !adopts(#[trigger] blocks[k], child),
    ensures
        nearest_adopter(blocks, child, hi) == nearest_adopter(blocks, child, lo),
    decreases hi - lo,
{
    if lo < hi {
        lemma_skip_non_adopters(blocks, child, lo, hi - 1);
    }
}

/// The search looks at the blocks before the position only.
pub proof fn lemma_nearest_adopter_prefix(
    blocks: Seq<SpecNode>,
    longer: Seq<SpecNode>,
    child: SpecNode,
    below: int,
)
    requires
        below <= blocks.len() <= longer.len(),
        forall|k: int| 0 <= k < below ==> blocks[k] == longer[k],
    ensures
        nearest_adopter(longer, child, below) == nearest_adopter(blocks, child, below),
    decreases below,
{
    if below > 0 {
        lemma_nearest_adopter_prefix(blocks, longer, child, below - 1);
    }
}

/// Two headings of the same level that stand next to each other are
/// siblings: they have the same parent, and neither is the parent of the
/// other.
pub proof fn lemma_equal_levels_are_siblings(blocks: Seq<SpecNode>, i: int)
    requires
        0 <= i,
        i + 1 < blocks.len(),
        heading_level(blocks[i]) is Some,
        heading_level(blocks[i]) == heading_level(blocks[i + 1]),
    ensures
        parent_of(blocks, i + 1) == parent_of(blocks, i),
        parent_of(blocks, i + 1) != Some(i),
        parent_of(blocks, i) != Some(i + 1),
{
    lemma_nearest_adopter(blocks, blocks[i], i);
    lemma_nearest_adopter(blocks, blocks[i + 1], i);
    lemma_nearest_adopter(blocks, blocks[i + 1], i + 1);
}

/// A heading that follows a heading of a lower level hangs directly under
/// it, however many levels lie between the two.
pub proof fn lemma_level_jump_nests_directly(blocks: Seq<SpecNode>, i: int)
    requires
        0 <= i,
        i + 1 < blocks.len(),
        heading_level(blocks[i]) is Some,
        heading_level(blocks[i + 1]) is Some,
        heading_level(blocks[i])->0 < heading_level(blocks[i + 1])->0,
    ensures
        parent_of(blocks, i + 1) == Some(i),
{
}

/// The last heading before position `below`.
pub open spec fn last_heading(blocks: Seq<SpecNode>, below: int) -> Option<int> {
    nearest_adopter(blocks, SpecNode::Paragraph(Seq::empty()), below)
}

/// The headings from the outermost one down to heading `i`, each the parent
/// of the next.
pub open spec fn ancestry(blocks: Seq<SpecNode>, i: int) -> Seq<int>
    decreases i,
{
    if 0 <= i < blocks.len() {
        match parent_of(blocks, i) {
            Some(p) => {
                proof {
                    lemma_nearest_adopter(blocks, blocks[i], i);
                }
                ancestry(blocks, p).push(i)
            },
            None => seq![i],
        }
    } else {
        Seq::empty()
    }
}

/// The headings that are open behind the last block: the last heading and
/// the headings above it, the outermost first. A later block can hang under
/// one of these only.
pub open spec fn open_headings(blocks: Seq<SpecNode>) -> Seq<int> {
    match last_heading(blocks, blocks.len() as int) {
        Some(h) => ancestry(blocks, h),
        None => Seq::empty(),
    }
}

/// The positions from `lo` up to `hi` that `keep` holds of, in rising order.
pub open spec fn pick(lo: int, hi: int, keep: spec_fn(int) -> bool) -> Seq<int>
    decreases hi - lo,
{
    if hi <= lo {
        Seq::empty()
    } else if keep(lo) {
        seq![lo] + pick(lo + 1, hi, keep)
    } else {
        pick(lo + 1, hi, keep)
    }
}

/// The children of `parent` (`None` is the document root): the blocks whose
/// parent it is, in the order of the stream.
pub open spec fn children_of(blocks: Seq<SpecNode>, parent: Option<int>) -> Seq<int> {
    pick(0, blocks.len() as int, |j: int| parent_of(blocks, j) == parent)
}

/// `node` with `more` behind the children it has. Only a heading takes
/// children.
pub open spec fn with_children(node: SpecNode, more: Seq<SpecNode>) -> SpecNode {
    match node {
        SpecNode::Heading { level, content, subnodes } => SpecNode::Heading {
            level,
            content,
            subnodes: subnodes + more,
        },
        _ => node,
    }
}

/// Block `i` with everything that hangs under it.
pub open spec fn subtree(blocks: Seq<SpecNode>, i: int) -> SpecNode
    decreases blocks.len() - i, 1int,
{
    with_children(blocks[i], subtrees(blocks, children_of(blocks, Some(i)), i))
}

/// The subtrees of the given blocks, in the same order. The blocks stand
/// behind position `above`, as the children of block `above` do.
pub open spec fn subtrees(blocks: Seq<SpecNode>, roots: Seq<int>, above: int) -> Seq<SpecNode>
    decreases blocks.len() - above, 0int,
{
    Seq::new(
        roots.len(),
        |k: int|
            if above < roots[k] < blocks.len() {
                subtree(blocks, roots[k])
            } else {
                SpecNode::Document(Seq::empty())
            },
    )
}

/// The children of the document root, each with everything that hangs under
/// it: the tree that the flat run of blocks folds into.
pub open spec fn nest(blocks: Seq<SpecNode>) -> Seq<SpecNode> {
    subtrees(blocks, children_of(blocks, None), -1)
}

/// What `pick` returns lies in the range, meets `keep` and rises.
pub proof fn lemma_pick_members(lo: int, hi: int, keep: spec_fn(int) -> bool)
    ensures
        forall|k: int|
            0 <= k < pick(lo, hi, keep).len() ==> lo <= #[trigger] pick(lo, hi, keep)[k] < hi
                && keep(pick(lo, hi, keep)[k]),
        forall|a: int, b: int|
            0 <= a < b < pick(lo, hi, keep).len() ==> #[trigger] pick(lo, hi, keep)[a]
                < #[trigger] pick(lo, hi, keep)[b],
    decreases hi - lo,
{
    if lo < hi {
        lemma_pick_members(lo + 1, hi, keep);
        let all = pick(lo, hi, keep);
        let rest = pick(lo + 1, hi, keep);
        if keep(lo) {
            assert(all =~= seq![lo] + rest);
            assert forall|k: int| 0 <= k < all.len() implies lo <= #[trigger] all[k] < hi && keep(
                all[k],
            ) by {
                if k > 0 {
                    assert(all[k] == rest[k - 1]);
                }
            }
            assert forall|a: int, b: int| 0 <= a < b < all.len() implies #[trigger] all[a]
                < #[trigger] all[b] by {
                assert(all[b] == rest[b - 1]);
                if a > 0 {
                    assert(all[a] == rest[a - 1]);
                }
            }
        }
    }
}

/// Where `keep` holds of no position in the range, `pick` returns nothing.
pub proof fn lemma_pick_none(lo: int, hi: int, keep: spec_fn(int) -> bool)
    requires
        forall|j: int| lo <= j < hi ==> !#[trigger] keep(j),
    ensures
        pick(lo, hi, keep) == Seq::<int>::empty(),
    decreases hi - lo,
{
    if lo < hi {
        lemma_pick_none(lo + 1, hi, keep);
    }
}

/// Two tests that agree on the range pick the same positions.
pub proof fn lemma_pick_same(
    lo: int,
    hi: int,
    keep: spec_fn(int) -> bool,
    other: spec_fn(int) -> bool,
)
    requires
        forall|j: int| lo <= j < hi ==> #[trigger] keep(j) == #[trigger] other(j),
    ensures
        pick(lo, hi, keep) == pick(lo, hi, other),
    decreases hi - lo,
{
    if lo < hi {
        lemma_pick_same(lo + 1, hi, keep, other);
    }
}

/// A range can be cut in two.
pub proof fn lemma_pick_cut(lo: int, mid: int, hi: int, keep: spec_fn(int) -> bool)
    requires
        lo <= mid <= hi,
    ensures
        pick(lo, hi, keep) == pick(lo, mid, keep) + pick(mid, hi, keep),
    decreases mid - lo,
{
    if lo < mid {
        lemma_pick_cut(lo + 1, mid, hi, keep);
        assert(pick(lo, hi, keep) =~= pick(lo, mid, keep) + pick(mid, hi, keep));
    } else {
        assert(pick(lo, hi, keep) =~= pick(lo, mid, keep) + pick(mid, hi, keep));
    }
}

/// Where each position that `keep` holds of meets either `first` or
/// `second`, never both, and none that meets `first` stands behind one that
/// meets `second`, the positions of `first` come out before those of
/// `second`.
pub proof fn lemma_pick_split(
    lo: int,
    hi: int,
    keep: spec_fn(int) -> bool,
    first: spec_fn(int) -> bool,
    second: spec_fn(int) -> bool,
)
    requires
        forall|j: int|
            lo <= j < hi ==> (#[trigger] keep(j) <==> (first(j) || second(j))) && !(first(j)
                && second(j)),
        forall|a: int, b: int|
            lo <= a < b < hi && #[trigger] second(a) && #[trigger] first(b) ==> false,
    ensures
        pick(lo, hi, keep) == pick(lo, hi, first) + pick(lo, hi, second),
    decreases hi - lo,
{
    if lo < hi {
        lemma_pick_split(lo + 1, hi, keep, first, second);
        if second(lo) {
            assert forall|j: int| lo + 1 <= j < hi implies !#[trigger] first(j) by {
                if first(j) {
                    assert(second(lo) && first(j));
                }
            }
            lemma_pick_none(lo + 1, hi, first);
        }
        assert(pick(lo, hi, keep) =~= pick(lo, hi, first) + pick(lo, hi, second));
    } else {
        assert(pick(lo, hi, keep) =~= pick(lo, hi, first) + pick(lo, hi, second));
    }
}

/// Whether block `j` hangs under a block before position `k`, or under the
/// document root.
pub open spec fn hangs_before(blocks: Seq<SpecNode>, j: int, k: int) -> bool {
    match parent_of(blocks, j) {
        Some(p) => p < k,
        None => true,
    }
}

/// The blocks from position `k` on that hang under a block before `k` or
/// under the document root: the roots of what stands from `k` on.
pub open spec fn roots_from(blocks: Seq<SpecNode>, k: int) -> Seq<int> {
    pick(k, blocks.len() as int, |j: int| hangs_before(blocks, j, k))
}

/// The children of a block stand together: between a block and one of its
/// children, every block that hangs under it or before it hangs under it.
pub proof fn lemma_children_stand_together(blocks: Seq<SpecNode>, i: int, a: int, b: int)
    requires
        0 <= i < a < b < blocks.len(),
        parent_of(blocks, b) == Some(i),
        hangs_before(blocks, a, i + 1),
    ensures
        parent_of(blocks, a) == Some(i),
{
    lemma_nearest_adopter(blocks, blocks[b], b);
    lemma_nearest_adopter(blocks, blocks[a], a);
    assert(!adopts(blocks[a], blocks[b]));
    assert(adopts(blocks[i], blocks[a]));
}

/// The roots from position `i + 1` on are the children of block `i`
/// followed by the roots from `i` on without `i` itself.
pub proof fn lemma_roots_step(blocks: Seq<SpecNode>, i: int)
    requires
        0 <= i < blocks.len(),
    ensures
        roots_from(blocks, i + 1) == children_of(blocks, Some(i)) + roots_from(blocks, i).skip(1),
        roots_from(blocks, i).len() > 0,
        roots_from(blocks, i)[0] == i,
{
    let n = blocks.len() as int;
    let is_child = |j: int| parent_of(blocks, j) == Some(i);
    let above = |j: int| hangs_before(blocks, j, i + 1);
    let beyond = |j: int| hangs_before(blocks, j, i);
    assert forall|j: int| i + 1 <= j < n implies (#[trigger] above(j) <==> (is_child(j) || beyond(
        j,
    ))) && !(is_child(j) && beyond(j)) by {
        lemma_nearest_adopter(blocks, blocks[j], j);
    }
    assert forall|a: int, b: int|
        i + 1 <= a < b < n && #[trigger] beyond(a) && #[trigger] is_child(b) implies false by {
        lemma_children_stand_together(blocks, i, a, b);
    }
    lemma_pick_split(i + 1, n, above, is_child, beyond);
    assert forall|j: int| 0 <= j < i + 1 implies !#[trigger] is_child(j) by {
        lemma_nearest_adopter(blocks, blocks[j], j);
    }
    lemma_pick_none(0, i + 1, is_child);
    lemma_pick_cut(0, i + 1, n, is_child);
    assert(children_of(blocks, Some(i)) =~= pick(i + 1, n, is_child));
    assert(beyond(i)) by {
        lemma_nearest_adopter(blocks, blocks[i], i);
    }
    assert(roots_from(blocks, i) =~= seq![i] + pick(i + 1, n, beyond));
    assert(roots_from(blocks, i).skip(1) =~= pick(i + 1, n, beyond));
}

/// The roots of the whole run are the children of the document root.
pub proof fn lemma_roots_of_all(blocks: Seq<SpecNode>)
    ensures
        roots_from(blocks, 0) == children_of(blocks, None),
{
    let n = blocks.len() as int;
    let at_root = |j: int| hangs_before(blocks, j, 0);
    let orphan = |j: int| parent_of(blocks, j) == None::<int>;
    assert forall|j: int| 0 <= j < n implies #[trigger] at_root(j) == #[trigger] orphan(j) by {
        lemma_nearest_adopter(blocks, blocks[j], j);
    }
    lemma_pick_same(0, n, at_root, orphan);
}

/// Two children that the same blocks take have the same nearest adopter.
pub proof fn lemma_same_adopters(
    blocks: Seq<SpecNode>,
    child: SpecNode,
    other: SpecNode,
    below: int,
)
    requires
        below <= blocks.len(),
        forall|k: int|
            0 <= k < below ==> adopts(#[trigger] blocks[k], child) == adopts(blocks[k], other),
    ensures
        nearest_adopter(blocks, child, below) == nearest_adopter(blocks, other, below),
    decreases below,
{
    if below > 0 {
        lemma_same_adopters(blocks, child, other, below - 1);
    }
}

/// The ancestry of a heading ends in the heading itself, holds headings
/// only, starts at a child of the document root, links each heading to its
/// parent, and each of its prefixes is the ancestry of the prefix's last
/// heading.
pub proof fn lemma_ancestry(blocks: Seq<SpecNode>, i: int)
    requires
        0 <= i < blocks.len(),
        heading_level(blocks[i]) is Some,
    ensures
        ancestry(blocks, i).len() >= 1,
        ancestry(blocks, i).last() == i,
        forall|k: int|
            0 <= k < ancestry(blocks, i).len() ==> 0 <= #[trigger] ancestry(blocks, i)[k] <= i
                && heading_level(blocks[ancestry(blocks, i)[k]]) is Some,
        parent_of(blocks, ancestry(blocks, i)[0]) == None::<int>,
        forall|k: int|
            1 <= k < ancestry(blocks, i).len() ==> parent_of(
                blocks,
                #[trigger] ancestry(blocks, i)[k],
            ) == Some(ancestry(blocks, i)[k - 1]),
        forall|k: int|
            0 <= k < ancestry(blocks, i).len() ==> ancestry(
                blocks,
                #[trigger] ancestry(blocks, i)[k],
            ) == ancestry(blocks, i).take(k + 1),
    decreases i,
{
    let here = ancestry(blocks, i);
    lemma_nearest_adopter(blocks, blocks[i], i);
    match parent_of(blocks, i) {
        Some(p) => {
            lemma_ancestry(blocks, p);
            let above = ancestry(blocks, p);
            assert(here == above.push(i));
            assert forall|k: int| 0 <= k < here.len() implies ancestry(blocks, #[trigger] here[k])
                == here.take(k + 1) by {
                if k < above.len() {
                    assert(here[k] == above[k]);
                    assert(above.take(k + 1) =~= here.take(k + 1));
                } else {
                    assert(here.take(k + 1) =~= here);
                }
            }
            assert forall|k: int| 1 <= k < here.len() implies parent_of(blocks, #[trigger] here[k])
                == Some(here[k - 1]) by {
                if k < above.len() {
                    assert(here[k] == above[k]);
                }
            }
        },
        None => {
            assert(here =~= seq![i]);
            assert(here.take(1) =~= here);
        },
    }
}

/// The ancestry of a heading looks at the blocks up to the heading only.
pub proof fn lemma_ancestry_prefix(blocks: Seq<SpecNode>, longer: Seq<SpecNode>, i: int)
    requires
        0 <= i < blocks.len() <= longer.len(),
        forall|k: int| 0 <= k <= i ==> blocks[k] == longer[k],
    ensures
        ancestry(longer, i) == ancestry(blocks, i),
    decreases i,
{
    lemma_nearest_adopter_prefix(blocks, longer, blocks[i], i);
    lemma_nearest_adopter(blocks, blocks[i], i);
    match parent_of(blocks, i) {
        Some(p) => {
            lemma_ancestry_prefix(blocks, longer, p);
        },
        None => {},
    }
}

/// A well-formed block with all that hangs under it is well formed, where
/// all the blocks are.
pub proof fn lemma_subtree_well_formed(blocks: Seq<SpecNode>, i: int)
    requires
        0 <= i < blocks.len(),
        well_formed_blocks(blocks),
    ensures
        well_formed_block(subtree(blocks, i)),
    decreases blocks.len() - i,
{
    let children = children_of(blocks, Some(i));
    let below = subtrees(blocks, children, i);
    lemma_pick_members(0, blocks.len() as int, |j: int| parent_of(blocks, j) == Some(i));
    assert forall|k: int| 0 <= k < below.len() implies well_formed_block(#[trigger] below[k]) by {
        lemma_nearest_adopter(blocks, blocks[children[k]], children[k]);
        lemma_subtree_well_formed(blocks, children[k]);
    }
    assert(well_formed_block(blocks[i]));
    match blocks[i] {
        SpecNode::Heading { level, content, subnodes } => {
            let all = subnodes + below;
            assert forall|k: int| 0 <= k < all.len() implies well_formed_block(
                #[trigger] all[k],
            ) by {
                if k < subnodes.len() {
                    assert(all[k] == subnodes[k]);
                } else {
                    assert(all[k] == below[k - subnodes.len()]);
                }
            }
        },
        _ => {},
    }
}

/// Well-formed blocks fold into well-formed trees.
pub proof fn lemma_nest_well_formed(blocks: Seq<SpecNode>)
    requires
        well_formed_blocks(blocks),
    ensures
        well_formed_blocks(nest(blocks)),
{
    let roots = children_of(blocks, None);
    lemma_pick_members(0, blocks.len() as int, |j: int| parent_of(blocks, j) == None::<int>);
    assert forall|k: int| 0 <= k < nest(blocks).len() implies well_formed_block(
        #[trigger] nest(blocks)[k],
    ) by {
        lemma_subtree_well_formed(blocks, roots[k]);
    }
}

/// A position in the range that `keep` holds of is among what `pick`
/// returns.
pub proof fn lemma_pick_contains(lo: int, hi: int, keep: spec_fn(int) -> bool, j: int)
    requires
        lo <= j < hi,
        keep(j),
    ensures
        pick(lo, hi, keep).contains(j),
    decreases hi - lo,
{
    if lo == j {
        assert(pick(lo, hi, keep)[0] == j);
    } else {
        lemma_pick_contains(lo + 1, hi, keep, j);
        let rest = pick(lo + 1, hi, keep);
        let at = choose|at: int| 0 <= at < rest.len() && rest[at] == j;
        if keep(lo) {
            assert(pick(lo, hi, keep)[at + 1] == j);
        } else {
            assert(pick(lo, hi, keep)[at] == j);
        }
    }
}

/// The children of a node stand in the order of the stream, and each block
/// is a child of its parent and of no other node.
pub proof fn lemma_children_in_stream_order(blocks: Seq<SpecNode>, parent: Option<int>)
    ensures
        forall|a: int, b: int|
            0 <= a < b < children_of(blocks, parent).len() ==> #[trigger] children_of(
                blocks,
                parent,
            )[a] < #[trigger] children_of(blocks, parent)[b],
        forall|k: int|
            0 <= k < children_of(blocks, parent).len() ==> 0 <= #[trigger] children_of(
                blocks,
                parent,
            )[k] < blocks.len() && parent_of(blocks, children_of(blocks, parent)[k]) == parent,
        forall|j: int|
            0 <= j < blocks.len() && parent_of(blocks, j) == parent ==> #[trigger] children_of(
                blocks,
                parent,
            ).contains(j),
{
    let is_child = |j: int| parent_of(blocks, j) == parent;
    lemma_pick_members(0, blocks.len() as int, is_child);
    assert forall|j: int|
        0 <= j < blocks.len() && parent_of(blocks, j) == parent implies #[trigger] children_of(
        blocks,
        parent,
    ).contains(j) by {
        lemma_pick_contains(0, blocks.len() as int, is_child, j);
    }
}

/// Whether block `j` hangs under block `i`, directly or under a block that
/// hangs under `i`.
pub open spec fn hangs_under(blocks: Seq<SpecNode>, j: int, i: int) -> bool
    decreases j,
{
    if 0 <= j < blocks.len() {
        match parent_of(blocks, j) {
            Some(p) => {
                proof {
                    lemma_nearest_adopter(blocks, blocks[j], j);
                }
                p == i || hangs_under(blocks, p, i)
            },
            None => false,
        }
    } else {
        false
    }
}

/// The first position from `from` on whose block `blocks[i]` does not take;
/// the length of the run if it takes them all.
pub open spec fn first_not_taken(blocks: Seq<SpecNode>, i: int, from: int) -> int
    decreases blocks.len() - from,
{
    if 0 <= from < blocks.len() && adopts(blocks[i], blocks[from]) {
        first_not_taken(blocks, i, from + 1)
    } else {
        from
    }
}

/// Where the blocks under block `i` end: at the first heading behind it whose
/// level is not higher than its own, or at the end of the run. Under a
/// block that is no heading there is nothing.
pub open spec fn subtree_end(blocks: Seq<SpecNode>, i: int) -> int {
    first_not_taken(blocks, i, i + 1)
}

/// The blocks from `from` up to the first that is not taken are taken.
pub proof fn lemma_first_not_taken(blocks: Seq<SpecNode>, i: int, from: int)
    requires
        0 <= from <= blocks.len(),
    ensures
        from <= first_not_taken(blocks, i, from) <= blocks.len(),
        forall|k: int|
            from <= k < first_not_taken(blocks, i, from) ==> adopts(
                blocks[i],
                #[trigger] blocks[k],
            ),
        first_not_taken(blocks, i, from) < blocks.len() ==> !adopts(
            blocks[i],
            blocks[first_not_taken(blocks, i, from)],
        ),
    decreases blocks.len() - from,
{
    if from < blocks.len() && adopts(blocks[i], blocks[from]) {
        lemma_first_not_taken(blocks, i, from + 1);
    }
}

/// What hangs under a heading is everything that stands behind it up to the
/// next heading whose level is not higher than its own, or up to the end of
/// the run.
pub proof fn lemma_subtree_is_a_range(blocks: Seq<SpecNode>, i: int, j: int)
    requires
        0 <= i < blocks.len(),
        0 <= j < blocks.len(),
    ensures
        hangs_under(blocks, j, i) <==> i < j < subtree_end(blocks, i),
    decreases j,
{
    lemma_first_not_taken(blocks, i, i + 1);
    lemma_nearest_adopter(blocks, blocks[j], j);
    let end = subtree_end(blocks, i);
    match parent_of(blocks, j) {
        Some(p) => {
            lemma_subtree_is_a_range(blocks, i, p);
            if i < j < end {
                assert(adopts(blocks[i], blocks[j]));
                if p < i {
                    assert(!adopts(blocks[i], blocks[j]));
                }
                assert(hangs_under(blocks, j, i));
            }
            if hangs_under(blocks, j, i) {
                if p == i {
                    assert forall|k: int| i < k <= j implies adopts(
                        blocks[i],
                        #[trigger] blocks[k],
                    ) by {
                        if k < j {
                            assert(!adopts(blocks[k], blocks[j]));
                        }
                    }
                } else {
                    assert(i < p < end);
                    assert(adopts(blocks[i], blocks[p]));
                    assert forall|k: int| i < k <= j implies adopts(
                        blocks[i],
                        #[trigger] blocks[k],
                    ) by {
                        if p < k < j {
                            assert(!adopts(blocks[k], blocks[j]));
                        }
                    }
                }
                if end <= j {
                    assert(!adopts(blocks[i], blocks[end]));
                }
            }
        },
        None => {
            if i < j < end {
                assert(adopts(blocks[i], blocks[j]));
                assert(!adopts(blocks[i], blocks[j]));
            }
        },
    }
}

/// The open headings deepen: each has a strictly higher level than the one
/// before it on the stack.
pub proof fn lemma_open_headings_deepen(blocks: Seq<SpecNode>, k: int)
    requires
        1 <= k < open_headings(blocks).len(),
    ensures
        heading_level(blocks[open_headings(blocks)[k - 1]]) is Some,
        heading_level(blocks[open_headings(blocks)[k]]) is Some,
        heading_level(blocks[open_headings(blocks)[k - 1]])->0 < heading_level(
            blocks[open_headings(blocks)[k]],
        )->0,
{
    lemma_nearest_adopter(blocks, SpecNode::Paragraph(Seq::empty()), blocks.len() as int);
    let last = last_heading(blocks, blocks.len() as int)->0;
    lemma_ancestry(blocks, last);
    let stack = open_headings(blocks);
    lemma_nearest_adopter(blocks, blocks[stack[k]], stack[k]);
}

/// Whether a block brings no children of its own: a heading has none yet.
pub open spec fn childless(node: SpecNode) -> bool {
    match node {
        SpecNode::Heading { subnodes, .. } => subnodes.len() == 0,
        _ => true,
    }
}

/// A heading without its children; any other node as it is.
pub open spec fn without_children(node: SpecNode) -> SpecNode {
    match node {
        SpecNode::Heading { level, content, subnodes } => SpecNode::Heading {
            level,
            content,
            subnodes: Seq::empty(),
        },
        _ => node,
    }
}

/// The blocks of a tree in the order of a walk that goes depth first: a
/// heading, without its children, stands before the blocks under it.
pub open spec fn block_walk(node: SpecNode) -> Seq<SpecNode>
    decreases node, 0nat,
{
    match node {
        SpecNode::Heading { subnodes, .. } => seq![without_children(node)] + block_walk_run(
            subnodes,
            subnodes.len(),
        ),
        _ => seq![node],
    }
}

/// The blocks of the first `count` of the given trees in the order of the
/// walk, tree by tree.
pub open spec fn block_walk_run(nodes: Seq<SpecNode>, count: nat) -> Seq<SpecNode>
    decreases nodes, count,
{
    if count == 0 || count > nodes.len() {
        Seq::empty()
    } else {
        block_walk_run(nodes, (count - 1) as nat) + block_walk(nodes[count - 1])
    }
}

/// The walk over two runs of trees, one behind the other, is the walk over
/// the first followed by the walk over the second.
pub proof fn lemma_walk_of_joined_runs(first: Seq<SpecNode>, second: Seq<SpecNode>, count: nat)
    requires
        count <= second.len(),
    ensures
        block_walk_run(first + second, first.len() + count) == block_walk_run(
            first,
            first.len(),
        ) + block_walk_run(second, count),
    decreases count,
{
    let joined = first + second;
    if count == 0 {
        lemma_walk_of_prefix(first, joined, first.len());
        assert(block_walk_run(first, first.len()) + Seq::<SpecNode>::empty() =~= block_walk_run(
            first,
            first.len(),
        ));
    } else {
        lemma_walk_of_joined_runs(first, second, (count - 1) as nat);
        assert(joined[first.len() + count - 1] == second[count - 1]);
        assert(block_walk_run(joined, first.len() + count) =~= block_walk_run(first, first.len())
            + block_walk_run(second, count));
    }
}

/// The walk over the first trees of a run looks at those trees only.
pub proof fn lemma_walk_of_prefix(nodes: Seq<SpecNode>, longer: Seq<SpecNode>, count: nat)
    requires
        count <= nodes.len() <= longer.len(),
        forall|k: int| 0 <= k < count ==> nodes[k] == longer[k],
    ensures
        block_walk_run(longer, count) == block_walk_run(nodes, count),
    decreases count,
{
    if count > 0 {
        lemma_walk_of_prefix(nodes, longer, (count - 1) as nat);
    }
}

/// The walk over what stands from position `k` on, tree by tree, meets the
/// blocks from `k` on in the order of the run.
pub proof fn lemma_walk_of_roots(blocks: Seq<SpecNode>, k: int)
    requires
        0 <= k <= blocks.len(),
        forall|i: int| 0 <= i < blocks.len() ==> childless(#[trigger] blocks[i]),
    ensures
        block_walk_run(
            subtrees(blocks, roots_from(blocks, k), k - 1),
            roots_from(blocks, k).len(),
        ) == blocks.subrange(k, blocks.len() as int),
    decreases blocks.len() - k,
{
    let n = blocks.len() as int;
    let roots = roots_from(blocks, k);
    lemma_pick_members(k, n, |j: int| hangs_before(blocks, j, k));
    if k == n {
        assert(blocks.subrange(k, n) =~= Seq::<SpecNode>::empty());
    } else {
        lemma_roots_step(blocks, k);
        lemma_walk_of_roots(blocks, k + 1);
        let children = children_of(blocks, Some(k));
        let rest = roots.skip(1);
        let later = roots_from(blocks, k + 1);
        lemma_pick_members(0, n, |j: int| parent_of(blocks, j) == Some(k));
        lemma_pick_members(k + 1, n, |j: int| hangs_before(blocks, j, k + 1));
        assert forall|x: int| 0 <= x < children.len() implies k < #[trigger] children[x] by {
            lemma_nearest_adopter(blocks, blocks[children[x]], children[x]);
        }
        let below = subtrees(blocks, children, k);
        let beside = subtrees(blocks, rest, k - 1);
        let all = subtrees(blocks, roots, k - 1);
        assert(subtrees(blocks, later, k) =~= below + beside) by {
            assert forall|x: int| 0 <= x < later.len() implies subtrees(blocks, later, k)[x] == (
            below + beside)[x] by {
                if x >= children.len() {
                    assert(later[x] == rest[x - children.len()]);
                    assert(rest[x - children.len()] == roots[x - children.len() + 1]);
                }
            }
        }
        lemma_walk_of_joined_runs(below, beside, beside.len());
        assert(below + beside =~= subtrees(blocks, later, k));
        let first = seq![subtree(blocks, k)];
        assert(all =~= first + beside) by {
            assert forall|x: int| 0 <= x < all.len() implies all[x] == (first + beside)[x] by {
                if x > 0 {
                    assert(roots[x] == rest[x - 1]);
                }
            }
        }
        lemma_walk_of_joined_runs(first, beside, beside.len());
        assert(block_walk_run(first, 1) =~= block_walk(subtree(blocks, k))) by {
            assert(block_walk_run(first, 0) =~= Seq::<SpecNode>::empty());
        }
        assert(childless(blocks[k]));
        assert(block_walk(subtree(blocks, k)) =~= seq![blocks[k]] + block_walk_run(
            below,
            below.len(),
        )) by {
            match blocks[k] {
                SpecNode::Heading { level, content, subnodes } => {
                    assert(subnodes =~= Seq::<SpecNode>::empty());
                    assert(subnodes + below =~= below);
                    assert(without_children(subtree(blocks, k)) == blocks[k]);
                },
                _ => {
                    assert(children =~= Seq::<int>::empty()) by {
                        if children.len() > 0 {
                            lemma_nearest_adopter(blocks, blocks[children[0]], children[0]);
                        }
                    }
                    assert(block_walk_run(below, below.len()) =~= Seq::<SpecNode>::empty());
                },
            }
        }
        assert(blocks.subrange(k, n) =~= seq![blocks[k]] + blocks.subrange(k + 1, n));
    }
}

/// The builder loses no block and changes no order: a walk over the built
/// trees that goes depth first meets the blocks in the order in which they
/// stood in the run.
pub proof fn lemma_walk_gives_the_blocks_back(blocks: Seq<SpecNode>)
    requires
        forall|i: int| 0 <= i < blocks.len() ==> childless(#[trigger] blocks[i]),
    ensures
        block_walk_run(nest(blocks), nest(blocks).len()) == blocks,
{
    lemma_roots_of_all(blocks);
    lemma_walk_of_roots(blocks, 0);
    assert(blocks.subrange(0, blocks.len() as int) =~= blocks);
}

} // verus!
