use vstd::prelude::*;
use crate::arena::Node;

verus! {

/// The shape of the tree: a binary tree over slot numbers.
pub enum Shape {
    Leaf,
    Branch { id: usize, left: Box<Shape>, right: Box<Shape> },
}

impl Shape {
    /// The slot is a node of the tree.
    pub open spec fn contains(self, i: usize) -> bool
        decreases self,
    {
        match self {
            Shape::Leaf => false,
            Shape::Branch { id, left, right } => id == i || left.contains(i) || right.contains(i),
        }
    }

    /// The slot at the root, if any.
    pub open spec fn root(self) -> Option<usize> {
        match self {
            Shape::Leaf => None,
            Shape::Branch { id, .. } => Some(id),
        }
    }

    /// The left subtree of a branch.
    pub open spec fn left_of(self) -> Shape {
        match self {
            Shape::Leaf => Shape::Leaf,
            Shape::Branch { left, .. } => *left,
        }
    }

    /// The right subtree of a branch.
    pub open spec fn right_of(self) -> Shape {
        match self {
            Shape::Leaf => Shape::Leaf,
            Shape::Branch { right, .. } => *right,
        }
    }

    /// The number of nodes.
    pub open spec fn size(self) -> nat
        decreases self,
    {
        match self {
            Shape::Leaf => 0,
            Shape::Branch { left, right, .. } => left.size() + 1 + right.size(),
        }
    }

    /// Every slot of a left subtree is below its root's slot, every slot of a right subtree above.
    pub open spec fn ordered(self) -> bool
        decreases self,
    {
        match self {
            Shape::Leaf => true,
            Shape::Branch { id, left, right } => {
                &&& forall|j: usize| left.contains(j) ==> j < id
                &&& forall|j: usize| right.contains(j) ==> j > id
                &&& left.ordered()
                &&& right.ordered()
            },
        }
    }

    /// The subtree rooted at slot `k`, found by comparing slots on the way down.
    pub open spec fn subtree(self, k: usize) -> Shape
        decreases self,
    {
        match self {
            Shape::Leaf => Shape::Leaf,
            Shape::Branch { id, left, right } => if k == id {
                self
            } else if k < id {
                left.subtree(k)
            } else {
                right.subtree(k)
            },
        }
    }

    /// The parent of slot `k`, where `top` is the parent of the root.
    pub open spec fn parent_of(self, k: usize, top: Option<usize>) -> Option<usize>
        decreases self,
    {
        match self {
            Shape::Leaf => None,
            Shape::Branch { id, left, right } => if k == id {
                top
            } else if k < id {
                left.parent_of(k, Some(id))
            } else {
                right.parent_of(k, Some(id))
            },
        }
    }

    /// The number of edges from the root to slot `k`.
    pub open spec fn depth(self, k: usize) -> nat
        decreases self,
    {
        match self {
            Shape::Leaf => 0,
            Shape::Branch { id, left, right } => if k == id {
                0
            } else if k < id {
                1 + left.depth(k)
            } else {
                1 + right.depth(k)
            },
        }
    }

    /// The tree with the subtree at slot `k` replaced by `n`.
    pub open spec fn replace(self, k: usize, n: Shape) -> Shape
        decreases self,
    {
        match self {
            Shape::Leaf => Shape::Leaf,
            Shape::Branch { id, left, right } => if k == id {
                n
            } else if k < id {
                Shape::Branch { id, left: Box::new(left.replace(k, n)), right }
            } else {
                Shape::Branch { id, left, right: Box::new(right.replace(k, n)) }
            },
        }
    }

    /// Every slot of `n` lies on the same side as `k` of every proper ancestor of `k`.
    pub open spec fn within(self, k: usize, n: Shape) -> bool
        decreases self,
    {
        match self {
            Shape::Leaf => true,
            Shape::Branch { id, left, right } => if k == id {
                true
            } else if k < id {
                (forall|j: usize| n.contains(j) ==> j < id) && left.within(k, n)
            } else {
                (forall|j: usize| n.contains(j) ==> j > id) && right.within(k, n)
            },
        }
    }

    /// The tree with slot `k` hung in as a new leaf where the slot comparisons lead.
    pub open spec fn insert_leaf(self, k: usize) -> Shape
        decreases self,
    {
        match self {
            Shape::Leaf => Shape::Branch { id: k, left: Box::new(Shape::Leaf), right: Box::new(Shape::Leaf) },
            Shape::Branch { id, left, right } => if k < id {
                Shape::Branch { id, left: Box::new(left.insert_leaf(k)), right }
            } else {
                Shape::Branch { id, left, right: Box::new(right.insert_leaf(k)) }
            },
        }
    }
}

/// A left rotation of a branch whose right child is a branch.
pub open spec fn rotated_left(t: Shape) -> Shape {
    match t {
        Shape::Branch { id: x, left: a, right: rt } => match *rt {
            Shape::Branch { id: r, left: b, right: c } => Shape::Branch {
                id: r,
                left: Box::new(Shape::Branch { id: x, left: a, right: b }),
                right: c,
            },
            Shape::Leaf => t,
        },
        Shape::Leaf => t,
    }
}

/// A right rotation of a branch whose left child is a branch.
pub open spec fn rotated_right(t: Shape) -> Shape {
    match t {
        Shape::Branch { id: x, left: lt, right: c } => match *lt {
            Shape::Branch { id: l, left: a, right: b } => Shape::Branch {
                id: l,
                left: a,
                right: Box::new(Shape::Branch { id: x, left: b, right: c }),
            },
            Shape::Leaf => t,
        },
        Shape::Leaf => t,
    }
}

/// The node in an occupied slot.
pub open spec fn node_of(nodes: Seq<Option<Node>>, i: usize) -> Node {
    nodes[i as int].unwrap()
}

/// The bytes covered by the pieces of a subtree.
pub open spec fn char_sum(nodes: Seq<Option<Node>>, t: Shape) -> nat
    decreases t,
{
    match t {
        Shape::Leaf => 0,
        Shape::Branch { id, left, right } => char_sum(nodes, *left) + node_of(nodes, id).piece.length as nat
            + char_sum(nodes, *right),
    }
}

/// The line feeds in the pieces of a subtree.
pub open spec fn line_sum(nodes: Seq<Option<Node>>, t: Shape) -> nat
    decreases t,
{
    match t {
        Shape::Leaf => 0,
        Shape::Branch { id, left, right } => line_sum(nodes, *left) + node_of(nodes, id).piece.line_feed_count as nat
            + line_sum(nodes, *right),
    }
}

/// With `stale == Some(s)`, the recorded left totals of a node whose left subtree holds `s`
/// may be out of date.
pub open spec fn stale_at(left: Shape, stale: Option<usize>) -> bool {
    stale matches Some(s) && left.contains(s)
}

/// The slots of `t` hold nodes whose child and parent links form `t` (with `parent` above the
/// root), and whose recorded left totals are right, except where `stale` allows otherwise.
pub open spec fn links(nodes: Seq<Option<Node>>, t: Shape, parent: Option<usize>, stale: Option<usize>) -> bool
    decreases t,
{
    match t {
        Shape::Leaf => true,
        Shape::Branch { id, left, right } => {
            &&& (id as int) < nodes.len()
            &&& nodes[id as int] is Some
            &&& node_of(nodes, id).parent == parent
            &&& node_of(nodes, id).left == left.root()
            &&& node_of(nodes, id).right == right.root()
            &&& (stale_at(*left, stale) || (node_of(nodes, id).left_char_count == char_sum(nodes, *left)
                && node_of(nodes, id).left_line_count == line_sum(nodes, *left)))
            &&& links(nodes, *left, Some(id), stale)
            &&& links(nodes, *right, Some(id), stale)
        },
    }
}

/// Two nodes agree on everything the tree structure and its totals depend on.
pub open spec fn same_links(a: Node, b: Node) -> bool {
    &&& a.piece.length == b.piece.length
    &&& a.piece.line_feed_count == b.piece.line_feed_count
    &&& a.left_char_count == b.left_char_count
    &&& a.left_line_count == b.left_line_count
    &&& a.left == b.left
    &&& a.right == b.right
    &&& a.parent == b.parent
}

/// Slot `i` is occupied in `nodes`, and `nodes2` holds there a node with the same links.
pub open spec fn agree_at(nodes: Seq<Option<Node>>, nodes2: Seq<Option<Node>>, i: usize) -> bool {
    &&& (i as int) < nodes.len()
    &&& (i as int) < nodes2.len()
    &&& nodes[i as int] is Some
    &&& nodes2[i as int] is Some
    &&& same_links(node_of(nodes, i), node_of(nodes2, i))
}

/// `nodes2` agrees with `nodes` on every slot of `t`.
pub open spec fn agree_on(nodes: Seq<Option<Node>>, nodes2: Seq<Option<Node>>, t: Shape) -> bool {
    forall|i: usize| #[trigger] t.contains(i) ==> agree_at(nodes, nodes2, i)
}

pub proof fn lemma_links_occupied(nodes: Seq<Option<Node>>, t: Shape, parent: Option<usize>, stale: Option<usize>)
    requires
        links(nodes, t, parent, stale),
    ensures
        forall|i: usize| #[trigger] t.contains(i) ==> (i as int) < nodes.len() && nodes[i as int] is Some,
    decreases t,
{
    if let Shape::Branch { id, left, right } = t {
        lemma_links_occupied(nodes, *left, Some(id), stale);
        lemma_links_occupied(nodes, *right, Some(id), stale);
        assert forall|i: usize| #[trigger] t.contains(i) implies (i as int) < nodes.len() && nodes[i as int] is Some by {
            if left.contains(i) {
            } else if right.contains(i) {
            }
        }
    }
}

/// Links with exact totals also hold with any allowance for stale totals.
pub proof fn lemma_links_weaken(nodes: Seq<Option<Node>>, t: Shape, parent: Option<usize>, stale: Option<usize>)
    requires
        links(nodes, t, parent, None),
    ensures
        links(nodes, t, parent, stale),
    decreases t,
{
    if let Shape::Branch { id, left, right } = t {
        lemma_links_weaken(nodes, *left, Some(id), stale);
        lemma_links_weaken(nodes, *right, Some(id), stale);
    }
}

/// Links and totals carry over to slots that agree.
pub proof fn lemma_frame(nodes: Seq<Option<Node>>, nodes2: Seq<Option<Node>>, t: Shape, parent: Option<usize>, stale: Option<usize>)
    requires
        links(nodes, t, parent, stale),
        agree_on(nodes, nodes2, t),
    ensures
        links(nodes2, t, parent, stale),
        char_sum(nodes2, t) == char_sum(nodes, t),
        line_sum(nodes2, t) == line_sum(nodes, t),
    decreases t,
{
    if let Shape::Branch { id, left, right } = t {
        assert(t.contains(id));
        assert(agree_at(nodes, nodes2, id));
        assert(agree_on(nodes, nodes2, *left)) by {
            assert forall|i: usize| #[trigger] left.contains(i) implies agree_at(nodes, nodes2, i) by {
                assert(t.contains(i));
            }
        }
        assert(agree_on(nodes, nodes2, *right)) by {
            assert forall|i: usize| #[trigger] right.contains(i) implies agree_at(nodes, nodes2, i) by {
                assert(t.contains(i));
            }
        }
        lemma_frame(nodes, nodes2, *left, Some(id), stale);
        lemma_frame(nodes, nodes2, *right, Some(id), stale);
    }
}

/// A subtree whose root node changed only its parent link keeps its links under the new parent.
pub proof fn lemma_reparent(
    nodes: Seq<Option<Node>>,
    nodes2: Seq<Option<Node>>,
    t: Shape,
    parent: Option<usize>,
    parent2: Option<usize>,
    stale: Option<usize>,
)
    requires
        t.ordered(),
        links(nodes, t, parent, stale),
        t matches Shape::Branch { id, .. } && {
            &&& (id as int) < nodes2.len()
            &&& nodes2[id as int] is Some
            &&& node_of(nodes2, id).parent == parent2
            &&& same_links(node_of(nodes, id), Node { parent: parent, ..node_of(nodes2, id) })
            &&& forall|i: usize| #[trigger] t.contains(i) && i != id ==> agree_at(nodes, nodes2, i)
        },
    ensures
        links(nodes2, t, parent2, stale),
        char_sum(nodes2, t) == char_sum(nodes, t),
        line_sum(nodes2, t) == line_sum(nodes, t),
{
    if let Shape::Branch { id, left, right } = t {
        assert(agree_on(nodes, nodes2, *left)) by {
            assert forall|i: usize| #[trigger] left.contains(i) implies agree_at(nodes, nodes2, i) by {
                assert(t.contains(i));
            }
        }
        assert(agree_on(nodes, nodes2, *right)) by {
            assert forall|i: usize| #[trigger] right.contains(i) implies agree_at(nodes, nodes2, i) by {
                assert(t.contains(i));
            }
        }
        lemma_frame(nodes, nodes2, *left, Some(id), stale);
        lemma_frame(nodes, nodes2, *right, Some(id), stale);
    }
}

} // verus!

verus! {

/// Every slot of a linked tree is occupied.
pub proof fn lemma_links_occupied_all(nodes: Seq<Option<Node>>, t: Shape)
    requires
        links(nodes, t, None, None),
    ensures
        forall|i: usize| #[trigger] t.contains(i) ==> (i as int) < nodes.len() && nodes[i as int] is Some,
{
    lemma_links_occupied(nodes, t, None, None);
}

} // verus!
