use vstd::prelude::*;
use crate::arena::Node;
use crate::shape::{char_sum, line_sum, links, node_of, Shape};

verus! {

/// Slot `i` after a new slot is opened at `pos`: slots from `pos` on move up by one.
pub open spec fn bump(i: usize, pos: usize) -> usize {
    if i >= pos { (i + 1) as usize } else { i }
}

/// The slot that moved to `j` when a new slot was opened at `pos`.
pub open spec fn unbump(j: usize, pos: usize) -> usize {
    if j > pos { (j - 1) as usize } else { j }
}

/// A slot link after a new slot is opened at `pos`.
pub open spec fn bump_opt(o: Option<usize>, pos: usize) -> Option<usize> {
    match o {
        Some(i) => Some(bump(i, pos)),
        None => None,
    }
}

/// A node whose links follow the slots that moved.
pub open spec fn shift_node(n: Node, pos: usize) -> Node {
    Node { left: bump_opt(n.left, pos), right: bump_opt(n.right, pos), parent: bump_opt(n.parent, pos), ..n }
}

/// A slot whose node's links follow the slots that moved.
pub open spec fn shift_slot(o: Option<Node>, pos: usize) -> Option<Node> {
    match o {
        Some(n) => Some(shift_node(n, pos)),
        None => None,
    }
}

/// The slots after a new slot holding `x` is opened at `pos`.
pub open spec fn shifted_nodes(nodes: Seq<Option<Node>>, pos: usize, x: Option<Node>) -> Seq<Option<Node>> {
    Seq::new(
        (nodes.len() + 1) as nat,
        |j: int| if j < pos { shift_slot(nodes[j], pos) } else if j == pos { x } else { shift_slot(nodes[j - 1], pos) },
    )
}

/// A tree shape whose slots follow the slots that moved.
pub open spec fn shifted(t: Shape, pos: usize) -> Shape
    decreases t,
{
    match t {
        Shape::Leaf => Shape::Leaf,
        Shape::Branch { id, left, right } => Shape::Branch {
            id: bump(id, pos),
            left: Box::new(shifted(*left, pos)),
            right: Box::new(shifted(*right, pos)),
        },
    }
}

/// The slots of a shifted shape are the moved slots of the shape; the new slot is not one.
pub proof fn lemma_shifted_contains(t: Shape, pos: usize)
    requires
        forall|i: usize| #[trigger] t.contains(i) ==> i < usize::MAX,
    ensures
        forall|j: usize| #[trigger] shifted(t, pos).contains(j) <==> (j != pos && t.contains(unbump(j, pos))),
        forall|i: usize| #[trigger] t.contains(i) ==> shifted(t, pos).contains(bump(i, pos)),
        shifted(t, pos).root() == bump_opt(t.root(), pos),
    decreases t,
{
    if let Shape::Branch { id, left, right } = t {
        assert(t.contains(id));
        assert forall|i: usize| #[trigger] left.contains(i) implies i < usize::MAX by {
            assert(t.contains(i));
        }
        assert forall|i: usize| #[trigger] right.contains(i) implies i < usize::MAX by {
            assert(t.contains(i));
        }
        lemma_shifted_contains(*left, pos);
        lemma_shifted_contains(*right, pos);
        let s = shifted(t, pos);
        assert forall|j: usize| #[trigger] s.contains(j) <==> (j != pos && t.contains(unbump(j, pos))) by {
            if s.contains(j) {
                if j == bump(id, pos) {
                    assert(unbump(j, pos) == id);
                } else if shifted(*left, pos).contains(j) {
                    assert(left.contains(unbump(j, pos)));
                } else {
                    assert(shifted(*right, pos).contains(j));
                    assert(right.contains(unbump(j, pos)));
                }
            }
            if j != pos && t.contains(unbump(j, pos)) {
                let u = unbump(j, pos);
                assert(bump(u, pos) == j);
                if u == id {
                } else if left.contains(u) {
                    assert(shifted(*left, pos).contains(bump(u, pos)));
                } else {
                    assert(shifted(*right, pos).contains(bump(u, pos)));
                }
            }
        }
        assert forall|i: usize| #[trigger] t.contains(i) implies s.contains(bump(i, pos)) by {
            assert(unbump(bump(i, pos), pos) == i);
        }
    }
}

/// Shifting keeps a shape ordered.
pub proof fn lemma_shifted_ordered(t: Shape, pos: usize)
    requires
        t.ordered(),
        forall|i: usize| #[trigger] t.contains(i) ==> i < usize::MAX,
    ensures
        shifted(t, pos).ordered(),
    decreases t,
{
    if let Shape::Branch { id, left, right } = t {
        assert(t.contains(id));
        assert forall|i: usize| #[trigger] left.contains(i) implies i < usize::MAX by {
            assert(t.contains(i));
        }
        assert forall|i: usize| #[trigger] right.contains(i) implies i < usize::MAX by {
            assert(t.contains(i));
        }
        lemma_shifted_ordered(*left, pos);
        lemma_shifted_ordered(*right, pos);
        lemma_shifted_contains(*left, pos);
        lemma_shifted_contains(*right, pos);
        assert forall|j: usize| shifted(*left, pos).contains(j) implies j < bump(id, pos) by {
            assert(left.contains(unbump(j, pos)));
        }
        assert forall|j: usize| shifted(*right, pos).contains(j) implies j > bump(id, pos) by {
            assert(right.contains(unbump(j, pos)));
        }
    }
}

/// The node of a moved slot is the shifted node of the slot it came from.
pub proof fn lemma_shifted_node(nodes: Seq<Option<Node>>, pos: usize, x: Option<Node>, i: usize)
    requires
        pos <= nodes.len(),
        (i as int) < nodes.len(),
        nodes.len() < usize::MAX,
    ensures
        shifted_nodes(nodes, pos, x)[bump(i, pos) as int] == shift_slot(nodes[i as int], pos),
        (bump(i, pos) as int) < shifted_nodes(nodes, pos, x).len(),
        nodes[i as int] is Some ==> node_of(shifted_nodes(nodes, pos, x), bump(i, pos)) == shift_node(
            node_of(nodes, i),
            pos,
        ),
{
}

/// Shifting keeps the byte and line feed totals of a shape whose slots hold nodes.
pub proof fn lemma_shifted_sums(nodes: Seq<Option<Node>>, t: Shape, pos: usize, x: Option<Node>)
    requires
        pos <= nodes.len(),
        nodes.len() < usize::MAX,
        forall|i: usize| #[trigger] t.contains(i) ==> (i as int) < nodes.len() && nodes[i as int] is Some,
    ensures
        char_sum(shifted_nodes(nodes, pos, x), shifted(t, pos)) == char_sum(nodes, t),
        line_sum(shifted_nodes(nodes, pos, x), shifted(t, pos)) == line_sum(nodes, t),
    decreases t,
{
    if let Shape::Branch { id, left, right } = t {
        assert(t.contains(id));
        lemma_shifted_node(nodes, pos, x, id);
        assert forall|i: usize| #[trigger] left.contains(i) implies (i as int) < nodes.len() && nodes[i as int] is Some by {
            assert(t.contains(i));
        }
        assert forall|i: usize| #[trigger] right.contains(i) implies (i as int) < nodes.len() && nodes[i as int] is Some by {
            assert(t.contains(i));
        }
        lemma_shifted_sums(nodes, *left, pos, x);
        lemma_shifted_sums(nodes, *right, pos, x);
    }
}

/// Shifting keeps the links of a shape with exact totals.
pub proof fn lemma_shifted_links(nodes: Seq<Option<Node>>, t: Shape, parent: Option<usize>, pos: usize, x: Option<Node>)
    requires
        pos <= nodes.len(),
        nodes.len() < usize::MAX,
        links(nodes, t, parent, None),
    ensures
        links(shifted_nodes(nodes, pos, x), shifted(t, pos), bump_opt(parent, pos), None),
    decreases t,
{
    crate::shape::lemma_links_occupied(nodes, t, parent, None);
    if let Shape::Branch { id, left, right } = t {
        assert(t.contains(id));
        lemma_shifted_node(nodes, pos, x, id);
        crate::shape::lemma_links_occupied(nodes, *left, Some(id), None);
        crate::shape::lemma_links_occupied(nodes, *right, Some(id), None);
        assert forall|i: usize| #[trigger] left.contains(i) implies i < usize::MAX by {}
        assert forall|i: usize| #[trigger] right.contains(i) implies i < usize::MAX by {}
        lemma_shifted_contains(*left, pos);
        lemma_shifted_contains(*right, pos);
        lemma_shifted_sums(nodes, *left, pos, x);
        lemma_shifted_links(nodes, *left, Some(id), pos, x);
        lemma_shifted_links(nodes, *right, Some(id), pos, x);
    }
}

} // verus!
