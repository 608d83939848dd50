use vstd::prelude::*;
use crate::arena::{Color, Node};
use crate::doc::{buffer_for, joined, pieces_ok, slot_text};
use crate::piece::piece_wf;
use crate::rebalance::same_payload;
use crate::shape::{
    agree_at, agree_on, char_sum, lemma_frame, lemma_links_occupied, lemma_links_weaken, lemma_reparent, line_sum,
    links, node_of, same_links, Shape,
};
use crate::shape_facts::{
    lemma_parent_in, lemma_replace_ordered, lemma_subtree, lemma_subtree_links, lemma_within_same, lemma_within_union,
};
use crate::tree::PieceTree;
use crate::metadata::lemma_parent_link;
use crate::navigate::lemma_covers_split;
use crate::edit::text_of_piece;

verus! {

/// The only child subtree of the node at `k` (a leaf when it has none).
pub open spec fn only_child(t: Shape, k: usize) -> Shape {
    if t.subtree(k).left_of() is Leaf {
        t.subtree(k).right_of()
    } else {
        t.subtree(k).left_of()
    }
}

/// The slot whose totals may be stale after `k` was cut out: its parent, if it is in `t`.
pub open spec fn cut_stale(t: Shape, k: usize, top: Option<usize>) -> Option<usize> {
    match t.parent_of(k, top) {
        Some(p) => if t.contains(p) { Some(p) } else { None },
        None => None,
    }
}

/// Cutting out a node with at most one child leaves an ordered tree of the other slots.
pub proof fn lemma_cut_shape(t: Shape, k: usize)
    requires
        t.ordered(),
        t.contains(k),
        t.subtree(k).left_of() is Leaf || t.subtree(k).right_of() is Leaf,
    ensures
        t.replace(k, only_child(t, k)).ordered(),
        forall|j: usize| #[trigger] t.replace(k, only_child(t, k)).contains(j) <==> (t.contains(j) && j != k),
        forall|j: usize| #[trigger] only_child(t, k).contains(j) ==> t.subtree(k).contains(j) && j != k,
        only_child(t, k).ordered(),
{
    lemma_subtree(t, k);
    let c = only_child(t, k);
    let s = t.subtree(k);
    assert forall|j: usize| #[trigger] c.contains(j) implies s.contains(j) && j != k by {
        if let Shape::Branch { id, left, right } = s {
        }
    }
    lemma_within_same(t, k, s);
    lemma_within_union(t, k, s, s, c);
    assert(c.ordered()) by {
        if let Shape::Branch { id, left, right } = s {
        }
    }
    lemma_replace_ordered(t, k, c);
    assert forall|j: usize| #[trigger] t.replace(k, c).contains(j) <==> (t.contains(j) && j != k) by {
        if let Shape::Branch { id, left, right } = s {
            if s.contains(j) && j != k {
                assert(left.contains(j) || right.contains(j));
            }
        }
        if s.contains(j) {
            assert(t.contains(j));
        }
    }
}

/// The requirements of `lemma_detach_links` on the slots a cut rewrites.
pub open spec fn cut_written(nodes: Seq<Option<Node>>, nodes2: Seq<Option<Node>>, t: Shape, top: Option<usize>, k: usize) -> bool {
    &&& nodes2.len() == nodes.len()
    &&& forall|j: usize| #[trigger] t.contains(j) && Some(j) != t.parent_of(k, top) && Some(j) != only_child(t, k).root()
        ==> nodes2[j as int] == nodes[j as int]
    &&& t.parent_of(k, top) matches Some(p) ==> (t.contains(p) ==> {
        let p0 = node_of(nodes, p);
        let p2 = node_of(nodes2, p);
        &&& nodes2[p as int] is Some
        &&& p2.piece == p0.piece
        &&& p2.parent == p0.parent
        &&& p2.color == p0.color
        &&& k < p ==> p2.left == only_child(t, k).root() && p2.right == p0.right
            && p2.left_char_count + node_of(nodes, k).piece.length == p0.left_char_count
            && p2.left_line_count + node_of(nodes, k).piece.line_feed_count == p0.left_line_count
        &&& k > p ==> p2.right == only_child(t, k).root() && p2.left == p0.left
            && p2.left_char_count == p0.left_char_count && p2.left_line_count == p0.left_line_count
    })
    &&& only_child(t, k).root() matches Some(c) ==> {
        &&& nodes2[c as int] is Some
        &&& node_of(nodes2, c).parent == t.parent_of(k, top)
        &&& node_of(nodes2, c).piece == node_of(nodes, c).piece
        &&& node_of(nodes2, c).color == node_of(nodes, c).color
        &&& same_links(node_of(nodes, c), Node { parent: Some(k), ..node_of(nodes2, c) })
    }
}

/// Cutting out the root of `t`: its only child takes its place.
pub proof fn lemma_detach_at_root(nodes: Seq<Option<Node>>, nodes2: Seq<Option<Node>>, t: Shape, top: Option<usize>, k: usize)
    requires
        t.ordered(),
        links(nodes, t, top, None),
        t.root() == Some(k),
        top matches Some(q) ==> !t.contains(q),
        t.left_of() is Leaf || t.right_of() is Leaf,
        cut_written(nodes, nodes2, t, top, k),
    ensures
        links(nodes2, t.replace(k, only_child(t, k)), top, cut_stale(t, k, top)),
        char_sum(nodes2, t.replace(k, only_child(t, k))) + node_of(nodes, k).piece.length == char_sum(nodes, t),
        line_sum(nodes2, t.replace(k, only_child(t, k))) + node_of(nodes, k).piece.line_feed_count == line_sum(nodes, t),
{
    if let Shape::Branch { id, left, right } = t {
        assert(t.subtree(k) == t);
        let c = only_child(t, k);
        assert(t.replace(k, c) == c);
        assert(t.parent_of(k, top) == top);
        assert(cut_stale(t, k, top) is None);
        if left.root() is None {
            assert(c == *right);
            assert(*left == Shape::Leaf);
            assert(char_sum(nodes, *left) == 0 && line_sum(nodes, *left) == 0);
        } else {
            assert(c == *left);
            assert(*right == Shape::Leaf);
            assert(char_sum(nodes, *right) == 0 && line_sum(nodes, *right) == 0);
        }
        if c == Shape::Leaf {
            assert(char_sum(nodes2, c) == 0 && line_sum(nodes2, c) == 0);
        }
        if let Shape::Branch { id: cid, .. } = c {
            assert(c.contains(cid));
            lemma_links_occupied(nodes, t, top, None);
            assert forall|j: usize| #[trigger] c.contains(j) && j != cid implies agree_at(nodes, nodes2, j) by {
                assert(t.contains(j));
                assert(Some(j) != top);
                assert(Some(j) != c.root());
                assert(nodes2[j as int] == nodes[j as int]);
            }
            assert(node_of(nodes2, cid).parent == top);
            assert(c.ordered());
            assert(t.contains(cid));
            assert(nodes2.len() == nodes.len());
            assert((cid as int) < nodes2.len());
            assert(nodes2[cid as int] is Some);
            assert(same_links(node_of(nodes, cid), Node { parent: Some(k), ..node_of(nodes2, cid) }));
            assert(links(nodes, c, Some(k), None));
            lemma_reparent(nodes, nodes2, c, Some(k), top, None);
        }
    }
}

/// Cutting out a node with at most one child, by linking its parent to that child (and
/// lowering the parent's left totals when it was the left child), keeps the tree linked,
/// with totals stale only above the parent.
pub proof fn lemma_detach_links(nodes: Seq<Option<Node>>, nodes2: Seq<Option<Node>>, t: Shape, top: Option<usize>, k: usize)
    requires
        t.ordered(),
        links(nodes, t, top, None),
        t.contains(k),
        top matches Some(q) ==> !t.contains(q),
        t.subtree(k).left_of() is Leaf || t.subtree(k).right_of() is Leaf,
        cut_written(nodes, nodes2, t, top, k),
    ensures
        links(nodes2, t.replace(k, only_child(t, k)), top, cut_stale(t, k, top)),
        char_sum(nodes2, t.replace(k, only_child(t, k))) + node_of(nodes, k).piece.length == char_sum(nodes, t),
        line_sum(nodes2, t.replace(k, only_child(t, k))) + node_of(nodes, k).piece.line_feed_count == line_sum(nodes, t),
    decreases t, 2int,
{
    lemma_links_occupied(nodes, t, top, None);
    if let Shape::Branch { id, left, right } = t {
        assert(t.contains(id));
        if k == id {
            lemma_detach_at_root(nodes, nodes2, t, top, k);
        } else {
            lemma_detach_below(nodes, nodes2, t, top, k);
        }
    }
}

/// The case of `lemma_detach_links` where `k` lies below the root.
pub proof fn lemma_detach_below(nodes: Seq<Option<Node>>, nodes2: Seq<Option<Node>>, t: Shape, top: Option<usize>, k: usize)
    requires
        t.ordered(),
        links(nodes, t, top, None),
        t.contains(k),
        top matches Some(q) ==> !t.contains(q),
        t.subtree(k).left_of() is Leaf || t.subtree(k).right_of() is Leaf,
        cut_written(nodes, nodes2, t, top, k),
        t.root() != Some(k),
    ensures
        links(nodes2, t.replace(k, only_child(t, k)), top, cut_stale(t, k, top)),
        char_sum(nodes2, t.replace(k, only_child(t, k))) + node_of(nodes, k).piece.length == char_sum(nodes, t),
        line_sum(nodes2, t.replace(k, only_child(t, k))) + node_of(nodes, k).piece.line_feed_count == line_sum(nodes, t),
    decreases t, 1int,
{
    if let Shape::Branch { id, left, right } = t {
        assert(t.contains(id));
        if k < id {
            lemma_detach_in_left(nodes, nodes2, t, top, k);
        } else {
            lemma_detach_in_right(nodes, nodes2, t, top, k);
        }
    }
}

/// The case of `lemma_detach_links` where `k` lies in the left subtree.
pub proof fn lemma_detach_in_left(nodes: Seq<Option<Node>>, nodes2: Seq<Option<Node>>, t: Shape, top: Option<usize>, k: usize)
    requires
        t.ordered(),
        links(nodes, t, top, None),
        t.contains(k),
        top matches Some(q) ==> !t.contains(q),
        t.subtree(k).left_of() is Leaf || t.subtree(k).right_of() is Leaf,
        cut_written(nodes, nodes2, t, top, k),
        t.root() != Some(k),
        t matches Shape::Branch { id, .. } && k < id,
    ensures
        links(nodes2, t.replace(k, only_child(t, k)), top, cut_stale(t, k, top)),
        char_sum(nodes2, t.replace(k, only_child(t, k))) + node_of(nodes, k).piece.length == char_sum(nodes, t),
        line_sum(nodes2, t.replace(k, only_child(t, k))) + node_of(nodes, k).piece.line_feed_count == line_sum(nodes, t),
    decreases t, 0int,
{
    lemma_links_occupied(nodes, t, top, None);
    if let Shape::Branch { id, left, right } = t {
        assert(t.contains(id));
            if right.contains(k) {
                assert(false);
            }
            let c = only_child(t, k);
            assert(t.subtree(k) == left.subtree(k));
            assert(t.parent_of(k, top) == left.parent_of(k, Some(id)));
            assert(only_child(t, k) == only_child(*left, k));
            lemma_subtree(*left, k);
            lemma_cut_shape(*left, k);
            lemma_parent_in(*left, k, Some(id));
            assert(cut_written(nodes, nodes2, *left, Some(id), k)) by {
                assert forall|j: usize| #[trigger] left.contains(j) && Some(j) != left.parent_of(k, Some(id)) && Some(j)
                    != only_child(*left, k).root() implies nodes2[j as int] == nodes[j as int] by {
                    assert(t.contains(j));
                }
            }
            lemma_detach_links(nodes, nodes2, *left, Some(id), k);
            assert(agree_on(nodes, nodes2, *right)) by {
                assert forall|j: usize| #[trigger] right.contains(j) implies agree_at(nodes, nodes2, j) by {
                    assert(t.contains(j));
                    if Some(j) == t.parent_of(k, top) {
                        assert(left.contains(j) || j == id);
                    }
                    if c.contains(j) {
                        assert(left.subtree(k).contains(j));
                        assert(left.contains(j));
                    }
                }
            }
            lemma_frame(nodes, nodes2, *right, Some(id), None);
            let p = t.parent_of(k, top);
            if p == Some(id) {
                crate::shape_facts::lemma_parent_is_top(*left, k, Some(id));
                assert(left.root() == Some(k));
                assert(left.subtree(k) == *left);
                assert(left.replace(k, c) == c);
                assert(node_of(nodes2, id).parent == node_of(nodes, id).parent);
                assert(!left.contains(id));
                assert(cut_stale(*left, k, Some(id)) is None);
                assert(cut_stale(t, k, top) == Some(id));
                lemma_links_weaken(nodes2, left.replace(k, c), Some(id), Some(id));
                lemma_links_weaken(nodes2, *right, Some(id), Some(id));
            } else {
                assert(p matches Some(pp) && left.contains(pp));
                assert(cut_stale(t, k, top) == cut_stale(*left, k, Some(id)));
                if let Shape::Branch { id: sid, .. } = *left {
                    if sid == k {
                        assert(left.parent_of(k, Some(id)) == Some(id));
                    }
                    assert(left.replace(k, c).root() == left.root());
                }
                lemma_links_weaken(nodes2, *right, Some(id), cut_stale(t, k, top));
                assert(nodes2[id as int] == nodes[id as int]);
                assert(left.replace(k, c).contains(p->0));
            }
    }
}

/// The case of `lemma_detach_links` where `k` lies in the right subtree.
pub proof fn lemma_detach_in_right(nodes: Seq<Option<Node>>, nodes2: Seq<Option<Node>>, t: Shape, top: Option<usize>, k: usize)
    requires
        t.ordered(),
        links(nodes, t, top, None),
        t.contains(k),
        top matches Some(q) ==> !t.contains(q),
        t.subtree(k).left_of() is Leaf || t.subtree(k).right_of() is Leaf,
        cut_written(nodes, nodes2, t, top, k),
        t.root() != Some(k),
        t matches Shape::Branch { id, .. } && k > id,
    ensures
        links(nodes2, t.replace(k, only_child(t, k)), top, cut_stale(t, k, top)),
        char_sum(nodes2, t.replace(k, only_child(t, k))) + node_of(nodes, k).piece.length == char_sum(nodes, t),
        line_sum(nodes2, t.replace(k, only_child(t, k))) + node_of(nodes, k).piece.line_feed_count == line_sum(nodes, t),
    decreases t, 0int,
{
    lemma_links_occupied(nodes, t, top, None);
    if let Shape::Branch { id, left, right } = t {
        assert(t.contains(id));
            if left.contains(k) {
                assert(false);
            }
            let c = only_child(t, k);
            assert(t.subtree(k) == right.subtree(k));
            assert(t.parent_of(k, top) == right.parent_of(k, Some(id)));
            assert(only_child(t, k) == only_child(*right, k));
            lemma_subtree(*right, k);
            lemma_cut_shape(*right, k);
            lemma_parent_in(*right, k, Some(id));
            assert(cut_written(nodes, nodes2, *right, Some(id), k)) by {
                assert forall|j: usize| #[trigger] right.contains(j) && Some(j) != right.parent_of(k, Some(id)) && Some(j)
                    != only_child(*right, k).root() implies nodes2[j as int] == nodes[j as int] by {
                    assert(t.contains(j));
                }
            }
            lemma_detach_links(nodes, nodes2, *right, Some(id), k);
            assert(agree_on(nodes, nodes2, *left)) by {
                assert forall|j: usize| #[trigger] left.contains(j) implies agree_at(nodes, nodes2, j) by {
                    assert(t.contains(j));
                    if Some(j) == t.parent_of(k, top) {
                        assert(right.contains(j) || j == id);
                    }
                    if c.contains(j) {
                        assert(right.subtree(k).contains(j));
                        assert(right.contains(j));
                    }
                }
            }
            lemma_frame(nodes, nodes2, *left, Some(id), None);
            let p = t.parent_of(k, top);
            if p == Some(id) {
                crate::shape_facts::lemma_parent_is_top(*right, k, Some(id));
                assert(right.root() == Some(k));
                assert(right.subtree(k) == *right);
                assert(right.replace(k, c) == c);
                assert(node_of(nodes2, id).parent == node_of(nodes, id).parent);
                assert(!right.contains(id));
                assert(cut_stale(*right, k, Some(id)) is None);
                assert(cut_stale(t, k, top) == Some(id));
                lemma_links_weaken(nodes2, right.replace(k, c), Some(id), Some(id));
                lemma_links_weaken(nodes2, *left, Some(id), Some(id));
            } else {
                assert(p matches Some(pp) && right.contains(pp));
                assert(cut_stale(t, k, top) == cut_stale(*right, k, Some(id)));
                if let Shape::Branch { id: sid, .. } = *right {
                    if sid == k {
                        assert(right.parent_of(k, Some(id)) == Some(id));
                    }
                    assert(right.replace(k, c).root() == right.root());
                }
                lemma_links_weaken(nodes2, *left, Some(id), cut_stale(t, k, top));
                assert(nodes2[id as int] == nodes[id as int]);
            }
    }
}

} // verus!

verus! {

/// Cutting the node `k` (with at most one child) out of a shaped tree leaves it shaped up to
/// the totals above `k`'s parent, with `k` as a detached extra node.
pub proof fn lemma_detach(a: PieceTree, b: PieceTree, k: usize)
    requires
        a.shaped(None, None),
        a.shape@.contains(k),
        a.shape@.subtree(k).left_of() is Leaf || a.shape@.subtree(k).right_of() is Leaf,
        cut_written(a.nodes(), b.nodes(), a.shape@, None, k),
        forall|j: int| 0 <= j < a.nodes().len() && !a.shape@.contains(j as usize) ==> b.nodes()[j] == a.nodes()[j],
        b.shape@ == a.shape@.replace(k, only_child(a.shape@, k)),
        b.root == (if a.shape@.parent_of(k, None) is None { only_child(a.shape@, k).root() } else { a.root }),
        b.arena.free_slots() == a.arena.free_slots(),
        b.original_buffer == a.original_buffer,
        b.add_buffer == a.add_buffer,
        b.total_length == a.total_length,
        b.total_lines == a.total_lines,
    ensures
        b.shaped(cut_stale(a.shape@, k, None), Some(k)),
        forall|j: usize| #[trigger] b.shape@.contains(j) <==> (a.shape@.contains(j) && j != k),
        same_payload(a, b),
        b.node(k) == a.node(k),
        char_sum(b.nodes(), b.shape@) + a.node(k).piece.length == char_sum(a.nodes(), a.shape@),
        line_sum(b.nodes(), b.shape@) + a.node(k).piece.line_feed_count == line_sum(a.nodes(), a.shape@),
{
    reveal(PieceTree::shaped);
    let t = a.shape@;
    let nodes = a.nodes();
    let nodes2 = b.nodes();
    lemma_subtree(t, k);
    lemma_parent_in(t, k, None);
    lemma_cut_shape(t, k);
    lemma_detach_links(nodes, nodes2, t, None, k);
    lemma_links_occupied(nodes, t, None, None);
    let c = only_child(t, k);
    assert(a.occupied(k));
    assert(nodes2[k as int] == nodes[k as int]) by {
        if Some(k) == t.parent_of(k, None) {
            crate::shape_facts::lemma_parent_child(t, k, None);
        }
        if Some(k) == c.root() {
            if let Shape::Branch { id, .. } = c {
                assert(c.contains(id));
            }
        }
    }
    assert forall|i: int| 0 <= i < nodes.len() implies (nodes[i] is Some <==> #[trigger] nodes2[i] is Some)
        && (nodes[i] is Some ==> nodes[i].unwrap().piece == nodes2[i].unwrap().piece) by {
        let u = i as usize;
        assert(u as int == i);
        if t.contains(u) {
            if Some(u) == c.root() {
                if let Shape::Branch { id, .. } = c {
                    assert(c.contains(id));
                }
            } else if Some(u) == t.parent_of(k, None) {
            } else {
                assert(nodes2[u as int] == nodes[u as int]);
            }
        } else {
            assert(!t.contains(i as usize));
        }
    }
    assert(same_payload(a, b));
    assert forall|i: usize| #[trigger] b.occupied(i) == a.occupied(i) by {
        if (i as int) < nodes.len() {
            assert(nodes2[i as int] is Some == nodes[i as int] is Some);
        }
    }
    assert forall|i: int| 0 <= i < nodes2.len() && #[trigger] nodes2[i] is Some implies piece_wf(
        nodes2[i].unwrap().piece,
        buffer_for(nodes2[i].unwrap().piece.buffer_kind, b.original_bytes(), b.add_bytes()),
    ) by {
        assert(nodes[i] is Some);
    }
    assert forall|q: int| 0 <= q < b.arena.free_slots().len() implies {
        &&& #[trigger] b.arena.free_slots()[q] < b.arena.slots().len()
        &&& b.arena.slots()[b.arena.free_slots()[q] as int] is None
    } by {
        assert(a.arena.free_slots()[q] < a.arena.slots().len());
        assert(a.arena.slots()[a.arena.free_slots()[q] as int] is None);
    }
    assert forall|i: int| 0 <= i < b.arena.slots().len() && #[trigger] b.arena.slots()[i] is None
        implies b.arena.free_slots().contains(i as usize) by {
        assert(a.arena.slots()[i] is None);
    }
    if t.parent_of(k, None) is None {
        crate::shape_facts::lemma_parent_is_top(t, k, None);
        assert(t.subtree(k) == t);
        assert(b.shape@ == c);
    } else {
        if let Shape::Branch { id, .. } = t {
            if id == k {
                assert(t.parent_of(k, None) is None);
            }
        }
    }
}

/// Emptying the slot of the detached extra node leaves a shaped tree with that slot's text
/// gone.
pub proof fn lemma_freed(a: PieceTree, b: PieceTree, k: usize)
    requires
        a.shaped(None, Some(k)),
        b.nodes() == a.nodes().update(k as int, None),
        b.arena.free_slots() == a.arena.free_slots().push(k),
        b.arena.wf(),
        b.shape@ == a.shape@,
        b.root == a.root,
        b.original_buffer == a.original_buffer,
        b.add_buffer == a.add_buffer,
    ensures
        b.shaped(None, None),
        b.texts() == a.texts().update(k as int, Seq::empty()),
        char_sum(b.nodes(), b.shape@) == char_sum(a.nodes(), a.shape@),
        line_sum(b.nodes(), b.shape@) == line_sum(a.nodes(), a.shape@),
{
    reveal(PieceTree::shaped);
    let t = a.shape@;
    assert(a.occupied(k));
    assert(!t.contains(k));
    assert forall|i: usize| #[trigger] t.contains(i) implies agree_at(a.nodes(), b.nodes(), i) by {
        assert(a.occupied(i));
    }
    lemma_frame(a.nodes(), b.nodes(), t, None, None);
    assert forall|i: usize| #[trigger] b.occupied(i) <==> (a.occupied(i) && i != k) by {}
    assert forall|i: int| 0 <= i < b.nodes().len() && #[trigger] b.nodes()[i] is Some implies piece_wf(
        b.nodes()[i].unwrap().piece,
        buffer_for(b.nodes()[i].unwrap().piece.buffer_kind, b.original_bytes(), b.add_bytes()),
    ) by {
        assert(a.nodes()[i] is Some);
    }
    assert(b.texts() =~= a.texts().update(k as int, Seq::empty()));
}

} // verus!

verus! {

/// At most one slot is the first occupied slot after another.
pub proof fn lemma_follows_unique(tree: PieceTree, i: usize, a: usize, b: usize)
    requires
        tree.follows(i, a),
        tree.follows(i, b),
    ensures
        a == b,
{
    if a < b {
        assert(!tree.occupied(a));
    } else if b < a {
        assert(!tree.occupied(b));
    }
}

/// The total of a subtree covers the piece at its root.
pub proof fn lemma_root_in_sums(nodes: Seq<Option<Node>>, t: Shape, k: usize)
    requires
        t.root() == Some(k),
    ensures
        node_of(nodes, k).piece.length <= char_sum(nodes, t),
        node_of(nodes, k).piece.line_feed_count <= line_sum(nodes, t),
{
}

impl PieceTree {
    /// The slot that removing the node `idx` frees: its own, or, for a node with two
    /// children, that of its successor, whose piece moves into `idx`.
    pub open spec fn removal_slot(&self, idx: usize) -> usize {
        if self.node(idx).left is Some && self.node(idx).right is Some {
            choose|s: usize| self.follows(idx, s)
        } else {
            idx
        }
    }

    /// The slot texts after removing the node `idx`.
    pub open spec fn texts_after_removal(&self, idx: usize) -> Seq<Seq<u8>> {
        let s = self.removal_slot(idx);
        if s == idx {
            self.texts().update(idx as int, Seq::empty())
        } else {
            self.texts().update(s as int, Seq::empty()).update(idx as int, self.texts()[s as int])
        }
    }
}

} // verus!

verus! {

impl PieceTree {
    /// The leftmost node of the right subtree of `idx` is the first occupied slot after it.
    pub proof fn lemma_successor_follows(&self, idx: usize, s: usize)
        requires
            self.shaped(None, None),
            self.shape@.contains(idx),
            self.shape@.contains(s),
            self.slot_bounds(s).0 == idx + 1,
            self.node(s).left is None,
            self.node(idx).left is Some,
            self.node(idx).right is Some,
        ensures
            self.follows(idx, s),
            self.removal_slot(idx) == s,
    {
        let nodes = self.nodes();
        self.lemma_bounds_self(s);
        self.lemma_shaped_basics(None, None);
        let t = self.shape@;
        lemma_subtree(t, s);
        lemma_subtree_links(nodes, t, None, None, s);
        let sub = t.subtree(s);
        lemma_covers_split(nodes, sub, self.slot_bounds(s).0, self.slot_bounds(s).1);
        assert(sub.left_of() == Shape::Leaf);
        assert forall|m: usize| idx < m < s implies !#[trigger] self.occupied(m) by {
            if self.occupied(m) {
                assert(nodes[m as int] is Some);
                assert(sub.left_of().contains(m));
            }
        }
        assert(self.follows(idx, s));
        let c = choose|q: usize| self.follows(idx, q);
        lemma_follows_unique(*self, idx, c, s);
    }

    /// Facts about a node with at most one child and the child that takes its place.
    pub proof fn lemma_cut_facts(&self, idx: usize, child: Option<usize>)
        requires
            self.shaped(None, None),
            self.shape@.contains(idx),
            !(self.node(idx).left is Some && self.node(idx).right is Some),
            child == (if self.node(idx).left is Some { self.node(idx).left } else { self.node(idx).right }),
        ensures
            self.shape@.subtree(idx).left_of() is Leaf || self.shape@.subtree(idx).right_of() is Leaf,
            only_child(self.shape@, idx).root() == child,
            child matches Some(c) ==> self.occupied(c) && self.node(c).parent == Some(idx) && c != idx
                && self.shape@.contains(c),
            self.node(idx).parent == self.shape@.parent_of(idx, None),
            self.node(idx).parent matches Some(p) ==> p != idx && Some(p) != child && self.occupied(p),
    {
        self.lemma_shaped_basics(None, None);
        lemma_parent_link(*self, idx, None, None);
        crate::balance::lemma_child_link(*self, idx, None, None);
        lemma_subtree(self.shape@, idx);
        lemma_subtree_links(self.nodes(), self.shape@, None, None, idx);
        if let Some(p) = self.node(idx).parent {
            if let Some(c) = child {
                if c == p {
                    lemma_parent_link(*self, c, None, None);
                }
            }
        }
    }

    /// After the successor `s` of `idx` was removed and `idx` took its piece, the tree is
    /// shaped up to the totals above `idx`, and reads as before with `idx`'s text gone.
    pub proof fn lemma_after_successor_moved(&self, t0: PieceTree, removed: PieceTree, idx: usize, s: usize, p: crate::piece::Piece)
        requires
            t0.shaped(None, None),
            t0.shape@.contains(idx),
            t0.follows(idx, s),
            t0.shape@.contains(s),
            removed.shaped(None, None),
            forall|j: usize| #[trigger] removed.shape@.contains(j) <==> (t0.shape@.contains(j) && j != s),
            removed.texts() == t0.texts().update(s as int, Seq::empty()),
            removed.original_buffer == t0.original_buffer,
            removed.add_buffer == t0.add_buffer,
            removed.nodes().len() == t0.nodes().len(),
            char_sum(removed.nodes(), removed.shape@) + t0.node(s).piece.length == char_sum(t0.nodes(), t0.shape@),
            line_sum(removed.nodes(), removed.shape@) + t0.node(s).piece.line_feed_count == line_sum(t0.nodes(), t0.shape@),
            crate::piece::same_piece(p, t0.node(s).piece),
            self.nodes() == removed.nodes().update(idx as int, Some(crate::arena::Node { piece: p, ..removed.node(idx) })),
            self.shape@ == removed.shape@,
            self.root == removed.root,
            self.arena.free_slots() == removed.arena.free_slots(),
            self.original_buffer == removed.original_buffer,
            self.add_buffer == removed.add_buffer,
        ensures
            self.shaped(Some(idx), None),
            self.shape@.contains(idx),
            self.texts() == t0.texts().update(s as int, Seq::empty()).update(idx as int, t0.texts()[s as int]),
            char_sum(self.nodes(), self.shape@) + t0.node(idx).piece.length == char_sum(t0.nodes(), t0.shape@),
            line_sum(self.nodes(), self.shape@) + t0.node(idx).piece.line_feed_count == line_sum(t0.nodes(), t0.shape@),
    {
        assert(idx != s);
        assert(removed.shape@.contains(idx));
        removed.lemma_shaped_basics(None, None);
        t0.lemma_shaped_basics(None, None);
        t0.lemma_slot_piece(s);
        t0.lemma_slot_piece(idx);
        assert(removed.occupied(idx));
        removed.lemma_slot_piece(idx);
        assert(removed.texts()[idx as int] == t0.texts()[idx as int]);
        crate::doc::lemma_slot_text_shape(removed.nodes(), removed.original_bytes(), removed.add_bytes(), idx as int);
        crate::doc::lemma_slot_text_shape(t0.nodes(), t0.original_bytes(), t0.add_bytes(), idx as int);
        crate::piece::lemma_same_piece_wf(p, t0.node(s).piece, t0.buffer_of(s));
        assert(text_of_piece(p, removed.original_bytes(), removed.add_bytes()) == t0.texts()[s as int]);
        crate::edit::lemma_piece_set(removed, *self, idx, p);
    }

    /// Removing a node with two children reads like dropping its text.
    pub proof fn lemma_removal_doc(&self, t0: PieceTree, idx: usize, s: usize)
        requires
            t0.follows(idx, s),
            self.texts() == t0.texts().update(s as int, Seq::empty()).update(idx as int, t0.texts()[s as int]),
            (s as int) < t0.nodes().len(),
        ensures
            self.doc() == joined(t0.texts().update(idx as int, Seq::empty())),
    {
        crate::edit::lemma_doc_joined(*self);
        let ts = t0.texts();
        assert forall|m: int| idx < m < s implies #[trigger] ts[m].len() == 0 by {
            assert(!t0.occupied(m as usize));
        }
        crate::doc::lemma_joined_move(ts, idx as int, s as int);
    }
}

impl PieceTree {
    /// Removes the node `idx` from the tree: a node with at most one child is replaced by
    /// that child; a node with two children takes the piece of its in-order successor,
    /// which is removed instead. Rebalances and frees the emptied slot.
    #[verifier::rlimit(60)]
    pub(crate) fn remove_node(&mut self, idx: usize)
        requires
            old(self).shaped(None, None),
            old(self).shape@.contains(idx),
        ensures
            final(self).shaped(None, None),
            forall|j: usize| #[trigger] final(self).shape@.contains(j) <==> (old(self).shape@.contains(j) && j
                != old(self).removal_slot(idx)),
            old(self).shape@.contains(old(self).removal_slot(idx)),
            old(self).removal_slot(idx) >= idx,
            final(self).arena.free_slots() == old(self).arena.free_slots().push(old(self).removal_slot(idx)),
            final(self).nodes().len() == old(self).nodes().len(),
            final(self).original_buffer == old(self).original_buffer,
            final(self).add_buffer == old(self).add_buffer,
            final(self).total_length == old(self).total_length,
            final(self).total_lines == old(self).total_lines,
            char_sum(final(self).nodes(), final(self).shape@) + old(self).node(idx).piece.length == char_sum(
                old(self).nodes(),
                old(self).shape@,
            ),
            line_sum(final(self).nodes(), final(self).shape@) + old(self).node(idx).piece.line_feed_count == line_sum(
                old(self).nodes(),
                old(self).shape@,
            ),
            final(self).texts() == old(self).texts_after_removal(idx),
            final(self).doc() == joined(old(self).texts().update(idx as int, Seq::empty())),
            old(self).aligned() ==> final(self).aligned(),
            old(self).root_black() ==> final(self).root_black(),
            old(self).no_red_pairs() && old(self).black_balanced() ==> final(self).no_red_pairs()
                && final(self).black_balanced(),
        decreases (if old(self).node(idx).left is Some && old(self).node(idx).right is Some { 1int } else { 0int }),
    {
        let ghost t0 = *self;
        proof {
            self.lemma_shaped_basics(None, None);
            lemma_parent_link(*self, idx, None, None);
            crate::balance::lemma_child_link(*self, idx, None, None);
            lemma_subtree(self.shape@, idx);
            lemma_subtree_links(self.nodes(), self.shape@, None, None, idx);
        }
        let node = self.arena.get(idx);
        let left = node.left;
        let right = node.right;
        let parent = node.parent;

        if left.is_some() && right.is_some() {
            // two children: take the piece of the in-order successor, the leftmost node
            // of the right subtree, and remove that node instead
            let right_idx = right.unwrap();
            proof {
                self.lemma_bounds_self(idx);
                self.lemma_bounds_parent(right_idx, idx);
            }
            let mut successor = right_idx;
            loop
                invariant
                    *self == t0,
                    self.shaped(None, None),
                    self.shape@.contains(successor),
                    self.slot_bounds(successor).0 == idx + 1,
                ensures
                    self.shape@.contains(successor),
                    self.slot_bounds(successor).0 == idx + 1,
                    self.node(successor).left is None,
                decreases self.shape@.subtree(successor).size(),
            {
                proof {
                    crate::balance::lemma_child_link(*self, successor, None, None);
                }
                match self.arena.get(successor).left {
                    None => break,
                    Some(left_idx) => {
                        proof {
                            self.lemma_bounds_parent(left_idx, successor);
                            self.lemma_shaped_basics(None, None);
                            lemma_subtree(self.shape@, successor);
                            lemma_subtree_links(self.nodes(), self.shape@, None, None, successor);
                            crate::shape_facts::lemma_child(self.shape@, successor, left_idx, None);
                        }
                        successor = left_idx;
                    },
                }
            }
            proof {
                self.lemma_successor_follows(idx, successor);
            }
            let successor_piece = self.arena.get(successor).piece.clone();
            let ghost s_text = self.texts()[successor as int];
            proof {
                self.lemma_slot_piece(successor);
                crate::piece::lemma_same_piece_wf(successor_piece, self.node(successor).piece, self.buffer_of(successor));
                lemma_subtree(self.shape@, successor);
                lemma_subtree_links(self.nodes(), self.shape@, None, None, successor);
                assert(self.node(successor).left is None);
            }
            // now remove the successor, which has at most one child
            self.remove_node(successor);
            let ghost removed = *self;
            proof {
                assert(t0.removal_slot(successor) == successor);
                assert(self.shape@.contains(idx));
                self.lemma_shaped_basics(None, None);
                assert(self.occupied(idx));
            }
            self.arena.get_mut(idx).piece = successor_piece;
            proof {
                self.lemma_after_successor_moved(t0, removed, idx, successor, successor_piece);
                if t0.aligned() {
                    assert(t0.occupied(successor));
                    assert(crate::aligned::piece_aligned(successor_piece, removed.original_bytes(), removed.add_bytes()));
                    PieceTree::lemma_aligned_set(removed, *self, idx, successor_piece);
                }
            }
            let ghost moved = *self;
            proof {
                if let Some(r) = moved.root {
                    assert(moved.node(r).color == removed.node(r).color);
                }
            }
            self.update_metadata(idx, Ghost(None));
            proof {
                if let Some(r) = self.root {
                    moved.lemma_shaped_basics(Some(idx), None);
                    if let Shape::Branch { id, .. } = moved.shape@ {
                        assert(moved.shape@.contains(id));
                    }
                    assert(moved.occupied(r));
                }
                crate::edit::lemma_payload_texts(moved, *self);
                self.lemma_removal_doc(t0, idx, successor);
                removed.lemma_shaped_basics(None, None);
                assert forall|j: usize| #[trigger] self.shape@.contains(j) implies self.node(j).color == removed.node(
                    j,
                ).color && self.node(j).parent == removed.node(j).parent by {
                    assert(removed.occupied(j));
                    assert(moved.occupied(j));
                }
                lemma_rb_kept(removed, *self);
                if t0.aligned() {
                    PieceTree::lemma_aligned_payload(moved, *self);
                }
            }
            return;
        }

        // at most one child: the child takes its place
        self.cut_out(idx);
    }

    /// Removes the node `idx`, which has at most one child, from the tree: that child takes
    /// its place. Restores the coloring and frees the emptied slot.
    #[verifier::rlimit(100)]
    pub(crate) fn cut_out(&mut self, idx: usize)
        requires
            old(self).shaped(None, None),
            old(self).shape@.contains(idx),
            !(old(self).node(idx).left is Some && old(self).node(idx).right is Some),
        ensures
            final(self).shaped(None, None),
            forall|j: usize| #[trigger] final(self).shape@.contains(j) <==> (old(self).shape@.contains(j) && j
                != old(self).removal_slot(idx)),
            old(self).shape@.contains(old(self).removal_slot(idx)),
            old(self).removal_slot(idx) >= idx,
            final(self).arena.free_slots() == old(self).arena.free_slots().push(old(self).removal_slot(idx)),
            final(self).nodes().len() == old(self).nodes().len(),
            final(self).original_buffer == old(self).original_buffer,
            final(self).add_buffer == old(self).add_buffer,
            final(self).total_length == old(self).total_length,
            final(self).total_lines == old(self).total_lines,
            char_sum(final(self).nodes(), final(self).shape@) + old(self).node(idx).piece.length == char_sum(
                old(self).nodes(),
                old(self).shape@,
            ),
            line_sum(final(self).nodes(), final(self).shape@) + old(self).node(idx).piece.line_feed_count == line_sum(
                old(self).nodes(),
                old(self).shape@,
            ),
            final(self).texts() == old(self).texts_after_removal(idx),
            final(self).doc() == joined(old(self).texts().update(idx as int, Seq::empty())),
            old(self).aligned() ==> final(self).aligned(),
            old(self).root_black() ==> final(self).root_black(),
            old(self).no_red_pairs() && old(self).black_balanced() ==> final(self).no_red_pairs()
                && final(self).black_balanced(),
    {
        let ghost t0 = *self;
        proof {
            self.lemma_shaped_basics(None, None);
            lemma_parent_link(*self, idx, None, None);
            crate::balance::lemma_child_link(*self, idx, None, None);
            lemma_subtree(self.shape@, idx);
            lemma_subtree_links(self.nodes(), self.shape@, None, None, idx);
        }
        let node = self.arena.get(idx);
        let left = node.left;
        let right = node.right;
        let parent = node.parent;
        let idx_length = node.piece.length;
        let idx_lines = node.piece.line_feed_count;
        let idx_black = node.color == Color::Black;
        // at most one child: link the parent to it
        let child = if left.is_some() {
            left
        } else {
            right
        };
        proof {
            self.lemma_cut_facts(idx, child);
        }
        let mut was_left = false;
        match parent {
            Some(parent_idx) => {
                proof {
                    lemma_subtree_links(self.nodes(), self.shape@, None, None, parent_idx);
                    lemma_subtree(self.shape@, parent_idx);
                    lemma_root_in_sums(self.nodes(), self.shape@.subtree(idx), idx);
                }
                if self.arena.get(parent_idx).left == Some(idx) {
                    was_left = true;
                    let node = self.arena.get_mut(parent_idx);
                    node.left = child;
                    node.left_char_count = node.left_char_count - idx_length;
                    node.left_line_count = node.left_line_count - idx_lines;
                } else {
                    self.arena.get_mut(parent_idx).right = child;
                }
                if let Some(c) = child {
                    self.arena.get_mut(c).parent = Some(parent_idx);
                }
                proof {
                    assert(was_left == (t0.node(parent_idx).left == Some(idx)));
                    assert((if was_left { self.node(parent_idx).left } else { self.node(parent_idx).right }) == child);
                    self.shape = Ghost(t0.shape@.replace(idx, only_child(t0.shape@, idx)));
                    lemma_detach(t0, *self, idx);
                    lemma_cut_written_kept(t0, *self, idx);
                }
                let ghost detached = *self;
                self.update_metadata(parent_idx, Ghost(Some(idx)));
                proof {
                    crate::balance::lemma_payload_trans(t0, detached, *self);
                    assert(detached.occupied(parent_idx));
                    detached.lemma_shaped_basics(cut_stale(t0.shape@, idx, None), Some(idx));
                    lemma_kept_on(t0, detached, *self, child);
                }
            },
            None => {
                self.root = child;
                if let Some(c) = child {
                    self.arena.get_mut(c).parent = None;
                }
                proof {
                    self.shape = Ghost(t0.shape@.replace(idx, only_child(t0.shape@, idx)));
                    lemma_detach(t0, *self, idx);
                    lemma_cut_written_kept(t0, *self, idx);
                }
            },
        }
        let ghost before_free = *self;
        self.arena.free(idx);
        proof {
            if let Some(r) = before_free.root {
                before_free.lemma_shaped_basics(None, Some(idx));
                if let Shape::Branch { id, .. } = before_free.shape@ {
                    assert(before_free.shape@.contains(id));
                }
                assert(r != idx);
                assert(self.node(r) == before_free.node(r));
            }
            lemma_freed(before_free, *self, idx);
            crate::edit::lemma_payload_texts(t0, before_free);
            crate::edit::lemma_doc_joined(*self);
            if t0.aligned() {
                PieceTree::lemma_aligned_payload(t0, before_free);
                before_free.lemma_shaped_basics(None, Some(idx));
                PieceTree::lemma_aligned_emptied(before_free, *self, idx);
            }
            before_free.lemma_shaped_basics(None, Some(idx));
            lemma_kept_on(t0, before_free, *self, child);
            if let Some(p) = parent {
                assert(p != idx);
                assert(self.shape@.contains(p));
            }
        }
        let ghost freed = *self;
        proof {
            if let Some(p) = parent {
                assert(t0.node(idx).parent == Some(p));
            }
        }
        self.settle_cut(parent, child, was_left, idx_black, Ghost(t0), Ghost(idx));
        proof {
            assert(same_payload(freed, *self));
            crate::edit::lemma_payload_texts(freed, *self);
            crate::edit::lemma_doc_joined(*self);
            if t0.aligned() {
                PieceTree::lemma_aligned_payload(freed, *self);
            }
        }
    }

    /// Restores the coloring after a node `y` with at most one child was cut out of `t0`, its
    /// child `child` taking its place below `parent` (on the left side when `was_left`): when
    /// `y` was black, a child takes over its black, and a black leaf's deficit is fixed up.
    #[verifier::rlimit(60)]
    fn settle_cut(
        &mut self,
        parent: Option<usize>,
        child: Option<usize>,
        was_left: bool,
        removed_black: bool,
        Ghost(t0): Ghost<PieceTree>,
        Ghost(y): Ghost<usize>,
    )
        requires
            old(self).shaped(None, None),
            t0.shaped(None, None),
            t0.shape@.contains(y),
            t0.shape@.subtree(y).left_of() is Leaf || t0.shape@.subtree(y).right_of() is Leaf,
            old(self).shape@ == t0.shape@.replace(y, only_child(t0.shape@, y)),
            only_child(t0.shape@, y).root() == child,
            t0.node(y).parent == parent,
            removed_black == (t0.node(y).color == Color::Black),
            parent matches Some(p) ==> was_left == (t0.node(p).left == Some(y)) && old(self).shape@.contains(p),
            parent matches Some(p) ==> (if t0.node(p).left == Some(y) {
                old(self).node(p).left
            } else {
                old(self).node(p).right
            }) == child,
            parent is Some ==> old(self).root == t0.root,
            parent is None ==> old(self).root == child,
            child matches Some(c) ==> old(self).shape@.contains(c),
            cut_kept(t0, *old(self), child),
        ensures
            final(self).shaped(None, None),
            forall|j: usize| #[trigger] final(self).shape@.contains(j) == old(self).shape@.contains(j),
            same_payload(*old(self), *final(self)),
            char_sum(final(self).nodes(), final(self).shape@) == char_sum(old(self).nodes(), old(self).shape@),
            line_sum(final(self).nodes(), final(self).shape@) == line_sum(old(self).nodes(), old(self).shape@),
            t0.root_black() ==> final(self).root_black(),
            t0.no_red_pairs() && t0.black_balanced() ==> final(self).no_red_pairs() && final(self).black_balanced(),
    {
        let ghost freed = *self;
        proof {
            self.lemma_shaped_basics(None, None);
            t0.lemma_shaped_basics(None, None);
        }
        if removed_black {
            match child {
                Some(c) => {
                    // the child takes the black node's place: it turns black
                    self.paint(c, Color::Black, Ghost(None));
                    proof {
                        if t0.no_red_pairs() && t0.black_balanced() {
                            lemma_cut_black_child(t0, freed, *self, y, c);
                        }
                    }
                },
                None => {
                    if let Some(parent_idx) = parent {
                        // a black leaf leaves its side of the parent one black node short
                        proof {
                            if t0.no_red_pairs() && t0.black_balanced() {
                                lemma_cut_rb(t0, freed, y);
                            }
                        }
                        self.fix_delete(parent_idx, was_left);
                    }
                },
            }
        }
        proof {
            if t0.no_red_pairs() && t0.black_balanced() && !(removed_black && child is Some) && !(removed_black
                && child is None && parent is Some) {
                lemma_cut_rb(t0, freed, y);
            }
            if t0.root_black() {
                if let Some(r) = freed.root {
                    freed.lemma_root_occupied(None, None);
                    if parent is Some {
                        t0.lemma_root_occupied(None, None);
                        assert(t0.shape@.contains(r));
                    }
                }
            }
        }
    }
}

} // verus!

verus! {

/// The colors of the nodes of `t1`, and their parents but for that of `child`, are those
/// they had in `t0`.
pub open spec fn cut_kept(t0: PieceTree, t1: PieceTree, child: Option<usize>) -> bool {
    forall|j: usize| #[trigger] t1.shape@.contains(j) ==> t1.node(j).color == t0.node(j).color && (Some(j) != child
        ==> t1.node(j).parent == t0.node(j).parent)
}

/// The writes of a cut keep the colors of all remaining nodes and the parents of all but
/// the child that takes the cut node's place.
pub proof fn lemma_cut_written_kept(t0: PieceTree, d: PieceTree, y: usize)
    requires
        t0.shaped(None, None),
        t0.shape@.contains(y),
        cut_written(t0.nodes(), d.nodes(), t0.shape@, None, y),
        forall|j: usize| #[trigger] d.shape@.contains(j) <==> (t0.shape@.contains(j) && j != y),
    ensures
        cut_kept(t0, d, only_child(t0.shape@, y).root()),
{
    t0.lemma_shaped_basics(None, None);
    let t = t0.shape@;
    assert forall|j: usize| #[trigger] d.shape@.contains(j) implies d.node(j).color == t0.node(j).color && (Some(j)
        != only_child(t, y).root() ==> d.node(j).parent == t0.node(j).parent) by {
        assert(t.contains(j));
        if Some(j) == t.parent_of(y, None) {
            assert(t0.occupied(j));
        }
    }
}

/// Keeping colors and parents on the nodes of the tree carries `cut_kept` over.
pub proof fn lemma_kept_on(t0: PieceTree, a: PieceTree, b: PieceTree, child: Option<usize>)
    requires
        cut_kept(t0, a, child),
        forall|j: usize| #[trigger] b.shape@.contains(j) ==> a.shape@.contains(j) && a.occupied(j),
        forall|j: usize| #[trigger] a.occupied(j) && b.shape@.contains(j) ==> b.node(j).color == a.node(j).color
            && b.node(j).parent == a.node(j).parent,
    ensures
        cut_kept(t0, b, child),
{
}

/// A tree of the same shape, whose nodes keep their colors and parents, keeps having no red
/// pairs and being balanced.
pub proof fn lemma_rb_kept(a: PieceTree, b: PieceTree)
    requires
        a.shaped(None, None),
        b.shape@ == a.shape@,
        cut_kept(a, b, None),
    ensures
        a.no_red_pairs() ==> b.no_red_pairs(),
        a.black_balanced() ==> b.black_balanced(),
        a.root == b.root && a.root_black() ==> b.root_black(),
{
    a.lemma_shaped_basics(None, None);
    if a.no_red_pairs() {
        assert forall|i: usize| #[trigger] b.red_pair(i) && b.shape@.contains(i) implies false by {
            lemma_parent_link(a, i, None, None);
            assert(a.red_pair(i));
        }
    }
    assert forall|j: usize| #[trigger] a.shape@.contains(j) implies node_of(b.nodes(), j).color == node_of(a.nodes(), j).color by {
    }
    crate::coloring::lemma_black_frame(a.nodes(), b.nodes(), a.shape@);
    if a.root == b.root && a.root_black() {
        a.lemma_root_occupied(None, None);
    }
}

/// Cutting a node `y` with at most one child out of a red-black tree, where the child takes
/// its place and no color or other parent link changes: a red `y` leaves a red-black tree;
/// a black leaf `y` leaves an empty tree when it was the root, and else the deficit state at
/// its side of its parent.
pub proof fn lemma_cut_rb(t0: PieceTree, f: PieceTree, y: usize)
    requires
        t0.shaped(None, None),
        t0.shape@.contains(y),
        t0.no_red_pairs(),
        t0.black_balanced(),
        t0.shape@.subtree(y).left_of() is Leaf || t0.shape@.subtree(y).right_of() is Leaf,
        f.shaped(None, None),
        f.shape@ == t0.shape@.replace(y, only_child(t0.shape@, y)),
        forall|j: usize| #[trigger] f.shape@.contains(j) ==> f.node(j).color == t0.node(j).color,
        forall|j: usize| #[trigger] f.shape@.contains(j) && Some(j) != only_child(t0.shape@, y).root() ==> f.node(j).parent
            == t0.node(j).parent,
        t0.node(y).parent matches Some(p) ==> (if t0.node(p).left == Some(y) {
            f.node(p).left
        } else {
            f.node(p).right
        }) == only_child(t0.shape@, y).root(),
    ensures
        t0.node(y).color == Color::Red ==> f.no_red_pairs() && f.black_balanced(),
        t0.node(y).color == Color::Black && only_child(t0.shape@, y) is Leaf ==> (t0.node(y).parent matches Some(p)
            ==> f.short_at(p, t0.node(p).left == Some(y))),
        t0.node(y).color == Color::Black && only_child(t0.shape@, y) is Leaf && t0.node(y).parent is None ==> f.no_red_pairs()
            && f.black_balanced(),
{
    let t = t0.shape@;
    let c = only_child(t, y);
    t0.lemma_shaped_basics(None, None);
    f.lemma_shaped_basics(None, None);
    lemma_cut_shape(t, y);
    lemma_subtree(t, y);
    lemma_subtree_links(t0.nodes(), t, None, None, y);
    lemma_parent_link(t0, y, None, None);
    crate::coloring::lemma_balanced_subtree(t0.nodes(), t, y);
    let sy = t.subtree(y);
    crate::balance::lemma_child_link(t0, y, None, None);
    if t0.node(y).color == Color::Red || c is Leaf {
        assert forall|i: usize| #[trigger] f.red_pair(i) && f.shape@.contains(i) implies false by {
            assert(t.contains(i) && i != y);
            lemma_parent_link(t0, i, None, None);
            if Some(i) == c.root() {
                if let Shape::Branch { id, left: l, right: r } = sy {
                    if l.root() == Some(i) {
                        assert(t0.node(y).left == Some(i));
                    } else {
                        assert(t0.node(y).right == Some(i));
                    }
                }
                lemma_parent_link(t0, i, None, None);
                assert(t0.node(i).parent == Some(y));
                assert(t0.red_pair(i));
            } else {
                let q = t0.node(i).parent->0;
                assert(t0.shape@.contains(q));
                if q == y {
                    if let Shape::Branch { id, left: l, right: r } = sy {
                        assert(t0.node(y).left == Some(i) || t0.node(y).right == Some(i));
                    }
                }
                assert(f.shape@.contains(q));
                assert(t0.red_pair(i));
            }
        }
    }
    if let Shape::Branch { id, left: l, right: r } = sy {
        assert(id == y);
        assert(crate::coloring::balanced(t0.nodes(), *l) && crate::coloring::balanced(t0.nodes(), *r));
        crate::deficit::lemma_black_height_nonneg(t0.nodes(), *l);
        crate::deficit::lemma_black_height_nonneg(t0.nodes(), *r);
        assert(crate::coloring::black_height(t0.nodes(), c) == 0);
        assert forall|j: usize| #[trigger] c.contains(j) implies node_of(f.nodes(), j).color == node_of(t0.nodes(), j).color by {
            assert(sy.contains(j));
            assert(t.contains(j));
            assert(f.shape@.contains(j));
        }
        crate::coloring::lemma_black_frame(t0.nodes(), f.nodes(), c);
        if t0.node(y).color == Color::Red {
            assert forall|j: usize| #[trigger] t.contains(j) && !t.subtree(y).contains(j) implies node_of(f.nodes(), j).color
                == node_of(t0.nodes(), j).color by {
                assert(j != y);
                assert(f.shape@.contains(j));
            }
            crate::coloring::lemma_black_replace(t0.nodes(), f.nodes(), t, y, c);
        }
        if t0.node(y).color == Color::Black && c is Leaf {
            assert(*l == Shape::Leaf && *r == Shape::Leaf);
            assert(sy == crate::shape_facts::single(y));
            if let Some(p) = t0.node(y).parent {
                let pleft = t0.node(p).left == Some(y);
                if !pleft {
                    assert(t0.node(p).right == Some(y));
                }
                assert forall|j: usize| #[trigger] t.contains(j) && j != y implies node_of(f.nodes(), j).color == node_of(
                    t0.nodes(),
                    j,
                ).color by {
                    assert(f.shape@.contains(j));
                }
                crate::deficit::lemma_short_cut(t0.nodes(), f.nodes(), t, p, y, pleft);
            } else {
                assert(t0.root == Some(y));
                assert(sy == t);
                assert(f.shape@ == Shape::Leaf);
            }
        }
    }
}

/// Cutting a black node `y` with one child `c` out of a red-black tree, where `c` takes its
/// place and turns black and no other color or parent link changes, leaves a red-black tree.
pub proof fn lemma_cut_black_child(t0: PieceTree, f: PieceTree, g: PieceTree, y: usize, c: usize)
    requires
        t0.shaped(None, None),
        t0.shape@.contains(y),
        t0.no_red_pairs(),
        t0.black_balanced(),
        t0.shape@.subtree(y).left_of() is Leaf || t0.shape@.subtree(y).right_of() is Leaf,
        only_child(t0.shape@, y).root() == Some(c),
        t0.node(y).color == Color::Black,
        f.shaped(None, None),
        f.shape@ == t0.shape@.replace(y, only_child(t0.shape@, y)),
        forall|j: usize| #[trigger] f.shape@.contains(j) ==> f.node(j).color == t0.node(j).color,
        forall|j: usize| #[trigger] f.shape@.contains(j) && j != c ==> f.node(j).parent == t0.node(j).parent,
        crate::rebalance::same_but_colors(f, g),
        g.node(c).color == Color::Black,
        forall|j: int| 0 <= j < f.nodes().len() && j != c ==> g.nodes()[j] == f.nodes()[j],
    ensures
        g.no_red_pairs(),
        g.black_balanced(),
{
    let t = t0.shape@;
    let cs = only_child(t, y);
    t0.lemma_shaped_basics(None, None);
    f.lemma_shaped_basics(None, None);
    lemma_cut_shape(t, y);
    lemma_subtree(t, y);
    lemma_subtree_links(t0.nodes(), t, None, None, y);
    lemma_parent_link(t0, y, None, None);
    crate::coloring::lemma_balanced_subtree(t0.nodes(), t, y);
    let sy = t.subtree(y);
    assert(cs.contains(c));
    assert(f.shape@.contains(c));
    assert forall|i: usize| #[trigger] g.red_pair(i) && g.shape@.contains(i) implies false by {
        assert(t.contains(i) && i != y);
        assert(f.occupied(i));
        lemma_parent_link(t0, i, None, None);
        if i != c {
            assert(g.nodes()[i as int] == f.nodes()[i as int]);
            let q = t0.node(i).parent->0;
            assert(t0.shape@.contains(q));
            if q == y {
                if let Shape::Branch { id, left: l, right: r } = sy {
                    assert(t0.node(y).left == Some(i) || t0.node(y).right == Some(i));
                }
            }
            assert(f.shape@.contains(q));
            if q != c {
                assert(f.occupied(q));
                assert(g.nodes()[q as int] == f.nodes()[q as int]);
                assert(t0.red_pair(i));
            }
        }
    }
    if let Shape::Branch { id, left: l, right: r } = sy {
        assert(id == y);
        assert(crate::coloring::balanced(t0.nodes(), *l) && crate::coloring::balanced(t0.nodes(), *r));
        crate::deficit::lemma_black_height_nonneg(t0.nodes(), *l);
        crate::deficit::lemma_black_height_nonneg(t0.nodes(), *r);
        assert(crate::coloring::black_height(t0.nodes(), cs) == 0);
        assert(crate::coloring::black_height(t0.nodes(), sy) == 1);
        assert(crate::coloring::balanced(t0.nodes(), cs));
        if let Shape::Branch { id: cid, left: cl, right: cr } = cs {
            assert(cid == c);
            crate::deficit::lemma_black_height_nonneg(t0.nodes(), *cl);
            assert forall|j: usize| #[trigger] cl.contains(j) implies node_of(g.nodes(), j).color == node_of(t0.nodes(), j).color by {
                assert(cs.contains(j));
                assert(cs.ordered());
                assert(j < c);
                assert(sy.contains(j));
                assert(t.contains(j));
                assert(f.shape@.contains(j));
                assert(f.occupied(j));
                assert(g.nodes()[j as int] == f.nodes()[j as int]);
            }
            assert forall|j: usize| #[trigger] cr.contains(j) implies node_of(g.nodes(), j).color == node_of(t0.nodes(), j).color by {
                assert(cs.contains(j));
                assert(cs.ordered());
                assert(j > c);
                assert(sy.contains(j));
                assert(t.contains(j));
                assert(f.shape@.contains(j));
                assert(f.occupied(j));
                assert(g.nodes()[j as int] == f.nodes()[j as int]);
            }
            crate::coloring::lemma_black_frame(t0.nodes(), g.nodes(), *cl);
            crate::coloring::lemma_black_frame(t0.nodes(), g.nodes(), *cr);
            assert(crate::coloring::balanced(g.nodes(), cs));
            assert(crate::coloring::black_height(g.nodes(), cs) == 1);
        }
        assert forall|j: usize| #[trigger] t.contains(j) && !t.subtree(y).contains(j) implies node_of(g.nodes(), j).color
            == node_of(t0.nodes(), j).color by {
            assert(j != y);
            assert(f.shape@.contains(j));
            assert(f.occupied(j));
            if j == c {
                assert(sy.contains(c));
            }
            assert(g.nodes()[j as int] == f.nodes()[j as int]);
        }
        crate::coloring::lemma_black_replace(t0.nodes(), g.nodes(), t, y, cs);
    }
}

} // verus!
