use vstd::prelude::*;
use crate::arena::Node;
use crate::shape::{
    agree_at, agree_on, char_sum, lemma_frame, lemma_links_occupied, lemma_links_weaken, line_sum, links, node_of, Shape,
};

verus! {

/// The subtree found at a slot of an ordered tree is rooted at that slot and lies inside the tree.
pub proof fn lemma_subtree(t: Shape, k: usize)
    requires
        t.ordered(),
        t.contains(k),
    ensures
        t.subtree(k).root() == Some(k),
        t.subtree(k).ordered(),
        forall|j: usize| #[trigger] t.subtree(k).contains(j) ==> t.contains(j),
        t.subtree(k).size() <= t.size(),
    decreases t,
{
    if let Shape::Branch { id, left, right } = t {
        if k < id {
            if right.contains(k) {
                assert(false);
            }
            lemma_subtree(*left, k);
        } else if k > id {
            if left.contains(k) {
                assert(false);
            }
            lemma_subtree(*right, k);
        }
    }
}

/// The parent of a slot is the given parent of the root or a slot of the tree.
pub proof fn lemma_parent_in(t: Shape, k: usize, top: Option<usize>)
    requires
        t.ordered(),
        t.contains(k),
    ensures
        t.parent_of(k, top) == top || (t.parent_of(k, top) matches Some(p) && t.contains(p) && !t.subtree(k).contains(p)),
    decreases t,
{
    if let Shape::Branch { id, left, right } = t {
        if k < id {
            if right.contains(k) {
                assert(false);
            }
            lemma_parent_in(*left, k, Some(id));
            lemma_subtree(*left, k);
        } else if k > id {
            if left.contains(k) {
                assert(false);
            }
            lemma_parent_in(*right, k, Some(id));
            lemma_subtree(*right, k);
        }
    }
}

/// Links of a tree give the links of each of its subtrees, under their parents.
pub proof fn lemma_subtree_links(nodes: Seq<Option<Node>>, t: Shape, top: Option<usize>, stale: Option<usize>, k: usize)
    requires
        t.ordered(),
        t.contains(k),
        links(nodes, t, top, stale),
    ensures
        links(nodes, t.subtree(k), t.parent_of(k, top), stale),
        node_of(nodes, k).parent == t.parent_of(k, top),
        node_of(nodes, k).left == t.subtree(k).left_of().root(),
        node_of(nodes, k).right == t.subtree(k).right_of().root(),
        (k as int) < nodes.len(),
        nodes[k as int] is Some,
    decreases t,
{
    if let Shape::Branch { id, left, right } = t {
        if k < id {
            if right.contains(k) {
                assert(false);
            }
            lemma_subtree_links(nodes, *left, Some(id), stale, k);
        } else if k > id {
            if left.contains(k) {
                assert(false);
            }
            lemma_subtree_links(nodes, *right, Some(id), stale, k);
        }
    }
}

/// If the parent of a slot is the given parent of the root, the slot is the root.
pub proof fn lemma_parent_is_top(t: Shape, k: usize, top: Option<usize>)
    requires
        t.ordered(),
        t.contains(k),
        top matches Some(q) ==> !t.contains(q),
    ensures
        t.parent_of(k, top) == top ==> t.root() == Some(k),
    decreases t,
{
    if let Shape::Branch { id, left, right } = t {
        if k < id {
            if right.contains(k) {
                assert(false);
            }
            lemma_parent_in(*left, k, Some(id));
        } else if k > id {
            if left.contains(k) {
                assert(false);
            }
            lemma_parent_in(*right, k, Some(id));
        }
    }
}

/// The parent of a slot holds the slot's subtree as one of its children, one level up.
pub proof fn lemma_parent_child(t: Shape, k: usize, top: Option<usize>)
    requires
        t.ordered(),
        t.contains(k),
        t.parent_of(k, top) != top,
    ensures
        t.parent_of(k, top) matches Some(p) && {
            &&& t.contains(p)
            &&& t.subtree(p).root() == Some(p)
            &&& (k < p && t.subtree(p).left_of() == t.subtree(k)) || (k > p && t.subtree(p).right_of()
                == t.subtree(k))
            &&& t.depth(k) == t.depth(p) + 1
        },
    decreases t,
{
    if let Shape::Branch { id, left, right } = t {
        if k < id {
            if right.contains(k) {
                assert(false);
            }
            assert(left.contains(k));
            if left.root() == Some(k) {
                assert(left.subtree(k) == *left);
                assert(left.depth(k) == 0);
                assert(left.parent_of(k, Some(id)) == Some(id));
            } else {
                lemma_parent_is_top(*left, k, Some(id));
                lemma_parent_child(*left, k, Some(id));
                let p = t.parent_of(k, top)->0;
                lemma_subtree(*left, p);
                assert(p < id);
            }
        } else if k > id {
            if left.contains(k) {
                assert(false);
            }
            assert(right.contains(k));
            if right.root() == Some(k) {
                assert(right.subtree(k) == *right);
                assert(right.depth(k) == 0);
                assert(right.parent_of(k, Some(id)) == Some(id));
            } else {
                lemma_parent_is_top(*right, k, Some(id));
                lemma_parent_child(*right, k, Some(id));
                let p = t.parent_of(k, top)->0;
                lemma_subtree(*right, p);
                assert(p > id);
            }
        }
    }
}

/// A child of the subtree at `p` has `p` as its parent and is found at its own slot.
pub proof fn lemma_child(t: Shape, p: usize, k: usize, top: Option<usize>)
    requires
        t.ordered(),
        t.contains(p),
        t.subtree(p).left_of().root() == Some(k) || t.subtree(p).right_of().root() == Some(k),
    ensures
        t.contains(k),
        t.parent_of(k, top) == Some(p),
        t.subtree(p).left_of().root() == Some(k) ==> k < p && t.subtree(k) == t.subtree(p).left_of(),
        t.subtree(p).right_of().root() == Some(k) ==> k > p && t.subtree(k) == t.subtree(p).right_of(),
        t.depth(k) == t.depth(p) + 1,
    decreases t,
{
    if let Shape::Branch { id, left, right } = t {
        if p == id {
            if left.root() == Some(k) {
                assert(left.contains(k));
                assert(k < id);
                assert(left.subtree(k) == *left);
                assert(left.parent_of(k, Some(id)) == Some(id));
                assert(left.depth(k) == 0);
            } else {
                assert(right.contains(k));
                assert(k > id);
                assert(right.subtree(k) == *right);
                assert(right.parent_of(k, Some(id)) == Some(id));
                assert(right.depth(k) == 0);
            }
        } else if p < id {
            if right.contains(p) {
                assert(false);
            }
            lemma_child(*left, p, k, Some(id));
            assert(left.contains(k));
            assert(k < id);
        } else {
            if left.contains(p) {
                assert(false);
            }
            lemma_child(*right, p, k, Some(id));
            assert(right.contains(k));
            assert(k > id);
        }
    }
}

/// Replacing a subtree by one that respects the ancestors' order keeps the tree ordered; the
/// slots are those outside the old subtree and those of the new one.
pub proof fn lemma_replace_ordered(t: Shape, k: usize, n: Shape)
    requires
        t.ordered(),
        t.contains(k),
        n.ordered(),
        t.within(k, n),
    ensures
        t.replace(k, n).ordered(),
        forall|j: usize| #[trigger] t.replace(k, n).contains(j) <==> ((t.contains(j) && !t.subtree(k).contains(j))
            || n.contains(j)),
    decreases t,
{
    if let Shape::Branch { id, left, right } = t {
        if k < id {
            if right.contains(k) {
                assert(false);
            }
            lemma_replace_ordered(*left, k, n);
            lemma_subtree(*left, k);
            assert(t.subtree(k) == left.subtree(k));
            let rep = left.replace(k, n);
            assert forall|j: usize| #[trigger] t.replace(k, n).contains(j) <==> ((t.contains(j)
                && !t.subtree(k).contains(j)) || n.contains(j)) by {
                if right.contains(j) || j == id {
                    assert(!left.contains(j));
                }
                assert(t.replace(k, n).contains(j) == (j == id || rep.contains(j) || right.contains(j)));
            }
        } else if k > id {
            if left.contains(k) {
                assert(false);
            }
            lemma_replace_ordered(*right, k, n);
            lemma_subtree(*right, k);
            assert(t.subtree(k) == right.subtree(k));
            let rep = right.replace(k, n);
            assert forall|j: usize| #[trigger] t.replace(k, n).contains(j) <==> ((t.contains(j)
                && !t.subtree(k).contains(j)) || n.contains(j)) by {
                if left.contains(j) || j == id {
                    assert(!right.contains(j));
                }
                assert(t.replace(k, n).contains(j) == (j == id || rep.contains(j) || left.contains(j)));
            }
        }
    }
}

/// A tree with the same slots as the subtree at `k` respects the order of `k`'s ancestors.
pub proof fn lemma_within_same(t: Shape, k: usize, n: Shape)
    requires
        t.ordered(),
        t.contains(k),
        forall|j: usize| n.contains(j) <==> t.subtree(k).contains(j),
    ensures
        t.within(k, n),
    decreases t,
{
    if let Shape::Branch { id, left, right } = t {
        if k < id {
            if right.contains(k) {
                assert(false);
            }
            lemma_subtree(*left, k);
            lemma_within_same(*left, k, n);
        } else if k > id {
            if left.contains(k) {
                assert(false);
            }
            lemma_subtree(*right, k);
            lemma_within_same(*right, k, n);
        }
    }
}

/// Node `p` agrees in `nodes2` with `nodes` except that its link to the child on `k`'s side
/// is `new_root`.
pub open spec fn relinked(nodes: Seq<Option<Node>>, nodes2: Seq<Option<Node>>, p: usize, k: usize, new_root: Option<usize>) -> bool {
    &&& (p as int) < nodes.len()
    &&& (p as int) < nodes2.len()
    &&& nodes[p as int] is Some
    &&& nodes2[p as int] is Some
    &&& node_of(nodes2, p).piece.length == node_of(nodes, p).piece.length
    &&& node_of(nodes2, p).piece.line_feed_count == node_of(nodes, p).piece.line_feed_count
    &&& node_of(nodes2, p).left_char_count == node_of(nodes, p).left_char_count
    &&& node_of(nodes2, p).left_line_count == node_of(nodes, p).left_line_count
    &&& node_of(nodes2, p).parent == node_of(nodes, p).parent
    &&& if k < p {
        node_of(nodes2, p).left == new_root && node_of(nodes2, p).right == node_of(nodes, p).right
    } else {
        node_of(nodes2, p).right == new_root && node_of(nodes2, p).left == node_of(nodes, p).left
    }
}

/// Replacing the subtree at `k` by a well-linked `n`, with nothing else changed but the
/// parent's link to it, gives a well-linked tree; only ancestors whose left subtree holds
/// `k` can have stale totals, and none if `n` has the same totals as what it replaced.
pub proof fn lemma_replace(nodes: Seq<Option<Node>>, nodes2: Seq<Option<Node>>, t: Shape, top: Option<usize>, k: usize, n: Shape)
    requires
        t.ordered(),
        t.contains(k),
        links(nodes, t, top, None),
        n.ordered(),
        t.within(k, n),
        n.root() is Some,
        links(nodes2, n, t.parent_of(k, top), None),
        forall|j: usize| #[trigger] t.contains(j) && !t.subtree(k).contains(j) && Some(j) != t.parent_of(k, top)
            ==> agree_at(nodes, nodes2, j),
        t.parent_of(k, top) matches Some(p) ==> (t.contains(p) ==> relinked(nodes, nodes2, p, k, n.root())),
    ensures
        char_sum(nodes2, t.replace(k, n)) == char_sum(nodes, t) - char_sum(nodes, t.subtree(k)) + char_sum(nodes2, n),
        line_sum(nodes2, t.replace(k, n)) == line_sum(nodes, t) - line_sum(nodes, t.subtree(k)) + line_sum(nodes2, n),
        (char_sum(nodes2, n) == char_sum(nodes, t.subtree(k)) && line_sum(nodes2, n) == line_sum(nodes, t.subtree(k)))
            ==> links(nodes2, t.replace(k, n), top, None),
        n.root() == Some(k) ==> links(nodes2, t.replace(k, n), top, Some(k)),
    decreases t,
{
    if let Shape::Branch { id, left, right } = t {
        if k == id {
            lemma_links_weaken(nodes2, n, top, Some(k));
        } else if k < id {
            if right.contains(k) {
                assert(false);
            }
            lemma_subtree(*left, k);
            lemma_parent_in(*left, k, Some(id));
            assert(t.subtree(k) == left.subtree(k));
            assert(t.parent_of(k, top) == left.parent_of(k, Some(id)));
            assert forall|j: usize| #[trigger] left.contains(j) && !left.subtree(k).contains(j) && Some(j)
                != left.parent_of(k, Some(id)) implies agree_at(nodes, nodes2, j) by {
                assert(t.contains(j));
            }
            lemma_replace(nodes, nodes2, *left, Some(id), k, n);
            lemma_replace_ordered(*left, k, n);
            assert(agree_on(nodes, nodes2, *right)) by {
                assert forall|j: usize| #[trigger] right.contains(j) implies agree_at(nodes, nodes2, j) by {
                    assert(t.contains(j));
                    if left.subtree(k).contains(j) {
                        assert(left.contains(j));
                    }
                }
            }
            lemma_frame(nodes, nodes2, *right, Some(id), None);
            lemma_links_weaken(nodes2, *right, Some(id), Some(k));
            if left.root() != Some(k) {
                lemma_parent_is_top(*left, k, Some(id));
                assert(t.contains(id));
                assert(!left.subtree(k).contains(id));
                assert(agree_at(nodes, nodes2, id));
            }
            if n.root() == Some(k) {
                assert(n.contains(k));
                assert(left.replace(k, n).contains(k));
            }
        } else {
            if left.contains(k) {
                assert(false);
            }
            lemma_subtree(*right, k);
            lemma_parent_in(*right, k, Some(id));
            assert(t.subtree(k) == right.subtree(k));
            assert(t.parent_of(k, top) == right.parent_of(k, Some(id)));
            assert forall|j: usize| #[trigger] right.contains(j) && !right.subtree(k).contains(j) && Some(j)
                != right.parent_of(k, Some(id)) implies agree_at(nodes, nodes2, j) by {
                assert(t.contains(j));
            }
            lemma_replace(nodes, nodes2, *right, Some(id), k, n);
            lemma_replace_ordered(*right, k, n);
            assert(agree_on(nodes, nodes2, *left)) by {
                assert forall|j: usize| #[trigger] left.contains(j) implies agree_at(nodes, nodes2, j) by {
                    assert(t.contains(j));
                    if right.subtree(k).contains(j) {
                        assert(right.contains(j));
                    }
                }
            }
            lemma_frame(nodes, nodes2, *left, Some(id), None);
            lemma_links_weaken(nodes2, *left, Some(id), Some(k));
            if right.root() != Some(k) {
                lemma_parent_is_top(*right, k, Some(id));
                assert(t.contains(id));
                assert(!right.subtree(k).contains(id));
                assert(agree_at(nodes, nodes2, id));
            }
        }
    }
}

/// The totals of a subtree do not exceed those of the whole tree.
pub proof fn lemma_subtree_sums(nodes: Seq<Option<Node>>, t: Shape, k: usize)
    requires
        t.ordered(),
        t.contains(k),
    ensures
        char_sum(nodes, t.subtree(k)) <= char_sum(nodes, t),
        line_sum(nodes, t.subtree(k)) <= line_sum(nodes, t),
    decreases t,
{
    if let Shape::Branch { id, left, right } = t {
        if k < id {
            if right.contains(k) {
                assert(false);
            }
            lemma_subtree_sums(nodes, *left, k);
        } else if k > id {
            if left.contains(k) {
                assert(false);
            }
            lemma_subtree_sums(nodes, *right, k);
        }
    }
}

} // verus!

verus! {

/// Stale totals can only sit above the slot they are stale for; a subtree without that slot
/// below its root has exact totals.
pub proof fn lemma_unstale(nodes: Seq<Option<Node>>, t: Shape, par: Option<usize>, s: usize)
    requires
        t.ordered(),
        links(nodes, t, par, Some(s)),
        !t.contains(s) || t.root() == Some(s),
    ensures
        links(nodes, t, par, None),
    decreases t,
{
    if let Shape::Branch { id, left, right } = t {
        if left.contains(s) {
            assert(s < id);
            assert(false);
        }
        if right.contains(s) && id == s {
            assert(false);
        }
        lemma_unstale(nodes, *left, Some(id), s);
        lemma_unstale(nodes, *right, Some(id), s);
    }
}

} // verus!

verus! {

/// Two slot lists hold the same pieces on every slot of `t`.
pub open spec fn same_pieces_on(nodes: Seq<Option<Node>>, nodes2: Seq<Option<Node>>, t: Shape) -> bool {
    forall|j: usize| #[trigger] t.contains(j) ==> {
        &&& (j as int) < nodes.len()
        &&& (j as int) < nodes2.len()
        &&& nodes[j as int] is Some
        &&& nodes2[j as int] is Some
        &&& node_of(nodes2, j).piece.length == node_of(nodes, j).piece.length
        &&& node_of(nodes2, j).piece.line_feed_count == node_of(nodes, j).piece.line_feed_count
    }
}

/// The totals of a subtree depend only on the pieces of its slots.
pub proof fn lemma_sums_frame(nodes: Seq<Option<Node>>, nodes2: Seq<Option<Node>>, t: Shape)
    requires
        same_pieces_on(nodes, nodes2, t),
    ensures
        char_sum(nodes2, t) == char_sum(nodes, t),
        line_sum(nodes2, t) == line_sum(nodes, t),
    decreases t,
{
    if let Shape::Branch { id, left, right } = t {
        assert(t.contains(id));
        assert(same_pieces_on(nodes, nodes2, *left)) by {
            assert forall|j: usize| #[trigger] left.contains(j) implies t.contains(j) by {}
        }
        assert(same_pieces_on(nodes, nodes2, *right)) by {
            assert forall|j: usize| #[trigger] right.contains(j) implies t.contains(j) by {}
        }
        lemma_sums_frame(nodes, nodes2, *left);
        lemma_sums_frame(nodes, nodes2, *right);
    }
}

/// A subtree without the stale slot, moved to slots that agree, has exact totals under any
/// allowance.
pub proof fn lemma_carry_exact(
    nodes: Seq<Option<Node>>,
    nodes2: Seq<Option<Node>>,
    t: Shape,
    par: Option<usize>,
    s: usize,
    stale2: Option<usize>,
)
    requires
        t.ordered(),
        links(nodes, t, par, Some(s)),
        !t.contains(s) || t.root() == Some(s),
        agree_on(nodes, nodes2, t),
    ensures
        links(nodes2, t, par, stale2),
        char_sum(nodes2, t) == char_sum(nodes, t),
        line_sum(nodes2, t) == line_sum(nodes, t),
{
    lemma_unstale(nodes, t, par, s);
    lemma_frame(nodes, nodes2, t, par, None);
    lemma_links_weaken(nodes2, t, par, stale2);
}

/// Once the left totals of `p` are recomputed for its left child `s`, totals can only be
/// stale above `p`.
pub proof fn lemma_fix_left(nodes: Seq<Option<Node>>, nodes2: Seq<Option<Node>>, t: Shape, top: Option<usize>, s: usize, p: usize)
    requires
        t.ordered(),
        links(nodes, t, top, Some(s)),
        t.contains(p),
        t.subtree(p).left_of().root() == Some(s),
        nodes2.len() == nodes.len(),
        forall|j: usize| #[trigger] t.contains(j) && j != p ==> nodes2[j as int] == nodes[j as int],
        nodes2[p as int] is Some,
        node_of(nodes2, p).piece == node_of(nodes, p).piece,
        node_of(nodes2, p).left == node_of(nodes, p).left,
        node_of(nodes2, p).right == node_of(nodes, p).right,
        node_of(nodes2, p).parent == node_of(nodes, p).parent,
        node_of(nodes2, p).left_char_count == char_sum(nodes, t.subtree(p).left_of()),
        node_of(nodes2, p).left_line_count == line_sum(nodes, t.subtree(p).left_of()),
    ensures
        links(nodes2, t, top, Some(p)),
        char_sum(nodes2, t) == char_sum(nodes, t),
        line_sum(nodes2, t) == line_sum(nodes, t),
    decreases t,
{
    lemma_links_occupied(nodes, t, top, Some(s));
    if let Shape::Branch { id, left, right } = t {
        lemma_subtree(t, p);
        lemma_sub_child_in(t, p);
        if p == id {
            assert(left.root() == Some(s));
            assert(left.contains(s));
            assert(!right.contains(s));
            assert(agree_on(nodes, nodes2, *left)) by {
                assert forall|j: usize| #[trigger] left.contains(j) implies agree_at(nodes, nodes2, j) by {
                    assert(t.contains(j));
                }
            }
            assert(agree_on(nodes, nodes2, *right)) by {
                assert forall|j: usize| #[trigger] right.contains(j) implies agree_at(nodes, nodes2, j) by {
                    assert(t.contains(j));
                }
            }
            lemma_links_occupied(nodes, *left, Some(id), Some(s));
            lemma_links_occupied(nodes, *right, Some(id), Some(s));
            lemma_carry_exact(nodes, nodes2, *left, Some(id), s, Some(p));
            lemma_carry_exact(nodes, nodes2, *right, Some(id), s, Some(p));
            assert(!left.contains(p));
        } else if p < id {
            if right.contains(p) {
                assert(false);
            }
            assert(t.subtree(p) == left.subtree(p));
            lemma_subtree(*left, p);
            assert(t.subtree(p).contains(s));
            assert(left.contains(s));
            assert(!right.contains(s));
            assert forall|j: usize| #[trigger] left.contains(j) && j != p implies nodes2[j as int] == nodes[j as int] by {
                assert(t.contains(j));
            }
            lemma_fix_left(nodes, nodes2, *left, Some(id), s, p);
            assert(agree_on(nodes, nodes2, *right)) by {
                assert forall|j: usize| #[trigger] right.contains(j) implies agree_at(nodes, nodes2, j) by {
                    assert(t.contains(j));
                }
            }
            lemma_links_occupied(nodes, *right, Some(id), Some(s));
            lemma_carry_exact(nodes, nodes2, *right, Some(id), s, Some(p));
            assert(t.contains(id));
            assert(nodes2[id as int] == nodes[id as int]);
        } else {
            if left.contains(p) {
                assert(false);
            }
            assert(t.subtree(p) == right.subtree(p));
            lemma_subtree(*right, p);
            assert(t.subtree(p).contains(s));
            assert(right.contains(s));
            assert(!left.contains(s));
            assert forall|j: usize| #[trigger] right.contains(j) && j != p implies nodes2[j as int] == nodes[j as int] by {
                assert(t.contains(j));
            }
            lemma_fix_left(nodes, nodes2, *right, Some(id), s, p);
            assert(agree_on(nodes, nodes2, *left)) by {
                assert forall|j: usize| #[trigger] left.contains(j) implies agree_at(nodes, nodes2, j) by {
                    assert(t.contains(j));
                }
            }
            lemma_links_occupied(nodes, *left, Some(id), Some(s));
            lemma_carry_exact(nodes, nodes2, *left, Some(id), s, Some(p));
            assert(t.contains(id));
            assert(nodes2[id as int] == nodes[id as int]);
        }
    }
}

/// The children of the subtree at `p` lie in that subtree.
pub proof fn lemma_sub_child_in(t: Shape, p: usize)
    requires
        t.ordered(),
        t.contains(p),
    ensures
        t.subtree(p).left_of().root() matches Some(l) ==> t.subtree(p).contains(l) && t.subtree(p).left_of().contains(l),
        t.subtree(p).right_of().root() matches Some(r) ==> t.subtree(p).contains(r) && t.subtree(p).right_of().contains(r),
{
    lemma_subtree(t, p);
    if let Shape::Branch { id, left, right } = t.subtree(p) {
        if let Shape::Branch { id: lid, .. } = *left {
            assert(left.contains(lid));
        }
        if let Shape::Branch { id: rid, .. } = *right {
            assert(right.contains(rid));
        }
    }
}

/// A right child's stale totals can only sit above its parent.
pub proof fn lemma_stale_up(nodes: Seq<Option<Node>>, t: Shape, top: Option<usize>, s: usize, p: usize)
    requires
        t.ordered(),
        links(nodes, t, top, Some(s)),
        t.contains(p),
        t.subtree(p).right_of().root() == Some(s),
    ensures
        links(nodes, t, top, Some(p)),
    decreases t,
{
    lemma_links_occupied(nodes, t, top, Some(s));
    if let Shape::Branch { id, left, right } = t {
        lemma_subtree(t, p);
        lemma_sub_child_in(t, p);
        if p == id {
            assert(right.contains(s));
            assert(!left.contains(s));
            assert(agree_on(nodes, nodes, *left)) by {
                assert forall|j: usize| #[trigger] left.contains(j) implies agree_at(nodes, nodes, j) by {
                    assert(t.contains(j));
                }
            }
            assert(agree_on(nodes, nodes, *right)) by {
                assert forall|j: usize| #[trigger] right.contains(j) implies agree_at(nodes, nodes, j) by {
                    assert(t.contains(j));
                }
            }
            lemma_links_occupied(nodes, *left, Some(id), Some(s));
            lemma_links_occupied(nodes, *right, Some(id), Some(s));
            lemma_carry_exact(nodes, nodes, *left, Some(id), s, Some(p));
            lemma_carry_exact(nodes, nodes, *right, Some(id), s, Some(p));
        } else if p < id {
            if right.contains(p) {
                assert(false);
            }
            assert(t.subtree(p) == left.subtree(p));
            lemma_subtree(*left, p);
            assert(t.subtree(p).contains(s));
            assert(left.contains(s));
            lemma_stale_up(nodes, *left, Some(id), s, p);
            assert(agree_on(nodes, nodes, *right)) by {
                assert forall|j: usize| #[trigger] right.contains(j) implies agree_at(nodes, nodes, j) by {
                    assert(t.contains(j));
                }
            }
            lemma_links_occupied(nodes, *right, Some(id), Some(s));
            lemma_carry_exact(nodes, nodes, *right, Some(id), s, Some(p));
        } else {
            if left.contains(p) {
                assert(false);
            }
            assert(t.subtree(p) == right.subtree(p));
            lemma_subtree(*right, p);
            assert(t.subtree(p).contains(s));
            assert(right.contains(s));
            lemma_stale_up(nodes, *right, Some(id), s, p);
            assert(agree_on(nodes, nodes, *left)) by {
                assert forall|j: usize| #[trigger] left.contains(j) implies agree_at(nodes, nodes, j) by {
                    assert(t.contains(j));
                }
            }
            lemma_links_occupied(nodes, *left, Some(id), Some(s));
            lemma_carry_exact(nodes, nodes, *left, Some(id), s, Some(p));
        }
    }
}

} // verus!

verus! {

/// A one-node tree.
pub open spec fn single(k: usize) -> Shape {
    Shape::Branch { id: k, left: Box::new(Shape::Leaf), right: Box::new(Shape::Leaf) }
}

/// Order constraints on the way to `c` carry over to its child `k` once `c` itself is
/// respected.
pub proof fn lemma_within_child(t: Shape, c: usize, k: usize, n: Shape)
    requires
        t.ordered(),
        t.contains(c),
        t.within(c, n),
        t.subtree(c).left_of().root() == Some(k) || t.subtree(c).right_of().root() == Some(k),
        t.subtree(c).left_of().root() == Some(k) ==> forall|j: usize| n.contains(j) ==> j < c,
        t.subtree(c).right_of().root() == Some(k) ==> forall|j: usize| n.contains(j) ==> j > c,
    ensures
        t.within(k, n),
    decreases t,
{
    if let Shape::Branch { id, left, right } = t {
        lemma_sub_child_in(t, c);
        if c == id {
            if left.root() == Some(k) {
                assert(left.contains(k));
                assert(k < id);
                assert(left.within(k, n));
                assert(forall|j: usize| n.contains(j) ==> j < id);
            } else {
                assert(right.contains(k));
                assert(k > id);
                assert(right.within(k, n));
                assert(forall|j: usize| n.contains(j) ==> j > id);
            }
        } else if c < id {
            if right.contains(c) {
                assert(false);
            }
            assert(t.subtree(c) == left.subtree(c));
            lemma_subtree(*left, c);
            lemma_within_child(*left, c, k, n);
            assert(left.contains(k));
            assert(k < id);
        } else {
            if left.contains(c) {
                assert(false);
            }
            assert(t.subtree(c) == right.subtree(c));
            lemma_subtree(*right, c);
            lemma_within_child(*right, c, k, n);
            assert(right.contains(k));
            assert(k > id);
        }
    }
}

/// Order constraints hold for a tree whose slots all come from two trees that meet them.
pub proof fn lemma_within_union(t: Shape, c: usize, n1: Shape, n2: Shape, n: Shape)
    requires
        t.within(c, n1),
        t.within(c, n2),
        forall|j: usize| n.contains(j) ==> n1.contains(j) || n2.contains(j),
    ensures
        t.within(c, n),
    decreases t,
{
    if let Shape::Branch { id, left, right } = t {
        if c < id {
            lemma_within_union(*left, c, n1, n2, n);
        } else if c > id {
            lemma_within_union(*right, c, n1, n2, n);
        }
    }
}

} // verus!

verus! {

/// The one-node tree holds exactly its slot.
pub proof fn lemma_single(k: usize)
    ensures
        forall|j: usize| #[trigger] single(k).contains(j) <==> j == k,
        single(k).ordered(),
        single(k).root() == Some(k),
{
    assert forall|j: usize| #[trigger] single(k).contains(j) <==> j == k by {
        assert(!Shape::Leaf.contains(j));
    }
    assert(forall|j: usize| !Shape::Leaf.contains(j));
    assert(Shape::Leaf.ordered());
    assert(forall|j: usize| Shape::Leaf.contains(j) ==> j < k);
    assert(forall|j: usize| Shape::Leaf.contains(j) ==> j > k);
}

} // verus!

verus! {

/// In a tree where the subtree at `p` was replaced, the subtree at a slot of the new part
/// is found inside the new part.
pub proof fn lemma_replace_subtree(t: Shape, p: usize, n: Shape, k: usize)
    requires
        t.ordered(),
        t.contains(p),
        t.within(p, n),
        n.contains(k),
    ensures
        t.replace(p, n).subtree(k) == n.subtree(k),
    decreases t,
{
    if let Shape::Branch { id, left, right } = t {
        if p < id {
            if right.contains(p) {
                assert(false);
            }
            lemma_replace_subtree(*left, p, n, k);
        } else if p > id {
            if left.contains(p) {
                assert(false);
            }
            lemma_replace_subtree(*right, p, n, k);
        }
    }
}

} // verus!
