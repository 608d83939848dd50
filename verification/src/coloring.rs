use vstd::prelude::*;
use crate::arena::{Color, Node};
use crate::metadata::{lemma_parent_link, same_links_of};
use crate::rebalance::same_colors;
use crate::tree::PieceTree;
use crate::shape::{node_of, Shape};

verus! {

/// A tree with the shape of a shaped tree whose nodes keep their parent links and colors has
/// no red pair that the first lacks.
pub proof fn lemma_pairs_kept(a: PieceTree, b: PieceTree, stale: Option<usize>, extra: Option<usize>)
    requires
        a.shaped(stale, extra),
        b.shape@ == a.shape@,
        same_links_of(a, b),
    ensures
        forall|i: usize| #[trigger] b.red_pair(i) && b.shape@.contains(i) ==> a.red_pair(i),
{
    assert forall|i: usize| #[trigger] b.red_pair(i) && b.shape@.contains(i) implies a.red_pair(i) by {
        lemma_parent_link(a, i, stale, extra);
    }
}

/// Hanging the node `k` into a tree without red pairs, keeping the parent links and colors
/// of the tree's nodes, leaves at most `k` a red pair.
pub proof fn lemma_hung_pairs(a: PieceTree, b: PieceTree, k: usize)
    requires
        a.shaped(None, Some(k)),
        a.no_red_pairs(),
        forall|j: usize| #[trigger] b.shape@.contains(j) <==> (a.shape@.contains(j) || j == k),
        forall|j: usize| #[trigger] a.shape@.contains(j) ==> b.node(j).parent == a.node(j).parent && b.node(j).color
            == a.node(j).color,
    ensures
        b.red_pairs_only_at(Some(k)),
{
    assert forall|i: usize| #[trigger] b.red_pair(i) && b.shape@.contains(i) implies Some(i) == Some(k) by {
        if i != k {
            lemma_parent_link(a, i, None, Some(k));
            assert(a.red_pair(i));
        }
    }
}

/// Painting one node black makes no red pair, and leaves none below that node.
pub proof fn lemma_paint_black(a: PieceTree, b: PieceTree, x: usize)
    requires
        a.shaped(None, None),
        b.shape@ == a.shape@,
        a.occupied(x),
        b.nodes().len() == a.nodes().len(),
        forall|j: int| 0 <= j < a.nodes().len() && j != x ==> b.nodes()[j] == a.nodes()[j],
        b.node(x) == (Node { color: Color::Black, ..a.node(x) }),
    ensures
        forall|i: usize| #[trigger] b.red_pair(i) && b.shape@.contains(i) ==> a.red_pair(i) && i != x && b.node(i).parent
            != Some(x),
{
    assert forall|i: usize| #[trigger] b.red_pair(i) && b.shape@.contains(i) implies a.red_pair(i) && i != x
        && b.node(i).parent != Some(x) by {
        lemma_parent_link(a, i, None, None);
        assert(b.nodes()[i as int] == a.nodes()[i as int]);
        if let Some(q) = a.node(i).parent {
            assert(a.occupied(q));
            if q != x {
                assert(b.nodes()[q as int] == a.nodes()[q as int]);
            }
        }
    }
}

/// Painting red a node of a tree without red pairs, when the node's children are black,
/// makes at most that node a red pair.
pub proof fn lemma_paint_red(a: PieceTree, b: PieceTree, x: usize)
    requires
        a.shaped(None, None),
        b.shape@ == a.shape@,
        a.shape@.contains(x),
        b.nodes().len() == a.nodes().len(),
        forall|j: int| 0 <= j < a.nodes().len() && j != x ==> b.nodes()[j] == a.nodes()[j],
        b.node(x) == (Node { color: Color::Red, ..a.node(x) }),
        a.no_red_pairs(),
        a.node(x).left matches Some(l) ==> a.node(l).color == Color::Black,
        a.node(x).right matches Some(r) ==> a.node(r).color == Color::Black,
    ensures
        b.red_pairs_only_at(Some(x)),
{
    lemma_parent_link(a, x, None, None);
    assert forall|i: usize| #[trigger] b.red_pair(i) && b.shape@.contains(i) implies Some(i) == Some(x) by {
        lemma_parent_link(a, i, None, None);
        if i != x {
            assert(b.nodes()[i as int] == a.nodes()[i as int]);
            let q = a.node(i).parent->0;
            if q == x {
                assert(a.node(x).left == Some(i) || a.node(x).right == Some(i));
            } else {
                assert(a.occupied(q));
                assert(b.nodes()[q as int] == a.nodes()[q as int]);
                assert(a.red_pair(i));
            }
        }
    }
}

/// A rotation at `p` that lifts its child `c` and hands `c`'s inner child `m` over to `p`
/// makes no red pair but possibly at `p`, `c` or `m`.
pub proof fn lemma_rotation_pairs(a: PieceTree, b: PieceTree, p: usize, c: usize, m: Option<usize>)
    requires
        a.shaped(None, None),
        forall|j: usize| #[trigger] b.shape@.contains(j) == a.shape@.contains(j),
        same_colors(a, b),
        forall|j: usize| #[trigger] a.occupied(j) && j != p && j != c && Some(j) != m && Some(j) != a.node(p).parent
            ==> b.node(j) == a.node(j),
        b.node(c).parent == a.node(p).parent,
        b.node(p).parent == Some(c),
        m matches Some(mm) ==> b.node(mm).parent == Some(p),
        a.node(p).parent matches Some(pp) ==> b.node(pp).parent == a.node(pp).parent,
    ensures
        forall|i: usize| #[trigger] b.red_pair(i) && b.shape@.contains(i) ==> a.red_pair(i) || i == p || i == c || Some(i)
            == m,
{
    assert forall|i: usize| #[trigger] b.red_pair(i) && b.shape@.contains(i) implies a.red_pair(i) || i == p || i == c
        || Some(i) == m by {
        lemma_parent_link(a, i, None, None);
        if i != p && i != c && Some(i) != m {
            assert(b.node(i).parent == a.node(i).parent);
            if let Some(q) = a.node(i).parent {
                assert(a.occupied(q));
                assert(b.node(q).color == a.node(q).color);
            }
        }
    }
}

} // verus!

verus! {

/// 1 for a black node, 0 for a red one.
pub open spec fn black_of(nodes: Seq<Option<Node>>, i: usize) -> int {
    if node_of(nodes, i).color == Color::Black { 1 } else { 0 }
}

/// The number of black nodes on the leftmost path down a subtree.
pub open spec fn black_height(nodes: Seq<Option<Node>>, t: Shape) -> int
    decreases t,
{
    match t {
        Shape::Leaf => 0,
        Shape::Branch { id, left, .. } => black_height(nodes, *left) + black_of(nodes, id),
    }
}

/// Every path from the root of a subtree down to a leaf passes as many black nodes.
pub open spec fn balanced(nodes: Seq<Option<Node>>, t: Shape) -> bool
    decreases t,
{
    match t {
        Shape::Leaf => true,
        Shape::Branch { id, left, right } => {
            &&& balanced(nodes, *left)
            &&& balanced(nodes, *right)
            &&& black_height(nodes, *left) == black_height(nodes, *right)
        },
    }
}

/// Black heights and balance depend only on the colors of the subtree's nodes.
pub proof fn lemma_black_frame(a: Seq<Option<Node>>, b: Seq<Option<Node>>, t: Shape)
    requires
        forall|j: usize| #[trigger] t.contains(j) ==> node_of(b, j).color == node_of(a, j).color,
    ensures
        black_height(b, t) == black_height(a, t),
        balanced(b, t) == balanced(a, t),
    decreases t,
{
    if let Shape::Branch { id, left, right } = t {
        assert(t.contains(id));
        assert forall|j: usize| #[trigger] left.contains(j) implies node_of(b, j).color == node_of(a, j).color by {
            assert(t.contains(j));
        }
        assert forall|j: usize| #[trigger] right.contains(j) implies node_of(b, j).color == node_of(a, j).color by {
            assert(t.contains(j));
        }
        lemma_black_frame(a, b, *left);
        lemma_black_frame(a, b, *right);
    }
}

/// Putting in place of subtree `k` a balanced subtree of the same black height, without
/// changing colors elsewhere, keeps a tree balanced and its black height.
pub proof fn lemma_black_replace(a: Seq<Option<Node>>, b: Seq<Option<Node>>, t: Shape, k: usize, n: Shape)
    requires
        t.ordered(),
        t.contains(k),
        balanced(a, t),
        forall|j: usize| #[trigger] t.contains(j) && !t.subtree(k).contains(j) ==> node_of(b, j).color == node_of(a, j).color,
        balanced(b, n),
        black_height(b, n) == black_height(a, t.subtree(k)),
    ensures
        balanced(b, t.replace(k, n)),
        black_height(b, t.replace(k, n)) == black_height(a, t),
    decreases t,
{
    if let Shape::Branch { id, left, right } = t {
        crate::shape_facts::lemma_subtree(t, k);
        if k == id {
        } else if k < id {
            if right.contains(k) {
                assert(k > id);
            }
            assert(left.contains(k));
            crate::shape_facts::lemma_subtree(*left, k);
            assert forall|j: usize| #[trigger] left.contains(j) && !left.subtree(k).contains(j) implies node_of(b, j).color
                == node_of(a, j).color by {
                assert(t.contains(j));
            }
            lemma_black_replace(a, b, *left, k, n);
            assert forall|j: usize| #[trigger] right.contains(j) implies node_of(b, j).color == node_of(a, j).color by {
                assert(t.contains(j));
                assert(j > id);
            }
            lemma_black_frame(a, b, *right);
            if left.subtree(k).contains(id) {
                assert(left.contains(id));
            }
            assert(t.subtree(k) == left.subtree(k));
            assert(t.contains(id));
            assert(node_of(b, id).color == node_of(a, id).color);
        } else {
            if left.contains(k) {
                assert(k < id);
            }
            assert(right.contains(k));
            crate::shape_facts::lemma_subtree(*right, k);
            assert forall|j: usize| #[trigger] right.contains(j) && !right.subtree(k).contains(j) implies node_of(b, j).color
                == node_of(a, j).color by {
                assert(t.contains(j));
            }
            lemma_black_replace(a, b, *right, k, n);
            assert forall|j: usize| #[trigger] left.contains(j) implies node_of(b, j).color == node_of(a, j).color by {
                assert(t.contains(j));
                assert(j < id);
            }
            lemma_black_frame(a, b, *left);
            if right.subtree(k).contains(id) {
                assert(right.contains(id));
            }
            assert(t.subtree(k) == right.subtree(k));
            assert(t.contains(id));
            assert(node_of(b, id).color == node_of(a, id).color);
        }
    }
}

/// Putting a subtree back in its own place changes nothing.
pub proof fn lemma_replace_own(t: Shape, k: usize)
    requires
        t.ordered(),
        t.contains(k),
    ensures
        t.replace(k, t.subtree(k)) == t,
    decreases t,
{
    if let Shape::Branch { id, left, right } = t {
        if k < id {
            if right.contains(k) {
                assert(k > id);
            }
            assert(left.contains(k));
            lemma_replace_own(*left, k);
        } else if k > id {
            if left.contains(k) {
                assert(k < id);
            }
            assert(right.contains(k));
            lemma_replace_own(*right, k);
        }
    }
}

/// Shifting slots keeps black heights and balance.
pub proof fn lemma_black_shifted(nodes: Seq<Option<Node>>, t: Shape, pos: usize, x: Option<Node>)
    requires
        pos <= nodes.len(),
        nodes.len() < usize::MAX,
        forall|i: usize| #[trigger] t.contains(i) ==> (i as int) < nodes.len() && nodes[i as int] is Some,
    ensures
        black_height(crate::relabel::shifted_nodes(nodes, pos, x), crate::relabel::shifted(t, pos)) == black_height(
            nodes,
            t,
        ),
        balanced(crate::relabel::shifted_nodes(nodes, pos, x), crate::relabel::shifted(t, pos)) == balanced(nodes, t),
    decreases t,
{
    if let Shape::Branch { id, left, right } = t {
        assert(t.contains(id));
        crate::relabel::lemma_shifted_node(nodes, pos, x, id);
        assert forall|i: usize| #[trigger] left.contains(i) implies (i as int) < nodes.len() && nodes[i as int] is Some by {
            assert(t.contains(i));
        }
        assert forall|i: usize| #[trigger] right.contains(i) implies (i as int) < nodes.len() && nodes[i as int] is Some by {
            assert(t.contains(i));
        }
        lemma_black_shifted(nodes, *left, pos, x);
        lemma_black_shifted(nodes, *right, pos, x);
    }
}

} // verus!

verus! {

/// A subtree of a balanced tree is balanced.
pub proof fn lemma_balanced_subtree(a: Seq<Option<Node>>, t: Shape, k: usize)
    requires
        t.ordered(),
        balanced(a, t),
    ensures
        balanced(a, t.subtree(k)),
    decreases t,
{
    if let Shape::Branch { id, left, right } = t {
        if k < id {
            lemma_balanced_subtree(a, *left, k);
        } else if k > id {
            lemma_balanced_subtree(a, *right, k);
        }
    }
}

/// Hanging a red leaf where the tree has none keeps it balanced.
pub proof fn lemma_black_hung(a: Seq<Option<Node>>, b: Seq<Option<Node>>, t: Shape, c: usize, k: usize, go_left: bool)
    requires
        t.ordered(),
        t.contains(c),
        t.subtree(c).root() == Some(c),
        balanced(a, t),
        forall|j: usize| #[trigger] t.contains(j) ==> node_of(b, j).color == node_of(a, j).color,
        node_of(b, k).color == Color::Red,
        go_left ==> t.subtree(c).left_of() == Shape::Leaf,
        !go_left ==> t.subtree(c).right_of() == Shape::Leaf,
    ensures
        balanced(b, t.replace(c, crate::attach::hung(t, c, k, go_left))),
{
    let s = t.subtree(c);
    crate::shape_facts::lemma_subtree(t, c);
    lemma_balanced_subtree(a, t, c);
    let n = crate::attach::hung(t, c, k, go_left);
    let sk = crate::shape_facts::single(k);
    assert(black_height(b, sk) == 0) by {
        reveal_with_fuel(black_height, 2);
    }
    assert(balanced(b, sk)) by {
        reveal_with_fuel(balanced, 2);
        reveal_with_fuel(black_height, 2);
    }
    if let Shape::Branch { id, left, right } = s {
        assert(id == c);
        assert(s.contains(c));
        assert forall|j: usize| #[trigger] left.contains(j) implies node_of(b, j).color == node_of(a, j).color by {
            assert(s.contains(j));
        }
        assert forall|j: usize| #[trigger] right.contains(j) implies node_of(b, j).color == node_of(a, j).color by {
            assert(s.contains(j));
        }
        lemma_black_frame(a, b, *left);
        lemma_black_frame(a, b, *right);
    }
    lemma_black_replace(a, b, t, c, n);
}

} // verus!

verus! {

/// Recoloring a black node with two red children to red with black children keeps a tree
/// balanced and its black height.
pub proof fn lemma_black_recolor(a: Seq<Option<Node>>, b: Seq<Option<Node>>, t: Shape, g: usize)
    requires
        t.ordered(),
        t.contains(g),
        balanced(a, t),
        t.subtree(g).left_of() is Branch,
        t.subtree(g).right_of() is Branch,
        node_of(a, g).color == Color::Black,
        node_of(b, g).color == Color::Red,
        node_of(a, t.subtree(g).left_of().root()->0).color == Color::Red,
        node_of(a, t.subtree(g).right_of().root()->0).color == Color::Red,
        node_of(b, t.subtree(g).left_of().root()->0).color == Color::Black,
        node_of(b, t.subtree(g).right_of().root()->0).color == Color::Black,
        forall|j: usize| #[trigger] t.contains(j) && j != g && j != t.subtree(g).left_of().root()->0 && j != t.subtree(
            g,
        ).right_of().root()->0 ==> node_of(b, j).color == node_of(a, j).color,
    ensures
        balanced(b, t),
        black_height(b, t) == black_height(a, t),
{
    let s = t.subtree(g);
    crate::shape_facts::lemma_subtree(t, g);
    lemma_balanced_subtree(a, t, g);
    if let Shape::Branch { id, left, right } = s {
        if let Shape::Branch { id: x1, left: ll, right: lr } = *left {
            if let Shape::Branch { id: x2, left: rl, right: rr } = *right {
                assert(left.contains(x1) && right.contains(x2));
                assert(s.contains(x1) && s.contains(x2));
                assert(x1 < id && x2 > id);
                assert(s.ordered());
                assert(left.ordered() && right.ordered());
                assert forall|j: usize| #[trigger] ll.contains(j) implies node_of(b, j).color == node_of(a, j).color by {
                    assert(left.contains(j));
                    assert(j < x1 && j < id);
                    assert(s.contains(j));
                    assert(t.contains(j));
                }
                assert forall|j: usize| #[trigger] lr.contains(j) implies node_of(b, j).color == node_of(a, j).color by {
                    assert(left.contains(j));
                    assert(j > x1 && j < id);
                    assert(s.contains(j));
                    assert(t.contains(j));
                }
                assert forall|j: usize| #[trigger] rl.contains(j) implies node_of(b, j).color == node_of(a, j).color by {
                    assert(right.contains(j));
                    assert(j < x2 && j > id);
                    assert(s.contains(j));
                    assert(t.contains(j));
                }
                assert forall|j: usize| #[trigger] rr.contains(j) implies node_of(b, j).color == node_of(a, j).color by {
                    assert(right.contains(j));
                    assert(j > x2 && j > id);
                    assert(s.contains(j));
                    assert(t.contains(j));
                }
                lemma_black_frame(a, b, *ll);
                lemma_black_frame(a, b, *lr);
                lemma_black_frame(a, b, *rl);
                lemma_black_frame(a, b, *rr);
                assert forall|j: usize| #[trigger] t.contains(j) && !t.subtree(g).contains(j) implies node_of(b, j).color
                    == node_of(a, j).color by {
                    assert(j != g);
                }
                assert(balanced(a, *left) && balanced(a, *right));
                assert(black_height(a, *left) == black_height(a, *right));
                assert(balanced(a, *ll) && balanced(a, *lr) && balanced(a, *rl) && balanced(a, *rr));
                assert(black_height(a, *left) == black_height(a, *ll) + black_of(a, x1));
                assert(black_height(a, *right) == black_height(a, *rl) + black_of(a, x2));
                assert(black_height(b, *left) == black_height(b, *ll) + black_of(b, x1));
                assert(black_height(b, *right) == black_height(b, *rl) + black_of(b, x2));
                assert(balanced(b, *left) && balanced(b, *right));
                assert(balanced(b, s));
                lemma_black_replace(a, b, t, g, s);
                lemma_replace_own(t, g);
            }
        }
    }
}

/// Rotating at `p`, a red node whose inner child `x` (its right child for a left rotation)
/// is red too, keeps a tree balanced and its black height when no color changes.
pub proof fn lemma_black_triangle(a: Seq<Option<Node>>, b: Seq<Option<Node>>, t: Shape, p: usize, left_rotation: bool)
    requires
        t.ordered(),
        t.contains(p),
        balanced(a, t),
        left_rotation ==> t.subtree(p).right_of() is Branch,
        !left_rotation ==> t.subtree(p).left_of() is Branch,
        node_of(a, p).color == Color::Red,
        left_rotation ==> node_of(a, t.subtree(p).right_of().root()->0).color == Color::Red,
        !left_rotation ==> node_of(a, t.subtree(p).left_of().root()->0).color == Color::Red,
        forall|j: usize| #[trigger] t.contains(j) ==> node_of(b, j).color == node_of(a, j).color,
    ensures
        left_rotation ==> balanced(b, t.replace(p, crate::shape::rotated_left(t.subtree(p)))) && black_height(
            b,
            t.replace(p, crate::shape::rotated_left(t.subtree(p))),
        ) == black_height(a, t),
        !left_rotation ==> balanced(b, t.replace(p, crate::shape::rotated_right(t.subtree(p)))) && black_height(
            b,
            t.replace(p, crate::shape::rotated_right(t.subtree(p))),
        ) == black_height(a, t),
{
    let s = t.subtree(p);
    crate::shape_facts::lemma_subtree(t, p);
    lemma_balanced_subtree(a, t, p);
    assert forall|j: usize| #[trigger] s.contains(j) implies node_of(b, j).color == node_of(a, j).color by {
        assert(t.contains(j));
    }
    lemma_black_frame(a, b, s);
    if let Shape::Branch { id, left, right } = s {
        assert(s.contains(id));
        if left_rotation {
            if let Shape::Branch { id: x, left: bb, right: cc } = *right {
                assert(right.contains(x));
                assert(s.contains(x));
                assert forall|j: usize| #[trigger] left.contains(j) implies node_of(b, j).color == node_of(a, j).color by {
                    assert(s.contains(j));
                }
                lemma_black_frame(a, b, *left);
                assert forall|j: usize| #[trigger] bb.contains(j) implies node_of(b, j).color == node_of(a, j).color by {
                    assert(right.contains(j));
                    assert(s.contains(j));
                }
                assert forall|j: usize| #[trigger] cc.contains(j) implies node_of(b, j).color == node_of(a, j).color by {
                    assert(right.contains(j));
                    assert(s.contains(j));
                }
                lemma_black_frame(a, b, *bb);
                lemma_black_frame(a, b, *cc);
                let n = crate::shape::rotated_left(s);
                assert(t.contains(x));
                let inner = Shape::Branch { id, left, right: bb };
                assert(balanced(a, *left) && balanced(a, *right));
                assert(black_height(a, *left) == black_height(a, *right));
                assert(black_height(a, *right) == black_height(a, *bb) + black_of(a, x));
                assert(black_of(a, x) == 0);
                assert(balanced(a, *bb) && balanced(a, *cc));
                assert(black_height(a, *bb) == black_height(a, *cc));
                assert(black_height(b, inner) == black_height(b, *left) + black_of(b, id));
                assert(balanced(b, inner));
                assert(black_height(b, n) == black_height(b, inner) + black_of(b, x));
                assert(balanced(b, n));
                lemma_black_replace(a, b, t, p, n);
            }
        } else {
            if let Shape::Branch { id: x, left: aa, right: bb } = *left {
                assert(left.contains(x));
                assert(s.contains(x));
                assert forall|j: usize| #[trigger] right.contains(j) implies node_of(b, j).color == node_of(a, j).color by {
                    assert(s.contains(j));
                }
                lemma_black_frame(a, b, *right);
                assert forall|j: usize| #[trigger] aa.contains(j) implies node_of(b, j).color == node_of(a, j).color by {
                    assert(left.contains(j));
                    assert(s.contains(j));
                }
                assert forall|j: usize| #[trigger] bb.contains(j) implies node_of(b, j).color == node_of(a, j).color by {
                    assert(left.contains(j));
                    assert(s.contains(j));
                }
                lemma_black_frame(a, b, *aa);
                lemma_black_frame(a, b, *bb);
                let n = crate::shape::rotated_right(s);
                assert(t.contains(x));
                let inner = Shape::Branch { id, left: bb, right };
                assert(balanced(a, *left) && balanced(a, *right));
                assert(black_height(a, *left) == black_height(a, *right));
                assert(black_height(a, *left) == black_height(a, *aa) + black_of(a, x));
                assert(black_of(a, x) == 0);
                assert(balanced(a, *aa) && balanced(a, *bb));
                assert(black_height(a, *aa) == black_height(a, *bb));
                assert(black_height(b, inner) == black_height(b, *bb) + black_of(b, id));
                assert(balanced(b, inner));
                assert(black_height(b, n) == black_height(b, *aa) + black_of(b, x));
                assert(balanced(b, n));
                lemma_black_replace(a, b, t, p, n);
            }
        }
    }
}

/// Painting a red child `p` of a black node `g` black and `g` red, then rotating at `g` to
/// lift `p` (a right rotation when `p` is the left child), keeps a tree balanced and its black
/// height.
pub proof fn lemma_black_line(a: Seq<Option<Node>>, b: Seq<Option<Node>>, t: Shape, g: usize, p: usize, left: bool)
    requires
        t.ordered(),
        t.contains(g),
        balanced(a, t),
        left ==> t.subtree(g).left_of().root() == Some(p),
        !left ==> t.subtree(g).right_of().root() == Some(p),
        node_of(a, p).color == Color::Red,
        node_of(a, g).color == Color::Black,
        node_of(b, p).color == Color::Black,
        node_of(b, g).color == Color::Red,
        forall|j: usize| #[trigger] t.contains(j) && j != p && j != g ==> node_of(b, j).color == node_of(a, j).color,
    ensures
        left ==> balanced(b, t.replace(g, crate::shape::rotated_right(t.subtree(g)))) && black_height(
            b,
            t.replace(g, crate::shape::rotated_right(t.subtree(g))),
        ) == black_height(a, t),
        !left ==> balanced(b, t.replace(g, crate::shape::rotated_left(t.subtree(g)))) && black_height(
            b,
            t.replace(g, crate::shape::rotated_left(t.subtree(g))),
        ) == black_height(a, t),
{
    let s = t.subtree(g);
    crate::shape_facts::lemma_subtree(t, g);
    lemma_balanced_subtree(a, t, g);
    assert forall|j: usize| #[trigger] t.contains(j) && !t.subtree(g).contains(j) implies node_of(b, j).color
        == node_of(a, j).color by {
        if j == p {
            if let Shape::Branch { left: sl, right: sr, .. } = s {
                if left {
                    assert(sl.contains(p));
                } else {
                    assert(sr.contains(p));
                }
            }
        }
    }
    if let Shape::Branch { id, left: sl, right: sr } = s {
        assert(s.contains(id));
        if left {
            if let Shape::Branch { id: x, left: aa, right: cc } = *sl {
                assert(sl.contains(x));
                assert(s.contains(x));
                assert(x == p && x < id);
                assert(s.ordered());
                assert(sl.ordered());
                assert forall|j: usize| #[trigger] aa.contains(j) implies node_of(b, j).color == node_of(a, j).color by {
                    assert(sl.contains(j));
                    assert(j < x);
                    assert(s.contains(j));
                    assert(t.contains(j));
                }
                assert forall|j: usize| #[trigger] cc.contains(j) implies node_of(b, j).color == node_of(a, j).color by {
                    assert(sl.contains(j));
                    assert(j > x && j < id);
                    assert(s.contains(j));
                    assert(t.contains(j));
                }
                assert forall|j: usize| #[trigger] sr.contains(j) implies node_of(b, j).color == node_of(a, j).color by {
                    assert(j > id);
                    assert(s.contains(j));
                    assert(t.contains(j));
                }
                lemma_black_frame(a, b, *aa);
                lemma_black_frame(a, b, *cc);
                lemma_black_frame(a, b, *sr);
                let n = crate::shape::rotated_right(s);
                assert(t.contains(x));
                assert(balanced(a, *sl) && balanced(a, *sr));
                assert(black_height(a, *sl) == black_height(a, *sr));
                assert(black_height(a, *sl) == black_height(a, *aa) + black_of(a, x));
                assert(balanced(a, *aa) && balanced(a, *cc));
                assert(black_height(a, *aa) == black_height(a, *cc));
                let inner = Shape::Branch { id, left: cc, right: sr };
                assert(black_height(b, inner) == black_height(b, *cc) + black_of(b, id));
                assert(balanced(b, inner));
                assert(black_height(b, n) == black_height(b, *aa) + black_of(b, x));
                assert(balanced(b, n));
                lemma_black_replace(a, b, t, g, n);
            }
        } else {
            if let Shape::Branch { id: x, left: bb, right: cc } = *sr {
                assert(sr.contains(x));
                assert(s.contains(x));
                assert(x == p && x > id);
                assert(s.ordered());
                assert(sr.ordered());
                assert forall|j: usize| #[trigger] bb.contains(j) implies node_of(b, j).color == node_of(a, j).color by {
                    assert(sr.contains(j));
                    assert(j < x && j > id);
                    assert(s.contains(j));
                    assert(t.contains(j));
                }
                assert forall|j: usize| #[trigger] cc.contains(j) implies node_of(b, j).color == node_of(a, j).color by {
                    assert(sr.contains(j));
                    assert(j > x);
                    assert(s.contains(j));
                    assert(t.contains(j));
                }
                assert forall|j: usize| #[trigger] sl.contains(j) implies node_of(b, j).color == node_of(a, j).color by {
                    assert(j < id);
                    assert(s.contains(j));
                    assert(t.contains(j));
                }
                lemma_black_frame(a, b, *bb);
                lemma_black_frame(a, b, *cc);
                lemma_black_frame(a, b, *sl);
                let n = crate::shape::rotated_left(s);
                assert(t.contains(x));
                assert(balanced(a, *sl) && balanced(a, *sr));
                assert(black_height(a, *sl) == black_height(a, *sr));
                assert(black_height(a, *sr) == black_height(a, *bb) + black_of(a, x));
                assert(balanced(a, *bb) && balanced(a, *cc));
                assert(black_height(a, *bb) == black_height(a, *cc));
                let inner = Shape::Branch { id, left: sl, right: bb };
                assert(black_height(b, inner) == black_height(b, *sl) + black_of(b, id));
                assert(balanced(b, inner));
                assert(black_height(b, n) == black_height(b, inner) + black_of(b, x));
                assert(balanced(b, n));
                lemma_black_replace(a, b, t, g, n);
            }
        }
    }
}

/// Painting the root black keeps a tree balanced.
pub proof fn lemma_black_root(a: Seq<Option<Node>>, b: Seq<Option<Node>>, t: Shape)
    requires
        t.ordered(),
        balanced(a, t),
        forall|j: usize| #[trigger] t.contains(j) && Some(j) != t.root() ==> node_of(b, j).color == node_of(a, j).color,
    ensures
        balanced(b, t),
{
    if let Shape::Branch { id, left, right } = t {
        assert forall|j: usize| #[trigger] left.contains(j) implies node_of(b, j).color == node_of(a, j).color by {
            assert(t.contains(j));
        }
        assert forall|j: usize| #[trigger] right.contains(j) implies node_of(b, j).color == node_of(a, j).color by {
            assert(t.contains(j));
        }
        lemma_black_frame(a, b, *left);
        lemma_black_frame(a, b, *right);
    }
}

} // verus!

verus! {

/// The black balance after the recoloring step of the insertion fix-up.
pub proof fn lemma_recolor_step(a: PieceTree, b: PieceTree, idx: usize, p: usize, g: usize, u: usize)
    requires
        a.shaped(None, None),
        a.black_balanced(),
        a.red_pairs_only_at(Some(idx)),
        a.shape@.contains(idx),
        a.node(idx).parent == Some(p),
        a.node(p).parent == Some(g),
        a.node(p).color == Color::Red,
        a.node(u).parent == Some(g),
        a.node(u).color == Color::Red,
        a.shape@.contains(u),
        u != p,
        b.shape@ == a.shape@,
        b.nodes().len() == a.nodes().len(),
        forall|j: int| 0 <= j < a.nodes().len() && j != p && j != u && j != g ==> b.nodes()[j] == a.nodes()[j],
        b.node(p).color == Color::Black,
        b.node(u).color == Color::Black,
        b.node(g).color == Color::Red,
    ensures
        b.black_balanced(),
{
    a.lemma_shaped_basics(None, None);
    lemma_parent_link(a, idx, None, None);
    lemma_parent_link(a, p, None, None);
    lemma_parent_link(a, u, None, None);
    assert(!a.red_pair(p));
    let t = a.shape@;
    if p < g {
        assert(u > g);
        assert(t.subtree(g).left_of().root() == Some(p));
        assert(t.subtree(g).right_of().root() == Some(u));
    } else {
        assert(u < g);
        assert(t.subtree(g).left_of().root() == Some(u));
        assert(t.subtree(g).right_of().root() == Some(p));
    }
    assert forall|j: usize| #[trigger] t.contains(j) && j != g && j != t.subtree(g).left_of().root()->0 && j != t.subtree(
        g,
    ).right_of().root()->0 implies node_of(b.nodes(), j).color == node_of(a.nodes(), j).color by {
        assert(a.occupied(j));
    }
    lemma_black_recolor(a.nodes(), b.nodes(), t, g);
}

/// The black balance after a rotation at a red node with a red inner child.
pub proof fn lemma_triangle_step(a: PieceTree, b: PieceTree, idx: usize, p: usize, left_rotation: bool)
    requires
        a.shaped(None, None),
        a.black_balanced(),
        a.shape@.contains(idx),
        a.node(idx).parent == Some(p),
        left_rotation ==> a.node(p).right == Some(idx),
        !left_rotation ==> a.node(p).left == Some(idx),
        a.node(p).color == Color::Red,
        a.node(idx).color == Color::Red,
        same_colors(a, b),
        left_rotation ==> b.shape@ == a.shape@.replace(p, crate::shape::rotated_left(a.shape@.subtree(p))),
        !left_rotation ==> b.shape@ == a.shape@.replace(p, crate::shape::rotated_right(a.shape@.subtree(p))),
    ensures
        b.black_balanced(),
{
    a.lemma_shaped_basics(None, None);
    lemma_parent_link(a, idx, None, None);
    assert forall|j: usize| #[trigger] a.shape@.contains(j) implies node_of(b.nodes(), j).color == node_of(a.nodes(), j).color by {
        assert(a.occupied(j));
    }
    lemma_black_triangle(a.nodes(), b.nodes(), a.shape@, p, left_rotation);
}

/// The black balance after the paint-and-rotate step of the insertion fix-up.
pub proof fn lemma_line_step(a: PieceTree, c: PieceTree, b: PieceTree, idx: usize, p: usize, g: usize, left: bool)
    requires
        a.shaped(None, None),
        a.black_balanced(),
        a.red_pairs_only_at(Some(idx)),
        a.shape@.contains(p),
        idx != p,
        a.node(p).parent == Some(g),
        left ==> a.node(g).left == Some(p),
        !left ==> a.node(g).right == Some(p),
        a.node(p).color == Color::Red,
        c.shape@ == a.shape@,
        c.nodes().len() == a.nodes().len(),
        forall|j: int| 0 <= j < a.nodes().len() && j != p && j != g ==> c.nodes()[j] == a.nodes()[j],
        c.node(p).color == Color::Black,
        c.node(g).color == Color::Red,
        c.occupied(p),
        c.occupied(g),
        same_colors(c, b),
        left ==> b.shape@ == c.shape@.replace(g, crate::shape::rotated_right(c.shape@.subtree(g))),
        !left ==> b.shape@ == c.shape@.replace(g, crate::shape::rotated_left(c.shape@.subtree(g))),
    ensures
        b.black_balanced(),
{
    a.lemma_shaped_basics(None, None);
    lemma_parent_link(a, p, None, None);
    assert(!a.red_pair(p));
    let t = a.shape@;
    assert forall|j: usize| #[trigger] t.contains(j) && j != p && j != g implies node_of(b.nodes(), j).color == node_of(
        a.nodes(),
        j,
    ).color by {
        assert(a.occupied(j));
        assert(c.occupied(j));
    }
    assert(node_of(b.nodes(), p).color == Color::Black);
    assert(node_of(b.nodes(), g).color == Color::Red);
    lemma_black_line(a.nodes(), b.nodes(), t, g, p, left);
}

} // verus!
