use vstd::prelude::*;
use crate::arena::{Color, Node};
use crate::coloring::{balanced, black_height, black_of, lemma_black_frame};
use crate::shape::{node_of, rotated_left, rotated_right, Shape};
use crate::shape_facts::{lemma_subtree, lemma_subtree_links, single};
use crate::metadata::lemma_parent_link;
use crate::rebalance::{lemma_shaped_colors, same_but_colors, same_colors};
use crate::tree::PieceTree;

verus! {

/// One where the deficit `loc` lies on side `left` of node `id` (the left side when `left`),
/// else zero.
pub open spec fn deficit_at(loc: Option<(usize, bool)>, id: usize, left: bool) -> int {
    if loc == Some((id, left)) {
        1
    } else {
        0
    }
}

/// The black height of a subtree down its leftmost path, where the deficit `loc` counts as
/// one more black node.
pub open spec fn short_height(nodes: Seq<Option<Node>>, t: Shape, loc: Option<(usize, bool)>) -> int
    decreases t,
{
    match t {
        Shape::Leaf => 0,
        Shape::Branch { id, left, .. } => short_height(nodes, *left, loc) + deficit_at(loc, id, true) + black_of(
            nodes,
            id,
        ),
    }
}

/// Every path from the root of a subtree down to a leaf passes as many black nodes, but the
/// paths that leave node `loc.0` on side `loc.1`, which pass one black node fewer.
pub open spec fn short_balanced(nodes: Seq<Option<Node>>, t: Shape, loc: Option<(usize, bool)>) -> bool
    decreases t,
{
    match t {
        Shape::Leaf => true,
        Shape::Branch { id, left, right } => {
            &&& short_balanced(nodes, *left, loc)
            &&& short_balanced(nodes, *right, loc)
            &&& short_height(nodes, *left, loc) + deficit_at(loc, id, true) == short_height(nodes, *right, loc)
                + deficit_at(loc, id, false)
        },
    }
}

/// The node of the deficit, where there is one, lies in `t`.
pub open spec fn deficit_in(loc: Option<(usize, bool)>, t: Shape) -> bool {
    loc matches Some((p, _)) ==> t.contains(p)
}

/// Away from the deficit the counts are the plain ones.
pub proof fn lemma_short_plain(nodes: Seq<Option<Node>>, t: Shape, loc: Option<(usize, bool)>)
    requires
        loc matches Some((p, _)) ==> !t.contains(p),
    ensures
        short_height(nodes, t, loc) == black_height(nodes, t),
        short_balanced(nodes, t, loc) == balanced(nodes, t),
    decreases t,
{
    if let Shape::Branch { id, left, right } = t {
        lemma_short_plain(nodes, *left, loc);
        lemma_short_plain(nodes, *right, loc);
    }
}

/// The counts depend only on the colors of the subtree's nodes.
pub proof fn lemma_short_frame(a: Seq<Option<Node>>, b: Seq<Option<Node>>, t: Shape, loc: Option<(usize, bool)>)
    requires
        forall|j: usize| #[trigger] t.contains(j) ==> node_of(b, j).color == node_of(a, j).color,
    ensures
        short_height(b, t, loc) == short_height(a, t, loc),
        short_balanced(b, t, loc) == short_balanced(a, t, loc),
    decreases t,
{
    if let Shape::Branch { id, left, right } = t {
        assert(t.contains(id));
        assert forall|j: usize| #[trigger] left.contains(j) implies node_of(b, j).color == node_of(a, j).color by {
            assert(t.contains(j));
        }
        assert forall|j: usize| #[trigger] right.contains(j) implies node_of(b, j).color == node_of(a, j).color by {
            assert(t.contains(j));
        }
        lemma_short_frame(a, b, *left, loc);
        lemma_short_frame(a, b, *right, loc);
    }
}

/// A subtree of a tree balanced up to a deficit is balanced up to that deficit.
pub proof fn lemma_short_subtree(a: Seq<Option<Node>>, t: Shape, k: usize, loc: Option<(usize, bool)>)
    requires
        t.ordered(),
        short_balanced(a, t, loc),
    ensures
        short_balanced(a, t.subtree(k), loc),
    decreases t,
{
    if let Shape::Branch { id, left, right } = t {
        if k < id {
            lemma_short_subtree(a, *left, k, loc);
        } else if k > id {
            lemma_short_subtree(a, *right, k, loc);
        }
    }
}

/// Putting in place of subtree `k` a subtree that is balanced up to a deficit inside it, with
/// the same height, keeps the tree balanced up to that deficit, when the old deficit lay in
/// subtree `k` too and no color outside it changes.
pub proof fn lemma_short_replace(
    a: Seq<Option<Node>>,
    b: Seq<Option<Node>>,
    t: Shape,
    k: usize,
    n: Shape,
    l1: Option<(usize, bool)>,
    l2: Option<(usize, bool)>,
)
    requires
        t.ordered(),
        t.contains(k),
        short_balanced(a, t, l1),
        deficit_in(l1, t.subtree(k)),
        deficit_in(l2, t.subtree(k)),
        forall|j: usize| #[trigger] t.contains(j) && !t.subtree(k).contains(j) ==> node_of(b, j).color == node_of(a, j).color,
        short_balanced(b, n, l2),
        short_height(b, n, l2) == short_height(a, t.subtree(k), l1),
    ensures
        short_balanced(b, t.replace(k, n), l2),
        short_height(b, t.replace(k, n), l2) == short_height(a, t, l1),
    decreases t,
{
    if let Shape::Branch { id, left, right } = t {
        crate::shape_facts::lemma_subtree(t, k);
        if k == id {
        } else if k < id {
            if right.contains(k) {
                assert(k > id);
            }
            assert(left.contains(k));
            crate::shape_facts::lemma_subtree(*left, k);
            assert(t.subtree(k) == left.subtree(k));
            assert forall|j: usize| #[trigger] left.contains(j) && !left.subtree(k).contains(j) implies node_of(b, j).color
                == node_of(a, j).color by {
                assert(t.contains(j));
            }
            lemma_short_replace(a, b, *left, k, n, l1, l2);
            assert forall|j: usize| #[trigger] right.contains(j) implies node_of(b, j).color == node_of(a, j).color by {
                assert(t.contains(j));
                assert(j > id);
                if left.subtree(k).contains(j) {
                    assert(left.contains(j));
                }
            }
            if let Some((p, _)) = l1 {
                assert(left.contains(p));
                assert(p < id);
            }
            if let Some((p, _)) = l2 {
                assert(left.contains(p));
                assert(p < id);
            }
            lemma_short_plain(a, *right, l1);
            lemma_short_plain(b, *right, l2);
            lemma_black_frame(a, b, *right);
            if left.subtree(k).contains(id) {
                assert(left.contains(id));
            }
            assert(t.contains(id));
            assert(node_of(b, id).color == node_of(a, id).color);
        } else {
            if left.contains(k) {
                assert(k < id);
            }
            assert(right.contains(k));
            crate::shape_facts::lemma_subtree(*right, k);
            assert(t.subtree(k) == right.subtree(k));
            assert forall|j: usize| #[trigger] right.contains(j) && !right.subtree(k).contains(j) implies node_of(b, j).color
                == node_of(a, j).color by {
                assert(t.contains(j));
            }
            lemma_short_replace(a, b, *right, k, n, l1, l2);
            assert forall|j: usize| #[trigger] left.contains(j) implies node_of(b, j).color == node_of(a, j).color by {
                assert(t.contains(j));
                assert(j < id);
                if right.subtree(k).contains(j) {
                    assert(right.contains(j));
                }
            }
            if let Some((p, _)) = l1 {
                assert(right.contains(p));
                assert(p > id);
            }
            if let Some((p, _)) = l2 {
                assert(right.contains(p));
                assert(p > id);
            }
            lemma_short_plain(a, *left, l1);
            lemma_short_plain(b, *left, l2);
            lemma_black_frame(a, b, *left);
            if right.subtree(k).contains(id) {
                assert(right.contains(id));
            }
            assert(t.contains(id));
            assert(node_of(b, id).color == node_of(a, id).color);
        }
    }
}

/// Putting in place of subtree `k` a balanced subtree of the same black height keeps a tree
/// balanced up to a deficit that lies outside subtree `k`, when no color outside it changes.
pub proof fn lemma_short_replace_away(
    a: Seq<Option<Node>>,
    b: Seq<Option<Node>>,
    t: Shape,
    k: usize,
    n: Shape,
    l: Option<(usize, bool)>,
)
    requires
        t.ordered(),
        t.contains(k),
        short_balanced(a, t, l),
        l matches Some((q, _)) ==> !t.subtree(k).contains(q) && !n.contains(q),
        forall|j: usize| #[trigger] t.contains(j) && !t.subtree(k).contains(j) ==> node_of(b, j).color == node_of(a, j).color,
        balanced(b, n),
        black_height(b, n) == black_height(a, t.subtree(k)),
    ensures
        short_balanced(b, t.replace(k, n), l),
        short_height(b, t.replace(k, n), l) == short_height(a, t, l),
    decreases t,
{
    if let Shape::Branch { id, left, right } = t {
        lemma_subtree(t, k);
        if k == id {
            lemma_short_plain(a, t, l);
            lemma_short_plain(b, n, l);
        } else if k < id {
            if right.contains(k) {
                assert(k > id);
            }
            assert(left.contains(k));
            lemma_subtree(*left, k);
            assert(t.subtree(k) == left.subtree(k));
            assert forall|j: usize| #[trigger] left.contains(j) && !left.subtree(k).contains(j) implies node_of(b, j).color
                == node_of(a, j).color by {
                assert(t.contains(j));
            }
            lemma_short_replace_away(a, b, *left, k, n, l);
            assert forall|j: usize| #[trigger] right.contains(j) implies node_of(b, j).color == node_of(a, j).color by {
                assert(t.contains(j));
                assert(j > id);
                if left.subtree(k).contains(j) {
                    assert(left.contains(j));
                }
            }
            lemma_short_frame(a, b, *right, l);
            if left.subtree(k).contains(id) {
                assert(left.contains(id));
            }
            assert(t.contains(id));
            assert(node_of(b, id).color == node_of(a, id).color);
        } else {
            if left.contains(k) {
                assert(k < id);
            }
            assert(right.contains(k));
            lemma_subtree(*right, k);
            assert(t.subtree(k) == right.subtree(k));
            assert forall|j: usize| #[trigger] right.contains(j) && !right.subtree(k).contains(j) implies node_of(b, j).color
                == node_of(a, j).color by {
                assert(t.contains(j));
            }
            lemma_short_replace_away(a, b, *right, k, n, l);
            assert forall|j: usize| #[trigger] left.contains(j) implies node_of(b, j).color == node_of(a, j).color by {
                assert(t.contains(j));
                assert(j < id);
                if right.subtree(k).contains(j) {
                    assert(right.contains(j));
                }
            }
            lemma_short_frame(a, b, *left, l);
            if right.subtree(k).contains(id) {
                assert(right.contains(id));
            }
            assert(t.contains(id));
            assert(node_of(b, id).color == node_of(a, id).color);
        }
    }
}

/// A deficit beside a red sibling: painting the sibling black and the parent red and rotating
/// the sibling up keeps the deficit where it was, now beside a black sibling.
pub proof fn lemma_short_red_sibling(a: Seq<Option<Node>>, b: Seq<Option<Node>>, t: Shape, p: usize, s: usize, left: bool)
    requires
        t.ordered(),
        t.contains(p),
        short_balanced(a, t, Some((p, left))),
        left ==> t.subtree(p).right_of().root() == Some(s),
        !left ==> t.subtree(p).left_of().root() == Some(s),
        node_of(a, p).color == Color::Black,
        node_of(a, s).color == Color::Red,
        node_of(b, p).color == Color::Red,
        node_of(b, s).color == Color::Black,
        forall|j: usize| #[trigger] t.contains(j) && j != p && j != s ==> node_of(b, j).color == node_of(a, j).color,
    ensures
        left ==> short_balanced(b, t.replace(p, rotated_left(t.subtree(p))), Some((p, true))),
        !left ==> short_balanced(b, t.replace(p, rotated_right(t.subtree(p))), Some((p, false))),
{
    let sp = t.subtree(p);
    let l = Some((p, left));
    lemma_subtree(t, p);
    lemma_short_subtree(a, t, p, l);
    if let Shape::Branch { id, left: xl, right: xr } = sp {
        assert(id == p);
        assert(sp.ordered());
        assert(xl.ordered() && xr.ordered());
        if left {
            assert(xr.contains(s));
        } else {
            assert(xl.contains(s));
        }
        assert(sp.contains(s));
        assert forall|j: usize| #[trigger] t.contains(j) && !sp.contains(j) implies node_of(b, j).color == node_of(
            a,
            j,
        ).color by {
            assert(sp.contains(p));
        }
        if left {
            if let Shape::Branch { id: sid, left: aa, right: bb } = *xr {
                assert(sid == s);
                assert(xr.contains(s));
                assert forall|j: usize| #[trigger] xl.contains(j) implies node_of(b, j).color == node_of(a, j).color by {
                    assert(sp.contains(j));
                    assert(j < p);
                    assert(t.contains(j));
                }
                assert forall|j: usize| #[trigger] aa.contains(j) implies node_of(b, j).color == node_of(a, j).color by {
                    assert(xr.contains(j));
                    assert(sp.contains(j));
                    assert(j > p && j < s);
                    assert(t.contains(j));
                }
                assert forall|j: usize| #[trigger] bb.contains(j) implies node_of(b, j).color == node_of(a, j).color by {
                    assert(xr.contains(j));
                    assert(sp.contains(j));
                    assert(j > s);
                    assert(t.contains(j));
                }
                if xl.contains(p) {
                    assert(p < p);
                }
                if aa.contains(p) {
                    assert(xr.contains(p));
                }
                if bb.contains(p) {
                    assert(xr.contains(p));
                }
                lemma_black_frame(a, b, *xl);
                lemma_black_frame(a, b, *aa);
                lemma_black_frame(a, b, *bb);
                lemma_short_plain(a, *xl, l);
                lemma_short_plain(b, *xl, l);
                lemma_short_plain(a, *aa, l);
                lemma_short_plain(b, *aa, l);
                lemma_short_plain(a, *bb, l);
                lemma_short_plain(b, *bb, l);
                let inner = Shape::Branch { id: p, left: xl, right: aa };
                let n = Shape::Branch { id: s, left: Box::new(inner), right: bb };
                assert(n == rotated_left(sp));
                assert(short_balanced(a, *xl, l) && short_balanced(a, *xr, l));
                assert(short_height(a, *xl, l) + 1 == short_height(a, *xr, l));
                assert(short_height(a, *xr, l) == short_height(a, *aa, l));
                assert(short_balanced(a, *aa, l) && short_balanced(a, *bb, l));
                assert(short_height(a, *aa, l) == short_height(a, *bb, l));
                assert(short_height(b, inner, l) == black_height(b, *xl) + 1 + black_of(b, p));
                assert(short_balanced(b, inner, l));
                assert(short_balanced(b, n, l));
                assert(short_height(b, n, l) == short_height(a, sp, l));
                lemma_short_replace(a, b, t, p, n, l, l);
            }
        } else {
            if let Shape::Branch { id: sid, left: aa, right: bb } = *xl {
                assert(sid == s);
                assert(xl.contains(s));
                assert forall|j: usize| #[trigger] xr.contains(j) implies node_of(b, j).color == node_of(a, j).color by {
                    assert(sp.contains(j));
                    assert(j > p);
                    assert(t.contains(j));
                }
                assert forall|j: usize| #[trigger] aa.contains(j) implies node_of(b, j).color == node_of(a, j).color by {
                    assert(xl.contains(j));
                    assert(sp.contains(j));
                    assert(j < s);
                    assert(t.contains(j));
                }
                assert forall|j: usize| #[trigger] bb.contains(j) implies node_of(b, j).color == node_of(a, j).color by {
                    assert(xl.contains(j));
                    assert(sp.contains(j));
                    assert(j > s && j < p);
                    assert(t.contains(j));
                }
                if xr.contains(p) {
                    assert(p > p);
                }
                if aa.contains(p) {
                    assert(xl.contains(p));
                }
                if bb.contains(p) {
                    assert(xl.contains(p));
                }
                lemma_black_frame(a, b, *xr);
                lemma_black_frame(a, b, *aa);
                lemma_black_frame(a, b, *bb);
                lemma_short_plain(a, *xr, l);
                lemma_short_plain(b, *xr, l);
                lemma_short_plain(a, *aa, l);
                lemma_short_plain(b, *aa, l);
                lemma_short_plain(a, *bb, l);
                lemma_short_plain(b, *bb, l);
                let inner = Shape::Branch { id: p, left: bb, right: xr };
                let n = Shape::Branch { id: s, left: aa, right: Box::new(inner) };
                assert(n == rotated_right(sp));
                assert(short_balanced(a, *xl, l) && short_balanced(a, *xr, l));
                assert(short_height(a, *xl, l) == short_height(a, *xr, l) + 1);
                assert(short_height(a, *xl, l) == short_height(a, *aa, l));
                assert(short_balanced(a, *aa, l) && short_balanced(a, *bb, l));
                assert(short_height(a, *aa, l) == short_height(a, *bb, l));
                assert(short_height(b, inner, l) == black_height(b, *bb) + black_of(b, p));
                assert(short_balanced(b, inner, l));
                assert(short_balanced(b, n, l));
                assert(short_height(b, n, l) == short_height(a, sp, l));
                lemma_short_replace(a, b, t, p, n, l, l);
            }
        }
    }
}

/// A deficit beside a black sibling: painting the sibling red and the parent black leaves
/// the parent's subtree balanced, one black node lower than its count with the deficit when
/// the parent was black, as high when it was red.
pub proof fn lemma_short_recolor(a: Seq<Option<Node>>, b: Seq<Option<Node>>, t: Shape, p: usize, s: usize, left: bool)
    requires
        t.ordered(),
        t.contains(p),
        short_balanced(a, t, Some((p, left))),
        left ==> t.subtree(p).right_of().root() == Some(s),
        !left ==> t.subtree(p).left_of().root() == Some(s),
        node_of(a, s).color == Color::Black,
        node_of(b, s).color == Color::Red,
        node_of(b, p).color == Color::Black,
        forall|j: usize| #[trigger] t.contains(j) && j != p && j != s ==> node_of(b, j).color == node_of(a, j).color,
    ensures
        balanced(b, t.subtree(p)),
        black_height(b, t.subtree(p)) + black_of(a, p) == short_height(a, t.subtree(p), Some((p, left))),
{
    let sp = t.subtree(p);
    let l = Some((p, left));
    lemma_subtree(t, p);
    lemma_short_subtree(a, t, p, l);
    if let Shape::Branch { id, left: xl, right: xr } = sp {
        assert(id == p);
        assert(sp.ordered());
        assert(xl.ordered() && xr.ordered());
        if left {
            if let Shape::Branch { id: sid, left: aa, right: bb } = *xr {
                assert(sid == s);
                assert(xr.contains(s));
                assert forall|j: usize| #[trigger] xl.contains(j) implies node_of(b, j).color == node_of(a, j).color by {
                    assert(sp.contains(j));
                    assert(j < p);
                    assert(t.contains(j));
                }
                assert forall|j: usize| #[trigger] aa.contains(j) implies node_of(b, j).color == node_of(a, j).color by {
                    assert(xr.contains(j));
                    assert(sp.contains(j));
                    assert(j > p && j < s);
                    assert(t.contains(j));
                }
                assert forall|j: usize| #[trigger] bb.contains(j) implies node_of(b, j).color == node_of(a, j).color by {
                    assert(xr.contains(j));
                    assert(sp.contains(j));
                    assert(j > s);
                    assert(t.contains(j));
                }
                if xl.contains(p) {
                    assert(p < p);
                }
                if aa.contains(p) {
                    assert(xr.contains(p));
                }
                if bb.contains(p) {
                    assert(xr.contains(p));
                }
                lemma_black_frame(a, b, *xl);
                lemma_black_frame(a, b, *aa);
                lemma_black_frame(a, b, *bb);
                lemma_short_plain(a, *xl, l);
                lemma_short_plain(a, *aa, l);
                lemma_short_plain(a, *bb, l);
                assert(short_balanced(a, *xl, l) && short_balanced(a, *xr, l));
                assert(short_height(a, *xl, l) + 1 == short_height(a, *xr, l));
                assert(short_height(a, *xr, l) == short_height(a, *aa, l) + 1);
                assert(short_balanced(a, *aa, l) && short_balanced(a, *bb, l));
                assert(short_height(a, *aa, l) == short_height(a, *bb, l));
                assert(black_height(b, *xr) == black_height(b, *aa));
                assert(balanced(b, *xr));
                assert(balanced(b, sp));
            }
        } else {
            if let Shape::Branch { id: sid, left: aa, right: bb } = *xl {
                assert(sid == s);
                assert(xl.contains(s));
                assert forall|j: usize| #[trigger] xr.contains(j) implies node_of(b, j).color == node_of(a, j).color by {
                    assert(sp.contains(j));
                    assert(j > p);
                    assert(t.contains(j));
                }
                assert forall|j: usize| #[trigger] aa.contains(j) implies node_of(b, j).color == node_of(a, j).color by {
                    assert(xl.contains(j));
                    assert(sp.contains(j));
                    assert(j < s);
                    assert(t.contains(j));
                }
                assert forall|j: usize| #[trigger] bb.contains(j) implies node_of(b, j).color == node_of(a, j).color by {
                    assert(xl.contains(j));
                    assert(sp.contains(j));
                    assert(j > s && j < p);
                    assert(t.contains(j));
                }
                if xr.contains(p) {
                    assert(p > p);
                }
                if aa.contains(p) {
                    assert(xl.contains(p));
                }
                if bb.contains(p) {
                    assert(xl.contains(p));
                }
                lemma_black_frame(a, b, *xr);
                lemma_black_frame(a, b, *aa);
                lemma_black_frame(a, b, *bb);
                lemma_short_plain(a, *xr, l);
                lemma_short_plain(a, *aa, l);
                lemma_short_plain(a, *bb, l);
                assert(short_balanced(a, *xl, l) && short_balanced(a, *xr, l));
                assert(short_height(a, *xl, l) == short_height(a, *xr, l) + 1);
                assert(short_height(a, *xl, l) == short_height(a, *aa, l) + 1);
                assert(short_balanced(a, *aa, l) && short_balanced(a, *bb, l));
                assert(short_height(a, *aa, l) == short_height(a, *bb, l));
                assert(black_height(b, *xl) == black_height(b, *aa));
                assert(balanced(b, *xl));
                assert(balanced(b, sp));
            }
        }
    }
}

/// A deficit moves up: when the subtree of `p`, the child of `g` on side `pleft`, holding the
/// deficit, became balanced one black node lower, the tree is balanced up to a deficit on
/// that side of `g`.
pub proof fn lemma_short_up(
    a: Seq<Option<Node>>,
    b: Seq<Option<Node>>,
    t: Shape,
    g: usize,
    p: usize,
    pleft: bool,
    l1: Option<(usize, bool)>,
)
    requires
        t.ordered(),
        t.contains(g),
        t.contains(p),
        short_balanced(a, t, l1),
        pleft ==> t.subtree(g).left_of() == t.subtree(p),
        !pleft ==> t.subtree(g).right_of() == t.subtree(p),
        deficit_in(l1, t.subtree(p)),
        forall|j: usize| #[trigger] t.contains(j) && !t.subtree(p).contains(j) ==> node_of(b, j).color == node_of(a, j).color,
        balanced(b, t.subtree(p)),
        black_height(b, t.subtree(p)) + 1 == short_height(a, t.subtree(p), l1),
    ensures
        short_balanced(b, t, Some((g, pleft))),
{
    let sg = t.subtree(g);
    let l2 = Some((g, pleft));
    lemma_subtree(t, g);
    lemma_subtree(t, p);
    lemma_short_subtree(a, t, g, l1);
    if let Shape::Branch { id, left: gl, right: gr } = sg {
        assert(id == g);
        assert(sg.ordered());
        assert(sg.contains(g));
        assert forall|j: usize| #[trigger] t.subtree(p).contains(j) implies sg.contains(j) by {
            if pleft {
                assert(gl.contains(j));
            } else {
                assert(gr.contains(j));
            }
        }
        assert forall|j: usize| #[trigger] t.contains(j) && !sg.contains(j) implies node_of(b, j).color == node_of(a, j).color by {
        }
        if pleft {
            assert forall|j: usize| #[trigger] gr.contains(j) implies node_of(b, j).color == node_of(a, j).color by {
                assert(sg.contains(j));
                assert(t.contains(j));
                if gl.contains(j) {
                    assert(j < g);
                }
            }
            if let Some((q, _)) = l1 {
                assert(gl.contains(q));
                assert(q < g);
                if gr.contains(q) {
                    assert(q > g);
                }
            }
            if gl.contains(g) {
                assert(g < g);
            }
            if gr.contains(g) {
                assert(g > g);
            }
            lemma_short_plain(a, *gr, l1);
            lemma_short_plain(b, *gr, l2);
            lemma_short_plain(b, *gl, l2);
            lemma_black_frame(a, b, *gr);
            assert(short_balanced(a, *gl, l1) && short_balanced(a, *gr, l1));
            assert(short_height(a, *gl, l1) == short_height(a, *gr, l1));
            assert(short_balanced(b, sg, l2));
            assert(short_height(b, sg, l2) == short_height(a, sg, l1));
        } else {
            assert forall|j: usize| #[trigger] gl.contains(j) implies node_of(b, j).color == node_of(a, j).color by {
                assert(sg.contains(j));
                assert(t.contains(j));
                if gr.contains(j) {
                    assert(j > g);
                }
            }
            if let Some((q, _)) = l1 {
                assert(gr.contains(q));
                assert(q > g);
                if gl.contains(q) {
                    assert(q < g);
                }
            }
            if gl.contains(g) {
                assert(g < g);
            }
            if gr.contains(g) {
                assert(g > g);
            }
            lemma_short_plain(a, *gl, l1);
            lemma_short_plain(b, *gl, l2);
            lemma_short_plain(b, *gr, l2);
            lemma_black_frame(a, b, *gl);
            assert(short_balanced(a, *gl, l1) && short_balanced(a, *gr, l1));
            assert(short_height(a, *gl, l1) == short_height(a, *gr, l1));
            assert(short_balanced(b, sg, l2));
            assert(short_height(b, sg, l2) == short_height(a, sg, l1));
        }
        lemma_short_replace(a, b, t, g, sg, l1, l2);
        crate::coloring::lemma_replace_own(t, g);
    }
}

/// A black sibling `s` whose inner child `c` is red: painting `c` black and `s` red and
/// rotating `c` up keeps a tree balanced up to a deficit outside the sibling's subtree.
pub proof fn lemma_short_near_red(
    a: Seq<Option<Node>>,
    b: Seq<Option<Node>>,
    t: Shape,
    s: usize,
    c: usize,
    left: bool,
    l: Option<(usize, bool)>,
)
    requires
        t.ordered(),
        t.contains(s),
        short_balanced(a, t, l),
        l matches Some((q, _)) ==> !t.subtree(s).contains(q),
        left ==> t.subtree(s).left_of().root() == Some(c),
        !left ==> t.subtree(s).right_of().root() == Some(c),
        node_of(a, s).color == Color::Black,
        node_of(a, c).color == Color::Red,
        node_of(b, s).color == Color::Red,
        node_of(b, c).color == Color::Black,
        forall|j: usize| #[trigger] t.contains(j) && j != s && j != c ==> node_of(b, j).color == node_of(a, j).color,
    ensures
        left ==> short_balanced(b, t.replace(s, rotated_right(t.subtree(s))), l),
        !left ==> short_balanced(b, t.replace(s, rotated_left(t.subtree(s))), l),
{
    let ss = t.subtree(s);
    lemma_subtree(t, s);
    lemma_short_subtree(a, t, s, l);
    lemma_short_plain(a, ss, l);
    if let Shape::Branch { id, left: sl, right: sr } = ss {
        assert(id == s);
        assert(ss.ordered());
        assert(sl.ordered() && sr.ordered());
        assert(ss.contains(s));
        if left {
            if let Shape::Branch { id: cid, left: cc, right: dd } = *sl {
                assert(cid == c);
                assert(sl.contains(c));
                assert(ss.contains(c));
                assert forall|j: usize| #[trigger] cc.contains(j) implies node_of(b, j).color == node_of(a, j).color by {
                    assert(sl.contains(j));
                    assert(ss.contains(j));
                    assert(j < c);
                    assert(t.contains(j));
                }
                assert forall|j: usize| #[trigger] dd.contains(j) implies node_of(b, j).color == node_of(a, j).color by {
                    assert(sl.contains(j));
                    assert(ss.contains(j));
                    assert(j > c && j < s);
                    assert(t.contains(j));
                }
                assert forall|j: usize| #[trigger] sr.contains(j) implies node_of(b, j).color == node_of(a, j).color by {
                    assert(ss.contains(j));
                    assert(j > s);
                    assert(t.contains(j));
                }
                lemma_black_frame(a, b, *cc);
                lemma_black_frame(a, b, *dd);
                lemma_black_frame(a, b, *sr);
                let inner = Shape::Branch { id: s, left: dd, right: sr };
                let n = Shape::Branch { id: c, left: cc, right: Box::new(inner) };
                assert(n == rotated_right(ss));
                assert(balanced(a, *sl) && balanced(a, *sr));
                assert(black_height(a, *sl) == black_height(a, *sr));
                assert(black_height(a, *sl) == black_height(a, *cc));
                assert(balanced(a, *cc) && balanced(a, *dd));
                assert(black_height(a, *cc) == black_height(a, *dd));
                assert(balanced(b, inner));
                assert(black_height(b, inner) == black_height(b, *dd));
                assert(balanced(b, n));
                assert(black_height(b, n) == black_height(a, ss));
                assert forall|j: usize| #[trigger] t.contains(j) && !ss.contains(j) implies node_of(b, j).color == node_of(
                    a,
                    j,
                ).color by {
                }
                if let Some((q, _)) = l {
                    if n.contains(q) {
                        assert(inner.contains(q) || cc.contains(q) || q == c);
                        if inner.contains(q) {
                            assert(q == s || dd.contains(q) || sr.contains(q));
                        }
                        if q == c || cc.contains(q) || dd.contains(q) {
                            assert(sl.contains(q));
                        }
                        assert(ss.contains(q));
                    }
                }
                lemma_short_replace_away(a, b, t, s, n, l);
            }
        } else {
            if let Shape::Branch { id: cid, left: cc, right: dd } = *sr {
                assert(cid == c);
                assert(sr.contains(c));
                assert(ss.contains(c));
                assert forall|j: usize| #[trigger] cc.contains(j) implies node_of(b, j).color == node_of(a, j).color by {
                    assert(sr.contains(j));
                    assert(ss.contains(j));
                    assert(j < c && j > s);
                    assert(t.contains(j));
                }
                assert forall|j: usize| #[trigger] dd.contains(j) implies node_of(b, j).color == node_of(a, j).color by {
                    assert(sr.contains(j));
                    assert(ss.contains(j));
                    assert(j > c);
                    assert(t.contains(j));
                }
                assert forall|j: usize| #[trigger] sl.contains(j) implies node_of(b, j).color == node_of(a, j).color by {
                    assert(ss.contains(j));
                    assert(j < s);
                    assert(t.contains(j));
                }
                lemma_black_frame(a, b, *cc);
                lemma_black_frame(a, b, *dd);
                lemma_black_frame(a, b, *sl);
                let inner = Shape::Branch { id: s, left: sl, right: cc };
                let n = Shape::Branch { id: c, left: Box::new(inner), right: dd };
                assert(n == rotated_left(ss));
                assert(balanced(a, *sl) && balanced(a, *sr));
                assert(black_height(a, *sl) == black_height(a, *sr));
                assert(black_height(a, *sr) == black_height(a, *cc));
                assert(balanced(a, *cc) && balanced(a, *dd));
                assert(black_height(a, *cc) == black_height(a, *dd));
                assert(balanced(b, inner));
                assert(black_height(b, inner) == black_height(b, *sl));
                assert(balanced(b, n));
                assert(black_height(b, n) == black_height(a, ss));
                assert forall|j: usize| #[trigger] t.contains(j) && !ss.contains(j) implies node_of(b, j).color == node_of(
                    a,
                    j,
                ).color by {
                }
                if let Some((q, _)) = l {
                    if n.contains(q) {
                        assert(inner.contains(q) || dd.contains(q) || q == c);
                        if inner.contains(q) {
                            assert(q == s || sl.contains(q) || cc.contains(q));
                        }
                        if q == c || cc.contains(q) || dd.contains(q) {
                            assert(sr.contains(q));
                        }
                        assert(ss.contains(q));
                    }
                }
                lemma_short_replace_away(a, b, t, s, n, l);
            }
        }
    }
}

/// A deficit beside a black sibling `s` whose outer child `r` is red: giving the sibling the
/// parent's color, painting the parent and `r` black and rotating the sibling up ends the
/// deficit.
pub proof fn lemma_short_far_red(
    a: Seq<Option<Node>>,
    b: Seq<Option<Node>>,
    t: Shape,
    p: usize,
    s: usize,
    r: usize,
    left: bool,
)
    requires
        t.ordered(),
        t.contains(p),
        short_balanced(a, t, Some((p, left))),
        left ==> t.subtree(p).right_of().root() == Some(s),
        left ==> t.subtree(p).right_of().right_of().root() == Some(r),
        !left ==> t.subtree(p).left_of().root() == Some(s),
        !left ==> t.subtree(p).left_of().left_of().root() == Some(r),
        node_of(a, s).color == Color::Black,
        node_of(a, r).color == Color::Red,
        node_of(b, s).color == node_of(a, p).color,
        node_of(b, p).color == Color::Black,
        node_of(b, r).color == Color::Black,
        forall|j: usize| #[trigger] t.contains(j) && j != p && j != s && j != r ==> node_of(b, j).color == node_of(
            a,
            j,
        ).color,
    ensures
        left ==> balanced(b, t.replace(p, rotated_left(t.subtree(p)))),
        !left ==> balanced(b, t.replace(p, rotated_right(t.subtree(p)))),
{
    let sp = t.subtree(p);
    let l = Some((p, left));
    lemma_subtree(t, p);
    lemma_short_subtree(a, t, p, l);
    if let Shape::Branch { id, left: xl, right: xr } = sp {
        assert(id == p);
        assert(sp.ordered());
        assert(sp.contains(p));
        if left {
            if let Shape::Branch { id: sid, left: cc, right: rr } = *xr {
                if let Shape::Branch { id: rid, left: dd, right: ee } = *rr {
                    assert(sid == s && rid == r);
                    assert(xr.ordered());
                    assert(rr.ordered());
                    assert(rr.contains(r));
                    assert(xr.contains(s) && xr.contains(r));
                    assert(sp.contains(s) && sp.contains(r));
                    assert(s > p && r > s);
                    assert forall|j: usize| #[trigger] xl.contains(j) implies node_of(b, j).color == node_of(a, j).color by {
                        assert(sp.contains(j));
                        assert(j < p);
                        assert(t.contains(j));
                    }
                    assert forall|j: usize| #[trigger] cc.contains(j) implies node_of(b, j).color == node_of(a, j).color by {
                        assert(xr.contains(j));
                        assert(sp.contains(j));
                        assert(j > p && j < s);
                        assert(t.contains(j));
                    }
                    assert forall|j: usize| #[trigger] dd.contains(j) implies node_of(b, j).color == node_of(a, j).color by {
                        assert(rr.contains(j));
                        assert(xr.contains(j));
                        assert(sp.contains(j));
                        assert(j > s && j < r);
                        assert(t.contains(j));
                    }
                    assert forall|j: usize| #[trigger] ee.contains(j) implies node_of(b, j).color == node_of(a, j).color by {
                        assert(rr.contains(j));
                        assert(xr.contains(j));
                        assert(sp.contains(j));
                        assert(j > r);
                        assert(t.contains(j));
                    }
                    if xl.contains(p) {
                        assert(p < p);
                    }
                    if dd.contains(p) || ee.contains(p) {
                        assert(rr.contains(p));
                    }
                    if cc.contains(p) || dd.contains(p) || ee.contains(p) {
                        assert(xr.contains(p));
                    }
                    lemma_black_frame(a, b, *xl);
                    lemma_black_frame(a, b, *cc);
                    lemma_black_frame(a, b, *dd);
                    lemma_black_frame(a, b, *ee);
                    lemma_short_plain(a, *xl, l);
                    lemma_short_plain(a, *cc, l);
                    lemma_short_plain(a, *dd, l);
                    lemma_short_plain(a, *ee, l);
                    assert(short_balanced(a, *xl, l) && short_balanced(a, *xr, l));
                    assert(short_height(a, *xl, l) + 1 == short_height(a, *xr, l));
                    assert(short_height(a, *xr, l) == short_height(a, *cc, l) + 1);
                    assert(short_balanced(a, *cc, l) && short_balanced(a, *rr, l));
                    assert(short_height(a, *cc, l) == short_height(a, *rr, l));
                    assert(short_height(a, *rr, l) == short_height(a, *dd, l));
                    assert(short_balanced(a, *dd, l) && short_balanced(a, *ee, l));
                    assert(short_height(a, *dd, l) == short_height(a, *ee, l));
                    let inner = Shape::Branch { id: p, left: xl, right: cc };
                    let outer = Shape::Branch { id: r, left: dd, right: ee };
                    let n = Shape::Branch { id: s, left: Box::new(inner), right: Box::new(outer) };
                    assert(n == rotated_left(sp));
                    assert(balanced(b, inner));
                    assert(balanced(b, outer));
                    assert(black_height(b, inner) == black_height(b, *xl) + 1);
                    assert(black_height(b, outer) == black_height(b, *dd) + 1);
                    assert(balanced(b, n));
                    lemma_short_plain(b, n, None);
                    assert(short_height(b, n, None) == short_height(a, sp, l));
                    assert forall|j: usize| #[trigger] t.contains(j) && !sp.contains(j) implies node_of(b, j).color
                        == node_of(a, j).color by {
                    }
                    lemma_short_replace(a, b, t, p, n, l, None);
                    lemma_short_plain(b, t.replace(p, n), None);
                }
            }
        } else {
            if let Shape::Branch { id: sid, left: rr, right: cc } = *xl {
                if let Shape::Branch { id: rid, left: dd, right: ee } = *rr {
                    assert(sid == s && rid == r);
                    assert(xl.ordered());
                    assert(rr.ordered());
                    assert(rr.contains(r));
                    assert(xl.contains(s) && xl.contains(r));
                    assert(sp.contains(s) && sp.contains(r));
                    assert(s < p && r < s);
                    assert forall|j: usize| #[trigger] xr.contains(j) implies node_of(b, j).color == node_of(a, j).color by {
                        assert(sp.contains(j));
                        assert(j > p);
                        assert(t.contains(j));
                    }
                    assert forall|j: usize| #[trigger] cc.contains(j) implies node_of(b, j).color == node_of(a, j).color by {
                        assert(xl.contains(j));
                        assert(sp.contains(j));
                        assert(j < p && j > s);
                        assert(t.contains(j));
                    }
                    assert forall|j: usize| #[trigger] dd.contains(j) implies node_of(b, j).color == node_of(a, j).color by {
                        assert(rr.contains(j));
                        assert(xl.contains(j));
                        assert(sp.contains(j));
                        assert(j < r);
                        assert(t.contains(j));
                    }
                    assert forall|j: usize| #[trigger] ee.contains(j) implies node_of(b, j).color == node_of(a, j).color by {
                        assert(rr.contains(j));
                        assert(xl.contains(j));
                        assert(sp.contains(j));
                        assert(j > r && j < s);
                        assert(t.contains(j));
                    }
                    if xr.contains(p) {
                        assert(p > p);
                    }
                    if dd.contains(p) || ee.contains(p) {
                        assert(rr.contains(p));
                    }
                    if cc.contains(p) || dd.contains(p) || ee.contains(p) {
                        assert(xl.contains(p));
                    }
                    lemma_black_frame(a, b, *xr);
                    lemma_black_frame(a, b, *cc);
                    lemma_black_frame(a, b, *dd);
                    lemma_black_frame(a, b, *ee);
                    lemma_short_plain(a, *xr, l);
                    lemma_short_plain(a, *cc, l);
                    lemma_short_plain(a, *dd, l);
                    lemma_short_plain(a, *ee, l);
                    assert(short_balanced(a, *xl, l) && short_balanced(a, *xr, l));
                    assert(short_height(a, *xl, l) == short_height(a, *xr, l) + 1);
                    assert(short_height(a, *xl, l) == short_height(a, *rr, l) + 1);
                    assert(short_balanced(a, *rr, l) && short_balanced(a, *cc, l));
                    assert(short_height(a, *rr, l) == short_height(a, *cc, l));
                    assert(short_height(a, *rr, l) == short_height(a, *dd, l));
                    assert(short_balanced(a, *dd, l) && short_balanced(a, *ee, l));
                    assert(short_height(a, *dd, l) == short_height(a, *ee, l));
                    let inner = Shape::Branch { id: p, left: cc, right: xr };
                    let outer = Shape::Branch { id: r, left: dd, right: ee };
                    let n = Shape::Branch { id: s, left: Box::new(outer), right: Box::new(inner) };
                    assert(n == rotated_right(sp));
                    assert(balanced(b, inner));
                    assert(balanced(b, outer));
                    assert(black_height(b, inner) == black_height(b, *cc) + 1);
                    assert(black_height(b, outer) == black_height(b, *dd) + 1);
                    assert(balanced(b, n));
                    lemma_short_plain(b, n, None);
                    assert(short_height(a, sp, l) == short_height(a, *xl, l) + black_of(a, p));
                    assert(short_height(b, n, None) == short_height(a, sp, l));
                    assert forall|j: usize| #[trigger] t.contains(j) && !sp.contains(j) implies node_of(b, j).color
                        == node_of(a, j).color by {
                    }
                    lemma_short_replace(a, b, t, p, n, l, None);
                    lemma_short_plain(b, t.replace(p, n), None);
                }
            }
        }
    }
}

/// Black heights are never negative.
pub proof fn lemma_black_height_nonneg(nodes: Seq<Option<Node>>, t: Shape)
    ensures
        black_height(nodes, t) >= 0,
    decreases t,
{
    if let Shape::Branch { left, .. } = t {
        lemma_black_height_nonneg(nodes, *left);
    }
}

/// Beside a deficit there is a sibling subtree holding at least one black node.
pub proof fn lemma_short_sibling(a: Seq<Option<Node>>, t: Shape, p: usize, left: bool)
    requires
        t.ordered(),
        t.contains(p),
        short_balanced(a, t, Some((p, left))),
    ensures
        left ==> t.subtree(p).right_of() is Branch,
        !left ==> t.subtree(p).left_of() is Branch,
{
    let sp = t.subtree(p);
    let l = Some((p, left));
    lemma_subtree(t, p);
    lemma_short_subtree(a, t, p, l);
    if let Shape::Branch { id, left: xl, right: xr } = sp {
        assert(sp.ordered());
        if left {
            if xl.contains(p) {
                assert(p < p);
            }
            lemma_short_plain(a, *xl, l);
            lemma_black_height_nonneg(a, *xl);
            assert(short_height(a, *xl, l) + 1 == short_height(a, *xr, l));
        } else {
            if xr.contains(p) {
                assert(p > p);
            }
            lemma_short_plain(a, *xr, l);
            lemma_black_height_nonneg(a, *xr);
            assert(short_height(a, *xl, l) == short_height(a, *xr, l) + 1);
        }
    }
}

/// Replacing the subtree of a child of `p` is replacing the subtree of `p` by `p` over the
/// new child subtree.
pub proof fn lemma_replace_child(t: Shape, p: usize, y: usize, m: Shape)
    requires
        t.ordered(),
        t.contains(p),
        t.subtree(p).left_of().root() == Some(y) || t.subtree(p).right_of().root() == Some(y),
    ensures
        t.subtree(p).left_of().root() == Some(y) ==> t.replace(y, m) == t.replace(
            p,
            (Shape::Branch { id: p, left: Box::new(m), right: Box::new(t.subtree(p).right_of()) }),
        ),
        t.subtree(p).right_of().root() == Some(y) ==> t.replace(y, m) == t.replace(
            p,
            (Shape::Branch { id: p, left: Box::new(t.subtree(p).left_of()), right: Box::new(m) }),
        ),
    decreases t,
{
    if let Shape::Branch { id, left, right } = t {
        if p == id {
            if let Shape::Branch { id: lid, .. } = *left {
                if lid == y {
                    assert(left.contains(y));
                    assert(y < id);
                    assert(left.replace(y, m) == m);
                }
            }
            if let Shape::Branch { id: rid, .. } = *right {
                if rid == y {
                    assert(right.contains(y));
                    assert(y > id);
                    assert(right.replace(y, m) == m);
                }
            }
        } else if p < id {
            if right.contains(p) {
                assert(p > id);
            }
            lemma_subtree(*left, p);
            let sp = left.subtree(p);
            if let Shape::Branch { left: ql, right: qr, .. } = sp {
                if ql.root() == Some(y) {
                    assert(ql.contains(y));
                    assert(sp.contains(y));
                }
                if qr.root() == Some(y) {
                    assert(qr.contains(y));
                    assert(sp.contains(y));
                }
            }
            assert(left.contains(y));
            assert(y < id);
            lemma_replace_child(*left, p, y, m);
        } else {
            if left.contains(p) {
                assert(p < id);
            }
            lemma_subtree(*right, p);
            let sp = right.subtree(p);
            if let Shape::Branch { left: ql, right: qr, .. } = sp {
                if ql.root() == Some(y) {
                    assert(ql.contains(y));
                    assert(sp.contains(y));
                }
                if qr.root() == Some(y) {
                    assert(qr.contains(y));
                    assert(sp.contains(y));
                }
            }
            assert(right.contains(y));
            assert(y > id);
            lemma_replace_child(*right, p, y, m);
        }
    }
}

/// Cutting a black leaf `y`, the child of `p` on side `left`, out of a balanced tree leaves
/// it balanced up to a deficit on that side of `p`.
pub proof fn lemma_short_cut(a: Seq<Option<Node>>, b: Seq<Option<Node>>, t: Shape, p: usize, y: usize, left: bool)
    requires
        t.ordered(),
        t.contains(p),
        balanced(a, t),
        left ==> t.subtree(p).left_of() == single(y),
        !left ==> t.subtree(p).right_of() == single(y),
        node_of(a, y).color == Color::Black,
        forall|j: usize| #[trigger] t.contains(j) && j != y ==> node_of(b, j).color == node_of(a, j).color,
    ensures
        short_balanced(b, t.replace(y, Shape::Leaf), Some((p, left))),
{
    let sp = t.subtree(p);
    let l = Some((p, left));
    lemma_subtree(t, p);
    crate::coloring::lemma_balanced_subtree(a, t, p);
    lemma_short_plain(a, t, None);
    lemma_short_plain(a, sp, None);
    lemma_replace_child(t, p, y, Shape::Leaf);
    if let Shape::Branch { id, left: xl, right: xr } = sp {
        assert(sp.ordered());
        assert(sp.contains(p));
        if left {
            assert(xl.contains(y));
            assert forall|j: usize| #[trigger] xr.contains(j) implies node_of(b, j).color == node_of(a, j).color by {
                assert(sp.contains(j));
                assert(j > p);
                assert(t.contains(j));
            }
            if xr.contains(p) {
                assert(p > p);
            }
            lemma_black_frame(a, b, *xr);
            lemma_short_plain(b, *xr, l);
            let n = Shape::Branch { id: p, left: Box::new(Shape::Leaf), right: xr };
            assert(black_height(a, *xl) == 1) by {
                reveal_with_fuel(black_height, 2);
            }
            assert(balanced(a, *xl) && balanced(a, *xr) && black_height(a, *xl) == black_height(a, *xr));
            assert(sp.contains(y));
            assert(short_height(b, *xr, l) == 1);
            assert(short_balanced(b, *xr, l));
            assert(short_height(b, Shape::Leaf, l) == 0);
            assert(deficit_at(l, p, true) == 1);
            assert(deficit_at(l, p, false) == 0);
            assert(short_balanced(b, Shape::Leaf, l));
            assert(short_balanced(b, n, l));
            assert(t.contains(y));
            assert(node_of(b, p).color == node_of(a, p).color);
            assert(short_height(b, n, l) == short_height(a, sp, None));
            assert forall|j: usize| #[trigger] t.contains(j) && !sp.contains(j) implies node_of(b, j).color == node_of(
                a,
                j,
            ).color by {
            }
            lemma_short_replace(a, b, t, p, n, None, l);
        } else {
            assert(xr.contains(y));
            assert forall|j: usize| #[trigger] xl.contains(j) implies node_of(b, j).color == node_of(a, j).color by {
                assert(sp.contains(j));
                assert(j < p);
                assert(t.contains(j));
            }
            if xl.contains(p) {
                assert(p < p);
            }
            lemma_black_frame(a, b, *xl);
            lemma_short_plain(b, *xl, l);
            let n = Shape::Branch { id: p, left: xl, right: Box::new(Shape::Leaf) };
            assert(black_height(a, *xr) == 1) by {
                reveal_with_fuel(black_height, 2);
            }
            assert(balanced(a, *xl) && balanced(a, *xr) && black_height(a, *xl) == black_height(a, *xr));
            assert(sp.contains(y));
            assert(short_balanced(b, Shape::Leaf, l));
            assert(short_balanced(b, n, l));
            assert(t.contains(y));
            assert(node_of(b, p).color == node_of(a, p).color);
            assert(short_height(b, n, l) == short_height(a, sp, None));
            assert forall|j: usize| #[trigger] t.contains(j) && !sp.contains(j) implies node_of(b, j).color == node_of(
                a,
                j,
            ).color by {
            }
            lemma_short_replace(a, b, t, p, n, None, l);
        }
    }
}

impl PieceTree {
    /// The state that cutting a black leaf out of side `left` of node `p` (the left side when
    /// `left`) leaves: no red node has a red parent, the child now on that side, where there
    /// is one, is black, and every path from the root down to a leaf passes as many black
    /// nodes, but the paths that leave `p` on that side, which pass one black node fewer.
    pub open spec fn short_at(&self, p: usize, left: bool) -> bool {
        &&& self.no_red_pairs()
        &&& (if left { self.node(p).left } else { self.node(p).right }) matches Some(c) ==> self.node(c).color
            == Color::Black
        &&& short_balanced(self.nodes(), self.shape@, Some((p, left)))
    }
}

/// The step of the removal fix-up beside a black sibling with black children: the sibling
/// turns red and the parent black. That ends the deficit when the parent was red or is the
/// root, and else moves it up to the parent's side of the grandparent.
pub proof fn lemma_recolor_step(a: PieceTree, b: PieceTree, p: usize, s: usize, left: bool)
    requires
        a.shaped(None, None),
        a.shape@.contains(p),
        a.short_at(p, left),
        left ==> a.node(p).right == Some(s),
        !left ==> a.node(p).left == Some(s),
        a.node(s).color == Color::Black,
        a.node(s).left matches Some(i) ==> a.node(i).color == Color::Black,
        a.node(s).right matches Some(i) ==> a.node(i).color == Color::Black,
        same_but_colors(a, b),
        b.node(s).color == Color::Red,
        b.node(p).color == Color::Black,
        forall|j: usize| #[trigger] a.occupied(j) && j != p && j != s ==> b.node(j).color == a.node(j).color,
    ensures
        b.no_red_pairs(),
        a.node(p).color == Color::Red ==> b.black_balanced(),
        a.node(p).parent is None ==> b.black_balanced(),
        a.node(p).color == Color::Black ==> (a.node(p).parent matches Some(g) ==> b.short_at(
            g,
            a.node(g).left == Some(p),
        )),
{
    a.lemma_shaped_basics(None, None);
    lemma_shaped_colors(a, b, None, None);
    let t = a.shape@;
    let l1 = Some((p, left));
    crate::balance::lemma_child_link(a, p, None, None);
    lemma_parent_link(a, s, None, None);
    lemma_parent_link(a, p, None, None);
    lemma_subtree(t, p);
    lemma_subtree_links(a.nodes(), t, None, None, p);
    assert forall|j: usize| #[trigger] t.contains(j) && j != p && j != s implies node_of(b.nodes(), j).color == node_of(
        a.nodes(),
        j,
    ).color by {
        assert(a.occupied(j));
    }
    lemma_short_recolor(a.nodes(), b.nodes(), t, p, s, left);
    let sp = t.subtree(p);
    assert(sp.contains(p));
    assert(sp.contains(s)) by {
        if let Shape::Branch { left: xl, right: xr, .. } = sp {
            if left {
                assert(xr.contains(s));
            } else {
                assert(xl.contains(s));
            }
        }
    }
    assert forall|i: usize| #[trigger] b.red_pair(i) && b.shape@.contains(i) implies false by {
        lemma_parent_link(a, i, None, None);
        assert(a.occupied(i));
        let q = b.node(i).parent->0;
        assert(b.node(i).parent == a.node(i).parent);
        if i != s && i != p {
            assert(a.node(i).color == Color::Red);
            assert(a.occupied(q));
            if q == s {
                assert(a.node(s).left == Some(i) || a.node(s).right == Some(i));
            } else if q != p {
                assert(b.node(q).color == a.node(q).color);
                assert(a.red_pair(i));
            }
        }
    }
    if a.node(p).color == Color::Red {
        lemma_short_plain(b.nodes(), sp, None);
        assert forall|j: usize| #[trigger] t.contains(j) && !sp.contains(j) implies node_of(b.nodes(), j).color == node_of(
            a.nodes(),
            j,
        ).color by {
        }
        lemma_short_replace(a.nodes(), b.nodes(), t, p, sp, l1, None);
        crate::coloring::lemma_replace_own(t, p);
        lemma_short_plain(b.nodes(), t, None);
    }
    if a.node(p).parent is None {
        assert(t.root() == Some(p));
        assert(sp == t);
    }
    if a.node(p).color == Color::Black {
        if let Some(g) = a.node(p).parent {
            let pleft = a.node(g).left == Some(p);
            if !pleft {
                assert(a.node(g).right == Some(p));
            }
            assert forall|j: usize| #[trigger] t.contains(j) && !sp.contains(j) implies node_of(b.nodes(), j).color
                == node_of(a.nodes(), j).color by {
            }
            lemma_short_up(a.nodes(), b.nodes(), t, g, p, pleft, l1);
            assert(a.occupied(g));
            assert(b.node(g).left == a.node(g).left && b.node(g).right == a.node(g).right);
        }
    }
}

/// The step of the removal fix-up beside a red sibling: the sibling turns black and the
/// parent red, and a rotation at the parent lifts the sibling. The deficit stays at the
/// same side of the parent.
pub proof fn lemma_red_sibling_step(a: PieceTree, c: PieceTree, b: PieceTree, p: usize, s: usize, left: bool)
    requires
        a.shaped(None, None),
        a.shape@.contains(p),
        a.short_at(p, left),
        left ==> a.node(p).right == Some(s),
        !left ==> a.node(p).left == Some(s),
        a.node(s).color == Color::Red,
        same_but_colors(a, c),
        c.node(s).color == Color::Black,
        c.node(p).color == Color::Red,
        forall|j: usize| #[trigger] a.occupied(j) && j != p && j != s ==> c.node(j).color == a.node(j).color,
        same_colors(c, b),
        b.shaped(None, None),
        forall|j: usize| #[trigger] b.shape@.contains(j) == c.shape@.contains(j),
        left ==> b.shape@ == c.shape@.replace(p, rotated_left(c.shape@.subtree(p))),
        !left ==> b.shape@ == c.shape@.replace(p, rotated_right(c.shape@.subtree(p))),
        forall|i: usize| #[trigger] b.red_pair(i) && b.shape@.contains(i) ==> c.red_pair(i) || i == p || i == s || Some(i)
            == (if left { c.node(s).left } else { c.node(s).right }),
        b.node(p).parent == Some(s),
        (if left { c.node(s).left } else { c.node(s).right }) matches Some(m) ==> b.node(m).parent == Some(p),
        left ==> b.node(p).left == c.node(p).left,
        !left ==> b.node(p).right == c.node(p).right,
    ensures
        b.short_at(p, left),
{
    a.lemma_shaped_basics(None, None);
    lemma_shaped_colors(a, c, None, None);
    let t = a.shape@;
    let l = Some((p, left));
    crate::balance::lemma_child_link(a, p, None, None);
    crate::balance::lemma_child_link(a, s, None, None);
    lemma_parent_link(a, s, None, None);
    lemma_subtree_links(a.nodes(), t, None, None, p);
    assert(!a.red_pair(s));
    assert(a.node(p).color == Color::Black);
    let m = if left { c.node(s).left } else { c.node(s).right };
    assert forall|i: usize| #[trigger] b.red_pair(i) && b.shape@.contains(i) implies false by {
        assert(c.shape@.contains(i) == b.shape@.contains(i));
        if i == p {
            assert(c.occupied(s));
            assert(b.node(s).color == Color::Black);
        } else if i == s {
            assert(c.occupied(s));
        } else if Some(i) == m {
            assert(a.node(s).left == c.node(s).left && a.node(s).right == c.node(s).right);
            lemma_parent_link(a, i, None, None);
            assert(a.node(i).parent == Some(s));
            assert(!a.red_pair(i));
            assert(c.occupied(i));
            assert(c.occupied(p));
        } else {
            assert(c.red_pair(i));
            lemma_parent_link(a, i, None, None);
            assert(a.occupied(i));
            assert(c.node(i).parent == a.node(i).parent);
            let q = a.node(i).parent->0;
            assert(a.occupied(q));
            if q == p {
                assert(a.node(p).left == Some(i) || a.node(p).right == Some(i));
            } else if q != s {
                assert(a.red_pair(i));
            }
        }
    }
    let x = if left { a.node(p).left } else { a.node(p).right };
    if let Some(xx) = x {
        assert(a.occupied(xx));
        assert(xx != s);
        assert(c.occupied(xx));
    }
    assert forall|j: usize| #[trigger] t.contains(j) && j != p && j != s implies node_of(b.nodes(), j).color == node_of(
        a.nodes(),
        j,
    ).color by {
        assert(a.occupied(j));
        assert(c.occupied(j));
    }
    assert(c.occupied(p) && c.occupied(s));
    lemma_short_red_sibling(a.nodes(), b.nodes(), t, p, s, left);
}

/// The step of the removal fix-up beside a black sibling whose inner child is red and outer
/// child black: that child turns black and the sibling red, and a rotation at the sibling
/// lifts the child. The deficit stays; the new sibling is black with a red outer child.
pub proof fn lemma_near_red_step(a: PieceTree, c: PieceTree, b: PieceTree, p: usize, s: usize, n: usize, left: bool)
    requires
        a.shaped(None, None),
        a.shape@.contains(p),
        a.short_at(p, left),
        left ==> a.node(p).right == Some(s),
        !left ==> a.node(p).left == Some(s),
        a.node(s).color == Color::Black,
        left ==> a.node(s).left == Some(n),
        !left ==> a.node(s).right == Some(n),
        a.node(n).color == Color::Red,
        (if left { a.node(s).right } else { a.node(s).left }) matches Some(i) ==> a.node(i).color == Color::Black,
        same_but_colors(a, c),
        c.node(n).color == Color::Black,
        c.node(s).color == Color::Red,
        forall|j: usize| #[trigger] a.occupied(j) && j != n && j != s ==> c.node(j).color == a.node(j).color,
        same_colors(c, b),
        b.shaped(None, None),
        forall|j: usize| #[trigger] b.shape@.contains(j) == c.shape@.contains(j),
        left ==> b.shape@ == c.shape@.replace(s, rotated_right(c.shape@.subtree(s))),
        !left ==> b.shape@ == c.shape@.replace(s, rotated_left(c.shape@.subtree(s))),
        forall|i: usize| #[trigger] b.red_pair(i) && b.shape@.contains(i) ==> c.red_pair(i) || i == s || i == n || Some(i)
            == (if left { c.node(n).right } else { c.node(n).left }),
        b.node(s).parent == Some(n),
        (if left { c.node(n).right } else { c.node(n).left }) matches Some(m) ==> b.node(m).parent == Some(s),
        left ==> b.node(p).left == c.node(p).left,
        !left ==> b.node(p).right == c.node(p).right,
    ensures
        b.short_at(p, left),
{
    a.lemma_shaped_basics(None, None);
    lemma_shaped_colors(a, c, None, None);
    let t = a.shape@;
    let l = Some((p, left));
    crate::balance::lemma_child_link(a, p, None, None);
    crate::balance::lemma_child_link(a, s, None, None);
    crate::balance::lemma_child_link(a, n, None, None);
    lemma_parent_link(a, s, None, None);
    lemma_parent_link(a, n, None, None);
    lemma_subtree_links(a.nodes(), t, None, None, s);
    lemma_subtree(t, p);
    let m = if left { c.node(n).right } else { c.node(n).left };
    assert forall|i: usize| #[trigger] b.red_pair(i) && b.shape@.contains(i) implies false by {
        assert(c.shape@.contains(i) == b.shape@.contains(i));
        if i == s {
            assert(c.occupied(n));
        } else if i == n {
            assert(c.occupied(n));
        } else if Some(i) == m {
            assert(a.node(n).left == c.node(n).left && a.node(n).right == c.node(n).right);
            lemma_parent_link(a, i, None, None);
            assert(a.node(i).parent == Some(n));
            assert(!a.red_pair(i));
            assert(c.occupied(i));
            assert(c.occupied(s));
        } else {
            assert(c.red_pair(i));
            lemma_parent_link(a, i, None, None);
            assert(a.occupied(i));
            assert(c.node(i).parent == a.node(i).parent);
            let q = a.node(i).parent->0;
            assert(a.occupied(q));
            if q == s {
                assert(a.node(s).left == Some(i) || a.node(s).right == Some(i));
            } else if q != n {
                assert(a.red_pair(i));
            }
        }
    }
    let x = if left { a.node(p).left } else { a.node(p).right };
    if let Some(xx) = x {
        assert(a.occupied(xx));
        assert(xx != s);
        lemma_parent_link(a, xx, None, None);
        assert(xx != n);
        assert(c.occupied(xx));
    }
    assert forall|j: usize| #[trigger] t.contains(j) && j != n && j != s implies node_of(b.nodes(), j).color == node_of(
        a.nodes(),
        j,
    ).color by {
        assert(a.occupied(j));
        assert(c.occupied(j));
    }
    assert(c.occupied(n) && c.occupied(s));
    let sp = t.subtree(p);
    if let Shape::Branch { left: xl, right: xr, .. } = sp {
        assert(sp.ordered());
        if t.subtree(s).contains(p) {
            if left {
                assert(xr.contains(p));
            } else {
                assert(xl.contains(p));
            }
        }
    }
    lemma_short_near_red(a.nodes(), b.nodes(), t, s, n, left, l);
}

/// The last step of the removal fix-up, beside a black sibling whose outer child is red: the
/// sibling takes the parent's color, the parent and that child turn black, and a rotation at
/// the parent lifts the sibling. That ends the deficit.
pub proof fn lemma_far_red_step(a: PieceTree, c: PieceTree, b: PieceTree, p: usize, s: usize, r: usize, left: bool)
    requires
        a.shaped(None, None),
        a.shape@.contains(p),
        a.short_at(p, left),
        left ==> a.node(p).right == Some(s),
        !left ==> a.node(p).left == Some(s),
        a.node(s).color == Color::Black,
        left ==> a.node(s).right == Some(r),
        !left ==> a.node(s).left == Some(r),
        a.node(r).color == Color::Red,
        same_but_colors(a, c),
        c.node(s).color == a.node(p).color,
        c.node(p).color == Color::Black,
        c.node(r).color == Color::Black,
        forall|j: usize| #[trigger] a.occupied(j) && j != p && j != s && j != r ==> c.node(j).color == a.node(j).color,
        same_colors(c, b),
        b.shaped(None, None),
        forall|j: usize| #[trigger] b.shape@.contains(j) == c.shape@.contains(j),
        left ==> b.shape@ == c.shape@.replace(p, rotated_left(c.shape@.subtree(p))),
        !left ==> b.shape@ == c.shape@.replace(p, rotated_right(c.shape@.subtree(p))),
        forall|i: usize| #[trigger] b.red_pair(i) && b.shape@.contains(i) ==> c.red_pair(i) || i == p || i == s || Some(i)
            == (if left { c.node(s).left } else { c.node(s).right }),
        b.node(s).parent == c.node(p).parent,
        (if left { c.node(s).left } else { c.node(s).right }) matches Some(m) ==> b.node(m).parent == Some(p),
    ensures
        b.no_red_pairs(),
        b.black_balanced(),
{
    a.lemma_shaped_basics(None, None);
    lemma_shaped_colors(a, c, None, None);
    let t = a.shape@;
    crate::balance::lemma_child_link(a, p, None, None);
    crate::balance::lemma_child_link(a, s, None, None);
    lemma_parent_link(a, s, None, None);
    lemma_parent_link(a, r, None, None);
    lemma_parent_link(a, p, None, None);
    lemma_subtree_links(a.nodes(), t, None, None, p);
    lemma_subtree_links(a.nodes(), t, None, None, s);
    let m = if left { c.node(s).left } else { c.node(s).right };
    assert forall|i: usize| #[trigger] b.red_pair(i) && b.shape@.contains(i) implies false by {
        assert(c.shape@.contains(i) == b.shape@.contains(i));
        if i == p {
            assert(c.occupied(p));
        } else if i == s {
            assert(c.occupied(s));
            assert(a.node(p).color == Color::Red);
            let g = a.node(p).parent->0;
            assert(c.node(p).parent == a.node(p).parent);
            assert(a.occupied(g));
            assert(g != s && g != r);
            assert(c.occupied(g));
            assert(a.red_pair(p));
        } else if Some(i) == m {
            assert(c.occupied(p));
        } else {
            assert(c.red_pair(i));
            lemma_parent_link(a, i, None, None);
            assert(a.occupied(i));
            assert(c.node(i).parent == a.node(i).parent);
            let q = a.node(i).parent->0;
            assert(a.occupied(q));
            if q == s {
                assert(a.node(s).left == Some(i) || a.node(s).right == Some(i));
            } else if q != p && q != r {
                assert(a.red_pair(i));
            }
        }
    }
    assert forall|j: usize| #[trigger] t.contains(j) && j != p && j != s && j != r implies node_of(b.nodes(), j).color
        == node_of(a.nodes(), j).color by {
        assert(a.occupied(j));
        assert(c.occupied(j));
    }
    assert(c.occupied(p) && c.occupied(s) && c.occupied(r));
    lemma_short_far_red(a.nodes(), b.nodes(), t, p, s, r, left);
}

} // verus!
