use vstd::prelude::*;
use crate::arena::Color;
use crate::metadata::lemma_parent_link;
use crate::rebalance::{same_but_colors, same_payload};
use crate::shape::{char_sum, line_sum, rotated_left, rotated_right, Shape};
use crate::shape_facts::{lemma_child, lemma_replace_subtree, lemma_subtree, lemma_subtree_links, lemma_within_same};
use crate::tree::PieceTree;
use crate::coloring::{lemma_paint_black, lemma_paint_red, lemma_rotation_pairs};

verus! {

/// Keeping the payload is transitive.
pub proof fn lemma_payload_trans(a: PieceTree, b: PieceTree, c: PieceTree)
    requires
        same_payload(a, b),
        same_payload(b, c),
    ensures
        same_payload(a, c),
{
    assert forall|i: int| 0 <= i < a.nodes().len() implies (a.nodes()[i] is Some <==> #[trigger] c.nodes()[i] is Some)
        && (a.nodes()[i] is Some ==> a.nodes()[i].unwrap().piece == c.nodes()[i].unwrap().piece) by {
        assert(b.nodes()[i] is Some == a.nodes()[i] is Some);
    }
}

/// The children linked from a node of a shaped tree are nodes of it that link back.
pub proof fn lemma_child_link(tree: PieceTree, p: usize, stale: Option<usize>, extra: Option<usize>)
    requires
        tree.shaped(stale, extra),
        tree.shape@.contains(p),
    ensures
        tree.occupied(p),
        tree.node(p).left matches Some(l) ==> tree.shape@.contains(l) && tree.occupied(l) && tree.node(l).parent
            == Some(p) && l < p,
        tree.node(p).right matches Some(r) ==> tree.shape@.contains(r) && tree.occupied(r) && tree.node(r).parent
            == Some(p) && r > p,
{
    tree.lemma_shaped_basics(stale, extra);
    let t = tree.shape@;
    lemma_subtree(t, p);
    lemma_subtree_links(tree.nodes(), t, None, stale, p);
    if let Some(l) = tree.node(p).left {
        lemma_child(t, p, l, None);
        lemma_subtree_links(tree.nodes(), t, None, stale, l);
    }
    if let Some(r) = tree.node(p).right {
        lemma_child(t, p, r, None);
        lemma_subtree_links(tree.nodes(), t, None, stale, r);
    }
}

impl PieceTree {
    /// Restores the red-black coloring after the red node `idx` was hung in, recoloring
    /// and rotating on the way up.
    #[verifier::rlimit(100)]
    pub(crate) fn fix_insert(&mut self, idx: usize)
        requires
            old(self).shaped(None, None),
            old(self).shape@.contains(idx),
        ensures
            final(self).shaped(None, None),
            forall|j: usize| #[trigger] final(self).shape@.contains(j) == old(self).shape@.contains(j),
            same_payload(*old(self), *final(self)),
            final(self).doc() == old(self).doc(),
            char_sum(final(self).nodes(), final(self).shape@) == char_sum(old(self).nodes(), old(self).shape@),
            line_sum(final(self).nodes(), final(self).shape@) == line_sum(old(self).nodes(), old(self).shape@),
            final(self).root_black(),
            old(self).red_pairs_only_at(Some(idx)) ==> final(self).no_red_pairs(),
            old(self).red_pairs_only_at(Some(idx)) && old(self).black_balanced() ==> final(self).black_balanced(),
    {
        let ghost tracking = old(self).red_pairs_only_at(Some(idx));
        let ghost bal = tracking && old(self).black_balanced();
        let mut idx = idx;
        proof {
            self.lemma_shaped_basics(None, None);
        }
        while self.arena.get(idx).color == Color::Red
            invariant
                self.shaped(None, None),
                self.shape@.contains(idx),
                self.occupied(idx),
                forall|j: usize| #[trigger] self.shape@.contains(j) == old(self).shape@.contains(j),
                same_payload(*old(self), *self),
                char_sum(self.nodes(), self.shape@) == char_sum(old(self).nodes(), old(self).shape@),
                line_sum(self.nodes(), self.shape@) == line_sum(old(self).nodes(), old(self).shape@),
                tracking ==> self.red_pairs_only_at(Some(idx)),
                bal ==> tracking && self.black_balanced(),
            ensures
                self.shaped(None, None),
                self.shape@.contains(idx),
                forall|j: usize| #[trigger] self.shape@.contains(j) == old(self).shape@.contains(j),
                same_payload(*old(self), *self),
                char_sum(self.nodes(), self.shape@) == char_sum(old(self).nodes(), old(self).shape@),
                line_sum(self.nodes(), self.shape@) == line_sum(old(self).nodes(), old(self).shape@),
                tracking ==> self.red_pairs_only_at(Some(idx)),
                tracking && self.red_pair(idx) ==> (self.node(idx).parent matches Some(p) && self.node(p).parent is None),
                bal ==> tracking && self.black_balanced(),
            decreases self.shape@.depth(idx),
        {
            let ghost start = *self;
            proof {
                lemma_parent_link(*self, idx, None, None);
            }
            let parent = match self.arena.get(idx).parent {
                None => break,
                Some(p) => p,
            };
            if self.arena.get(parent).color == Color::Black {
                break;
            }
            proof {
                lemma_parent_link(*self, parent, None, None);
            }
            let grandparent = match self.arena.get(parent).parent {
                None => break,
                Some(g) => g,
            };
            proof {
                lemma_child_link(*self, grandparent, None, None);
                lemma_child_link(*self, parent, None, None);
            }
            let parent_is_left = self.arena.get(grandparent).left == Some(parent);
            let uncle = if parent_is_left {
                self.arena.get(grandparent).right
            } else {
                self.arena.get(grandparent).left
            };
            let uncle_is_red = match uncle {
                Some(u) => self.arena.get(u).color == Color::Red,
                None => false,
            };

            if uncle_is_red {
                // uncle is red: recolor and move up
                self.paint(parent, Color::Black, Ghost(None));
                let ghost s1 = *self;
                proof {
                    if tracking {
                        lemma_paint_black(start, s1, parent);
                    }
                }
                if let Some(u) = uncle {
                    self.paint(u, Color::Black, Ghost(None));
                }
                let ghost s2 = *self;
                proof {
                    if tracking {
                        if let Some(u) = uncle {
                            lemma_paint_black(s1, s2, u);
                        }
                        assert forall|i: usize| #[trigger] s2.red_pair(i) && s2.shape@.contains(i) implies Some(i)
                            == None::<usize> by {
                            assert(s1.red_pair(i));
                            assert(start.red_pair(i));
                        }
                        assert(s2.node(parent).color == Color::Black);
                        assert(s2.node(grandparent).left == start.node(grandparent).left);
                        assert(s2.node(grandparent).right == start.node(grandparent).right);
                    }
                }
                self.paint(grandparent, Color::Red, Ghost(None));
                proof {
                    if tracking {
                        lemma_paint_red(s2, *self, grandparent);
                    }
                    if bal {
                        crate::coloring::lemma_recolor_step(start, *self, idx, parent, grandparent, uncle->0);
                    }
                    lemma_payload_trans(*old(self), start, *self);
                }
                idx = grandparent;
            } else if parent_is_left {
                if self.arena.get(parent).right == Some(idx) {
                    // uncle is black, left-right: rotate the parent left
                    let ghost s0 = *self;
                    proof {
                        lemma_child_link(*self, idx, None, None);
                    }
                    self.rotate_left(parent, Ghost(None));
                    proof {
                        if tracking {
                            lemma_rotation_pairs(s0, *self, parent, idx, s0.node(idx).left);
                            if bal {
                                crate::coloring::lemma_triangle_step(s0, *self, idx, parent, true);
                            }
                            assert forall|i: usize| #[trigger] self.red_pair(i) && self.shape@.contains(i) implies Some(i)
                                == Some(parent) by {
                                if i == idx {
                                    assert(!s0.red_pair(parent));
                                } else if Some(i) == s0.node(idx).left {
                                    assert(!s0.red_pair(i));
                                } else if i != parent {
                                    assert(s0.red_pair(i));
                                }
                            }
                        }
                    }
                    idx = parent;
                }
                // uncle is black, left-left: rotate the grandparent right
                let parent = self.arena.get(idx).parent.unwrap();
                let grandparent = self.arena.get(parent).parent.unwrap();
                let ghost c0 = *self;
                proof {
                    assert(self.shape@.contains(grandparent));
                    assert(self.occupied(grandparent));
                    assert(self.node(grandparent).left is Some);
                    lemma_parent_link(*self, idx, None, None);
                    lemma_parent_link(*self, parent, None, None);
                    lemma_child_link(*self, parent, None, None);
                    lemma_child_link(*self, grandparent, None, None);
                    lemma_parent_link(*self, grandparent, None, None);
                    if let Some(c) = self.node(parent).right {
                        lemma_parent_link(*self, c, None, None);
                    }
                    if tracking {
                        assert(self.node(idx).color == Color::Red);
                        assert(self.node(parent).color == Color::Red);
                        assert(self.node(parent).left == Some(idx));
                        assert(self.node(grandparent).left == Some(parent));
                        assert(self.node(grandparent).right matches Some(u) ==> self.node(u).color == Color::Black);
                    }
                }
                self.paint(parent, Color::Black, Ghost(None));
                let ghost mid = *self;
                proof {
                    if tracking {
                        lemma_paint_black(c0, mid, parent);
                        assert forall|i: usize| #[trigger] mid.red_pair(i) && mid.shape@.contains(i) implies Some(i)
                            == None::<usize> by {
                            assert(c0.red_pair(i));
                        }
                    }
                }
                self.paint(grandparent, Color::Red, Ghost(None));
                let ghost c2 = *self;
                proof {
                    assert(mid.occupied(grandparent));
                    assert(self.node(grandparent).left is Some);
                    if tracking {
                        lemma_paint_red(mid, c2, grandparent);
                    }
                    assert(c2.node(parent).color == Color::Black);
                    assert(c2.occupied(parent));
                }
                self.rotate_right(grandparent, Ghost(None));
                proof {
                    if tracking {
                        lemma_rotation_pairs(c2, *self, grandparent, parent, c2.node(parent).right);
                        if bal {
                            crate::coloring::lemma_line_step(c0, c2, *self, idx, parent, grandparent, true);
                        }
                        assert(c2.node(grandparent).left == Some(parent));
                        assert(self.node(grandparent).parent == Some(parent));
                        assert(self.node(parent).color == Color::Black);
                        assert(idx != grandparent && idx != parent);
                        assert(Some(idx) != c2.node(parent).right);
                        assert(Some(idx) != c2.node(grandparent).parent);
                        assert forall|i: usize| #[trigger] self.red_pair(i) && self.shape@.contains(i) implies Some(i)
                            == Some(idx) by {
                            if i == grandparent {
                                assert(self.node(parent).color == Color::Black);
                            } else if i == parent {
                            } else if Some(i) == c2.node(parent).right {
                                assert(c0.node(i).parent == Some(parent));
                                assert(!c0.red_pair(i));
                                assert(c2.occupied(i));
                                assert(c2.node(i).color == c0.node(i).color);
                            } else {
                                assert(c2.red_pair(i));
                            }
                        }
                        assert(c2.occupied(idx));
                        assert(self.node(idx) == c2.node(idx));
                    }
                    lemma_payload_trans(*old(self), start, *self);
                }
                // the parent is black now, which ends the walk
                break;
            } else {
                if self.arena.get(parent).left == Some(idx) {
                    // uncle is black, right-left: rotate the parent right
                    let ghost s0 = *self;
                    proof {
                        lemma_child_link(*self, idx, None, None);
                    }
                    self.rotate_right(parent, Ghost(None));
                    proof {
                        if tracking {
                            lemma_rotation_pairs(s0, *self, parent, idx, s0.node(idx).right);
                            if bal {
                                crate::coloring::lemma_triangle_step(s0, *self, idx, parent, false);
                            }
                            assert forall|i: usize| #[trigger] self.red_pair(i) && self.shape@.contains(i) implies Some(i)
                                == Some(parent) by {
                                if i == idx {
                                    assert(!s0.red_pair(parent));
                                } else if Some(i) == s0.node(idx).right {
                                    assert(!s0.red_pair(i));
                                } else if i != parent {
                                    assert(s0.red_pair(i));
                                }
                            }
                        }
                    }
                    idx = parent;
                }
                // uncle is black, right-right: rotate the grandparent left
                let parent = self.arena.get(idx).parent.unwrap();
                let grandparent = self.arena.get(parent).parent.unwrap();
                let ghost c0 = *self;
                proof {
                    assert(self.shape@.contains(grandparent));
                    assert(self.occupied(grandparent));
                    assert(self.node(grandparent).right is Some);
                    lemma_parent_link(*self, idx, None, None);
                    lemma_parent_link(*self, parent, None, None);
                    lemma_child_link(*self, parent, None, None);
                    lemma_child_link(*self, grandparent, None, None);
                    lemma_parent_link(*self, grandparent, None, None);
                    if let Some(c) = self.node(parent).left {
                        lemma_parent_link(*self, c, None, None);
                    }
                    if tracking {
                        assert(self.node(idx).color == Color::Red);
                        assert(self.node(parent).color == Color::Red);
                        assert(self.node(parent).right == Some(idx));
                        assert(self.node(grandparent).right == Some(parent));
                        assert(self.node(grandparent).left matches Some(u) ==> self.node(u).color == Color::Black);
                    }
                }
                self.paint(parent, Color::Black, Ghost(None));
                let ghost mid = *self;
                proof {
                    if tracking {
                        lemma_paint_black(c0, mid, parent);
                        assert forall|i: usize| #[trigger] mid.red_pair(i) && mid.shape@.contains(i) implies Some(i)
                            == None::<usize> by {
                            assert(c0.red_pair(i));
                        }
                    }
                }
                self.paint(grandparent, Color::Red, Ghost(None));
                let ghost c2 = *self;
                proof {
                    assert(mid.occupied(grandparent));
                    assert(self.node(grandparent).right is Some);
                    if tracking {
                        lemma_paint_red(mid, c2, grandparent);
                    }
                    assert(c2.node(parent).color == Color::Black);
                    assert(c2.occupied(parent));
                }
                self.rotate_left(grandparent, Ghost(None));
                proof {
                    if tracking {
                        lemma_rotation_pairs(c2, *self, grandparent, parent, c2.node(parent).left);
                        if bal {
                            crate::coloring::lemma_line_step(c0, c2, *self, idx, parent, grandparent, false);
                        }
                        assert(c2.node(grandparent).right == Some(parent));
                        assert(self.node(grandparent).parent == Some(parent));
                        assert(self.node(parent).color == Color::Black);
                        assert(idx != grandparent && idx != parent);
                        assert(Some(idx) != c2.node(parent).left);
                        assert(Some(idx) != c2.node(grandparent).parent);
                        assert forall|i: usize| #[trigger] self.red_pair(i) && self.shape@.contains(i) implies Some(i)
                            == Some(idx) by {
                            if i == grandparent {
                                assert(self.node(parent).color == Color::Black);
                            } else if i == parent {
                            } else if Some(i) == c2.node(parent).left {
                                assert(c0.node(i).parent == Some(parent));
                                assert(!c0.red_pair(i));
                                assert(c2.occupied(i));
                                assert(c2.node(i).color == c0.node(i).color);
                            } else {
                                assert(c2.red_pair(i));
                            }
                        }
                        assert(c2.occupied(idx));
                        assert(self.node(idx) == c2.node(idx));
                    }
                    lemma_payload_trans(*old(self), start, *self);
                }
                break;
            }
        }

        // the root is always black
        let ghost before = *self;
        if let Some(root) = self.root {
            proof {
                self.lemma_shaped_basics(None, None);
                if let Shape::Branch { id, .. } = self.shape@ {
                    assert(self.shape@.contains(id));
                }
            }
            self.paint(root, Color::Black, Ghost(None));
            proof {
                lemma_payload_trans(*old(self), *old(self), *self);
                if bal {
                    before.lemma_shaped_basics(None, None);
                    crate::coloring::lemma_black_root(before.nodes(), self.nodes(), before.shape@);
                }
                if tracking {
                    lemma_paint_black(before, *self, root);
                    assert forall|i: usize| #[trigger] self.red_pair(i) && self.shape@.contains(i) implies Some(i)
                        == None::<usize> by {
                        assert(before.red_pair(i));
                        let p = before.node(i).parent->0;
                        lemma_parent_link(before, i, None, None);
                        lemma_parent_link(before, p, None, None);
                    }
                }
            }
        } else {
            proof {
                self.lemma_root_occupied(None, None);
                self.lemma_shaped_basics(None, None);
                assert(self.shape@ is Leaf);
            }
        }
        proof {
            crate::edit::lemma_payload_texts(*old(self), *self);
        }
    }
}

} // verus!

verus! {

/// Rotating at `p` moves `p` down: the subtree now rooted at `p` is smaller.
pub proof fn lemma_rotated_smaller(t: Shape, p: usize, left_rotation: bool)
    requires
        t.ordered(),
        t.contains(p),
        left_rotation ==> t.subtree(p).right_of() is Branch,
        !left_rotation ==> t.subtree(p).left_of() is Branch,
    ensures
        left_rotation ==> t.replace(p, rotated_left(t.subtree(p))).subtree(p).size() < t.subtree(p).size(),
        !left_rotation ==> t.replace(p, rotated_right(t.subtree(p))).subtree(p).size() < t.subtree(p).size(),
{
    lemma_subtree(t, p);
    let s = t.subtree(p);
    if let Shape::Branch { id: x, left: a, right: rt } = s {
        assert(x == p);
        if left_rotation {
            if let Shape::Branch { id: r, left: b, right: c } = *rt {
                let inner = Shape::Branch { id: x, left: a, right: b };
                let n = Shape::Branch { id: r, left: Box::new(inner), right: c };
                assert(n == rotated_left(s));
                assert(rt.contains(r));
                assert(r > x);
                assert forall|j: usize| n.contains(j) <==> s.contains(j) by {
                    assert(inner.contains(j) == (j == x || a.contains(j) || b.contains(j)));
                    assert(rt.contains(j) == (j == r || b.contains(j) || c.contains(j)));
                }
                lemma_within_same(t, p, n);
                assert(n.contains(p));
                lemma_replace_subtree(t, p, n, p);
                assert(inner.subtree(p) == inner);
                assert(n.subtree(p) == inner.subtree(p));
                assert(s.size() == a.size() + 1 + rt.size());
                assert(rt.size() == b.size() + 1 + c.size());
                assert(inner.size() == a.size() + 1 + b.size());
            }
        } else {
            if let Shape::Branch { id: l, left: a2, right: b } = *a {
                let inner = Shape::Branch { id: x, left: b, right: rt };
                let n = Shape::Branch { id: l, left: a2, right: Box::new(inner) };
                assert(n == rotated_right(s));
                assert(a.contains(l));
                assert(l < x);
                assert forall|j: usize| n.contains(j) <==> s.contains(j) by {
                    assert(inner.contains(j) == (j == x || b.contains(j) || rt.contains(j)));
                    assert(a.contains(j) == (j == l || a2.contains(j) || b.contains(j)));
                }
                lemma_within_same(t, p, n);
                assert(n.contains(p));
                lemma_replace_subtree(t, p, n, p);
                assert(inner.subtree(p) == inner);
                assert(n.subtree(p) == inner.subtree(p));
                assert(s.size() == a.size() + 1 + rt.size());
                assert(a.size() == a2.size() + 1 + b.size());
                assert(inner.size() == b.size() + 1 + rt.size());
            }
        }
    }
}

} // verus!

verus! {

/// Changing only colors twice changes only colors.
pub proof fn lemma_colors_trans(a: PieceTree, b: PieceTree, c: PieceTree)
    requires
        same_but_colors(a, b),
        same_but_colors(b, c),
    ensures
        same_but_colors(a, c),
{
    lemma_payload_trans(a, b, c);
    assert forall|i: usize| #[trigger] a.occupied(i) implies crate::shape::same_links(a.node(i), c.node(i)) by {
        assert(b.occupied(i));
    }
}

impl PieceTree {
    /// The measure that each step of `fix_delete` lowers: first the rank of the node beside
    /// the deficit (zero for a red node, else its depth plus one), then the size of its
    /// subtree.
    pub open spec fn delete_measure(&self, p: usize) -> (int, int) {
        (
            if self.node(p).color == Color::Red { 0 } else { self.shape@.depth(p) as int + 1 },
            self.shape@.subtree(p).size() as int,
        )
    }

    /// Restores the red-black coloring after a black leaf was cut out of side `is_left` of
    /// node `parent` (its left side when `is_left`), recoloring and rotating from there up.
    #[verifier::rlimit(100)]
    pub(crate) fn fix_delete(&mut self, parent: usize, is_left: bool)
        requires
            old(self).shaped(None, None),
            old(self).shape@.contains(parent),
        ensures
            final(self).shaped(None, None),
            forall|j: usize| #[trigger] final(self).shape@.contains(j) == old(self).shape@.contains(j),
            same_payload(*old(self), *final(self)),
            final(self).doc() == old(self).doc(),
            char_sum(final(self).nodes(), final(self).shape@) == char_sum(old(self).nodes(), old(self).shape@),
            line_sum(final(self).nodes(), final(self).shape@) == line_sum(old(self).nodes(), old(self).shape@),
            final(self).root_black(),
            old(self).short_at(parent, is_left) ==> final(self).no_red_pairs() && final(self).black_balanced(),
    {
        let ghost tracking = old(self).short_at(parent, is_left);
        let mut parent = parent;
        let mut is_left = is_left;
        proof {
            self.lemma_shaped_basics(None, None);
        }
        loop
            invariant_except_break
                tracking ==> self.short_at(parent, is_left),
            invariant
                self.shaped(None, None),
                self.shape@.contains(parent),
                forall|j: usize| #[trigger] self.shape@.contains(j) == old(self).shape@.contains(j),
                same_payload(*old(self), *self),
                char_sum(self.nodes(), self.shape@) == char_sum(old(self).nodes(), old(self).shape@),
                line_sum(self.nodes(), self.shape@) == line_sum(old(self).nodes(), old(self).shape@),
            ensures
                self.shaped(None, None),
                forall|j: usize| #[trigger] self.shape@.contains(j) == old(self).shape@.contains(j),
                same_payload(*old(self), *self),
                char_sum(self.nodes(), self.shape@) == char_sum(old(self).nodes(), old(self).shape@),
                line_sum(self.nodes(), self.shape@) == line_sum(old(self).nodes(), old(self).shape@),
                tracking ==> self.no_red_pairs() && self.black_balanced(),
            decreases self.delete_measure(parent).0, self.delete_measure(parent).1,
        {
            let ghost start = *self;
            proof {
                self.lemma_shaped_basics(None, None);
                lemma_child_link(*self, parent, None, None);
                lemma_parent_link(*self, parent, None, None);
            }
            let sibling = if is_left {
                self.arena.get(parent).right
            } else {
                self.arena.get(parent).left
            };
            let sibling_idx = match sibling {
                None => {
                    proof {
                        if tracking {
                            crate::deficit::lemma_short_sibling(self.nodes(), self.shape@, parent, is_left);
                            lemma_subtree_links(self.nodes(), self.shape@, None, None, parent);
                        }
                    }
                    break;
                },
                Some(s) => s,
            };
            proof {
                lemma_child_link(*self, sibling_idx, None, None);
                lemma_parent_link(*self, sibling_idx, None, None);
                assert(sibling_idx != parent);
            }
            let sibling_color = self.arena.get(sibling_idx).color;

            if sibling_color == Color::Red {
                // the sibling is red: paint it black and the parent red, and rotate it up
                self.lift_red_sibling(parent, is_left, sibling_idx);
                proof {
                    lemma_payload_trans(*old(self), start, *self);
                }
            } else {
                let sibling_left = self.arena.get(sibling_idx).left;
                let sibling_right = self.arena.get(sibling_idx).right;
                let sibling_left_black = match sibling_left {
                    Some(i) => self.arena.get(i).color == Color::Black,
                    None => true,
                };
                let sibling_right_black = match sibling_right {
                    Some(i) => self.arena.get(i).color == Color::Black,
                    None => true,
                };

                if sibling_left_black && sibling_right_black {
                    // both of the sibling's children are black: paint the sibling red
                    self.paint(sibling_idx, Color::Red, Ghost(None));
                    proof {
                        lemma_payload_trans(*old(self), start, *self);
                    }
                    if self.arena.get(parent).color == Color::Red {
                        // a red parent turns black, which ends the deficit
                        let ghost mid = *self;
                        self.paint(parent, Color::Black, Ghost(None));
                        proof {
                            lemma_colors_trans(start, mid, *self);
                            lemma_payload_trans(*old(self), start, *self);
                            if tracking {
                                crate::deficit::lemma_recolor_step(start, *self, parent, sibling_idx, is_left);
                            }
                        }
                        break;
                    }
                    proof {
                        if tracking {
                            crate::deficit::lemma_recolor_step(start, *self, parent, sibling_idx, is_left);
                        }
                    }
                    // a black parent passes the deficit on to its own parent
                    match self.arena.get(parent).parent {
                        None => break,
                        Some(g) => {
                            proof {
                                lemma_parent_link(*self, parent, None, None);
                                assert(self.node(parent).color == Color::Black);
                            }
                            is_left = self.arena.get(g).left == Some(parent);
                            parent = g;
                        },
                    }
                } else {
                    // a red child of the sibling: one or two rotations end the deficit
                    self.rotate_red_nephew(parent, is_left, sibling_idx);
                    proof {
                        lemma_payload_trans(*old(self), start, *self);
                    }
                    break;
                }
            }
        }

        // the root is always black
        if let Some(root) = self.root {
            let ghost before = *self;
            proof {
                self.lemma_root_occupied(None, None);
            }
            self.paint(root, Color::Black, Ghost(None));
            proof {
                lemma_payload_trans(*old(self), before, *self);
                if tracking {
                    lemma_paint_black(before, *self, root);
                    before.lemma_shaped_basics(None, None);
                    assert forall|j: usize| #[trigger] before.shape@.contains(j) && Some(j) != before.shape@.root()
                        implies crate::shape::node_of(self.nodes(), j).color == crate::shape::node_of(before.nodes(), j).color by {
                        assert(j != root);
                    }
                    crate::coloring::lemma_black_root(before.nodes(), self.nodes(), before.shape@);
                }
            }
        }
        proof {
            crate::edit::lemma_payload_texts(*old(self), *self);
        }
    }

    /// A step of `fix_delete` beside a red sibling: paints the sibling black and the parent
    /// red and rotates the sibling up; the deficit stays on the same side of the parent,
    /// now red, whose subtree shrinks.
    #[verifier::rlimit(60)]
    fn lift_red_sibling(&mut self, parent: usize, is_left: bool, sibling_idx: usize)
        requires
            old(self).shaped(None, None),
            old(self).shape@.contains(parent),
            is_left ==> old(self).node(parent).right == Some(sibling_idx),
            !is_left ==> old(self).node(parent).left == Some(sibling_idx),
            old(self).node(sibling_idx).color == Color::Red,
        ensures
            final(self).shaped(None, None),
            forall|j: usize| #[trigger] final(self).shape@.contains(j) == old(self).shape@.contains(j),
            same_payload(*old(self), *final(self)),
            char_sum(final(self).nodes(), final(self).shape@) == char_sum(old(self).nodes(), old(self).shape@),
            line_sum(final(self).nodes(), final(self).shape@) == line_sum(old(self).nodes(), old(self).shape@),
            final(self).node(parent).color == Color::Red,
            final(self).shape@.subtree(parent).size() < old(self).shape@.subtree(parent).size(),
            old(self).short_at(parent, is_left) ==> final(self).short_at(parent, is_left),
    {
        let ghost tracking = old(self).short_at(parent, is_left);
        let ghost start = *self;
        proof {
            self.lemma_shaped_basics(None, None);
            lemma_child_link(*self, parent, None, None);
            lemma_child_link(*self, sibling_idx, None, None);
            lemma_parent_link(*self, sibling_idx, None, None);
        }
        // the sibling is red: paint it black and the parent red, and rotate it up
        self.paint(sibling_idx, Color::Black, Ghost(None));
        let ghost mid = *self;
        self.paint(parent, Color::Red, Ghost(None));
        let ghost painted = *self;
        proof {
            assert(mid.occupied(parent));
            lemma_colors_trans(start, mid, painted);
            self.lemma_shaped_basics(None, None);
            lemma_subtree(self.shape@, parent);
            lemma_subtree_links(self.nodes(), self.shape@, None, None, parent);
            lemma_child_link(*self, sibling_idx, None, None);
        }
        if is_left {
            self.rotate_left(parent, Ghost(None));
            proof {
                lemma_rotated_smaller(painted.shape@, parent, true);
                if tracking {
                    lemma_rotation_pairs(painted, *self, parent, sibling_idx, painted.node(sibling_idx).left);
                }
            }
        } else {
            self.rotate_right(parent, Ghost(None));
            proof {
                lemma_rotated_smaller(painted.shape@, parent, false);
                if tracking {
                    lemma_rotation_pairs(painted, *self, parent, sibling_idx, painted.node(sibling_idx).right);
                }
            }
        }
        proof {
            assert(self.node(parent).color == Color::Red);
            if tracking {
                crate::deficit::lemma_red_sibling_step(start, painted, *self, parent, sibling_idx, is_left);
            }
            lemma_payload_trans(*old(self), start, painted);
            lemma_payload_trans(*old(self), painted, *self);
        }
    }

    /// The last step of `fix_delete`, beside a black sibling with a red child: when only the
    /// inner child is red, it is rotated up first; then the sibling takes the parent's
    /// color, the parent and the sibling's outer child turn black, and the sibling rotates
    /// up, which ends the deficit.
    #[verifier::rlimit(60)]
    fn rotate_red_nephew(&mut self, parent: usize, is_left: bool, sibling_idx: usize)
        requires
            old(self).shaped(None, None),
            old(self).shape@.contains(parent),
            is_left ==> old(self).node(parent).right == Some(sibling_idx),
            !is_left ==> old(self).node(parent).left == Some(sibling_idx),
            old(self).node(sibling_idx).color == Color::Black,
            (old(self).node(sibling_idx).left matches Some(i) && old(self).node(i).color == Color::Red) || (old(
                self,
            ).node(sibling_idx).right matches Some(i) && old(self).node(i).color == Color::Red),
        ensures
            final(self).shaped(None, None),
            forall|j: usize| #[trigger] final(self).shape@.contains(j) == old(self).shape@.contains(j),
            same_payload(*old(self), *final(self)),
            char_sum(final(self).nodes(), final(self).shape@) == char_sum(old(self).nodes(), old(self).shape@),
            line_sum(final(self).nodes(), final(self).shape@) == line_sum(old(self).nodes(), old(self).shape@),
            old(self).short_at(parent, is_left) ==> final(self).no_red_pairs() && final(self).black_balanced(),
    {
        let ghost tracking = old(self).short_at(parent, is_left);
        proof {
            self.lemma_shaped_basics(None, None);
            lemma_child_link(*self, parent, None, None);
            lemma_child_link(*self, sibling_idx, None, None);
            lemma_parent_link(*self, sibling_idx, None, None);
        }
        let sibling_left = self.arena.get(sibling_idx).left;
        let sibling_right = self.arena.get(sibling_idx).right;
        let sibling_left_black = match sibling_left {
            Some(i) => self.arena.get(i).color == Color::Black,
            None => true,
        };
        let sibling_right_black = match sibling_right {
            Some(i) => self.arena.get(i).color == Color::Black,
            None => true,
        };
        if is_left {
            if sibling_right_black {
                // the sibling's outer child is black and its inner child red: paint
                // the inner child black and the sibling red, and rotate the sibling right
                let ghost s3 = *self;
                let inner = sibling_left.unwrap();
                self.paint(inner, Color::Black, Ghost(None));
                let ghost m3 = *self;
                self.paint(sibling_idx, Color::Red, Ghost(None));
                let ghost c3 = *self;
                proof {
                    assert(m3.occupied(sibling_idx));
                    lemma_colors_trans(s3, m3, c3);
                    assert(self.node(sibling_idx).left is Some);
                    lemma_child_link(*self, inner, None, None);
                }
                self.rotate_right(sibling_idx, Ghost(None));
                proof {
                    if tracking {
                        lemma_rotation_pairs(c3, *self, sibling_idx, inner, c3.node(inner).right);
                        crate::deficit::lemma_near_red_step(s3, c3, *self, parent, sibling_idx, inner, true);
                    }
                    lemma_payload_trans(*old(self), s3, c3);
                    lemma_payload_trans(*old(self), c3, *self);
                }
            }
            // the sibling's outer child is red: the sibling takes the parent's color,
            // the parent and that child turn black, and the sibling rotates up
            let ghost a4 = *self;
            proof {
                self.lemma_shaped_basics(None, None);
                lemma_child_link(*self, parent, None, None);
                assert(self.node(parent).right is Some);
            }
            let sibling = self.arena.get(parent).right.unwrap();
            proof {
                lemma_child_link(*self, sibling, None, None);
            }
            let parent_color = self.arena.get(parent).color;
            self.paint(sibling, parent_color, Ghost(None));
            let ghost m4 = *self;
            self.paint(parent, Color::Black, Ghost(None));
            let ghost n4 = *self;
            proof {
                assert(m4.occupied(parent));
                lemma_colors_trans(a4, m4, n4);
            }
            if let Some(sr) = self.arena.get(sibling).right {
                proof {
                    lemma_child_link(*self, sibling, None, None);
                }
                self.paint(sr, Color::Black, Ghost(None));
                proof {
                    lemma_colors_trans(a4, n4, *self);
                }
            }
            let ghost c4 = *self;
            proof {
                assert(self.node(parent).right is Some);
            }
            self.rotate_left(parent, Ghost(None));
            proof {
                if tracking {
                    lemma_rotation_pairs(c4, *self, parent, sibling, c4.node(sibling).left);
                    crate::deficit::lemma_far_red_step(a4, c4, *self, parent, sibling, a4.node(sibling).right->0, true);
                }
                lemma_payload_trans(*old(self), a4, c4);
                lemma_payload_trans(*old(self), c4, *self);
            }
        } else {
            if sibling_left_black {
                // the sibling's outer child is black and its inner child red: paint
                // the inner child black and the sibling red, and rotate the sibling left
                let ghost s3 = *self;
                let inner = sibling_right.unwrap();
                self.paint(inner, Color::Black, Ghost(None));
                let ghost m3 = *self;
                self.paint(sibling_idx, Color::Red, Ghost(None));
                let ghost c3 = *self;
                proof {
                    assert(m3.occupied(sibling_idx));
                    lemma_colors_trans(s3, m3, c3);
                    assert(self.node(sibling_idx).right is Some);
                    lemma_child_link(*self, inner, None, None);
                }
                self.rotate_left(sibling_idx, Ghost(None));
                proof {
                    if tracking {
                        lemma_rotation_pairs(c3, *self, sibling_idx, inner, c3.node(inner).left);
                        crate::deficit::lemma_near_red_step(s3, c3, *self, parent, sibling_idx, inner, false);
                    }
                    lemma_payload_trans(*old(self), s3, c3);
                    lemma_payload_trans(*old(self), c3, *self);
                }
            }
            // the sibling's outer child is red: the sibling takes the parent's color,
            // the parent and that child turn black, and the sibling rotates up
            let ghost a4 = *self;
            proof {
                self.lemma_shaped_basics(None, None);
                lemma_child_link(*self, parent, None, None);
                assert(self.node(parent).left is Some);
            }
            let sibling = self.arena.get(parent).left.unwrap();
            proof {
                lemma_child_link(*self, sibling, None, None);
            }
            let parent_color = self.arena.get(parent).color;
            self.paint(sibling, parent_color, Ghost(None));
            let ghost m4 = *self;
            self.paint(parent, Color::Black, Ghost(None));
            let ghost n4 = *self;
            proof {
                assert(m4.occupied(parent));
                lemma_colors_trans(a4, m4, n4);
            }
            if let Some(sl) = self.arena.get(sibling).left {
                proof {
                    lemma_child_link(*self, sibling, None, None);
                }
                self.paint(sl, Color::Black, Ghost(None));
                proof {
                    lemma_colors_trans(a4, n4, *self);
                }
            }
            let ghost c4 = *self;
            proof {
                assert(self.node(parent).left is Some);
            }
            self.rotate_right(parent, Ghost(None));
            proof {
                if tracking {
                    lemma_rotation_pairs(c4, *self, parent, sibling, c4.node(sibling).right);
                    crate::deficit::lemma_far_red_step(a4, c4, *self, parent, sibling, a4.node(sibling).left->0, false);
                }
                lemma_payload_trans(*old(self), a4, c4);
                lemma_payload_trans(*old(self), c4, *self);
            }
        }
    }

}

} // verus!
