use vstd::prelude::*;
use crate::arena::{Color, Node};
use crate::doc::pieces_ok;
use crate::balance::lemma_payload_trans;
use crate::metadata::{lemma_parent_link, lemma_shaped_transfer};
use crate::rebalance::same_payload;
use crate::shape::{agree_at, agree_on, char_sum, lemma_frame, lemma_links_occupied, line_sum, links, node_of, Shape};
use crate::shape_facts::{
    lemma_child, lemma_parent_in, lemma_replace, lemma_replace_ordered, lemma_sub_child_in, lemma_subtree,
    lemma_subtree_links, lemma_single, lemma_within_child, lemma_within_same, lemma_within_union, relinked, single,
};
use crate::tree::PieceTree;

verus! {

/// The subtree at `c` with the one-node tree `k` hung in as its left (or right) child.
pub open spec fn hung(t: Shape, c: usize, k: usize, go_left: bool) -> Shape {
    if go_left {
        Shape::Branch { id: c, left: Box::new(single(k)), right: Box::new(t.subtree(c).right_of()) }
    } else {
        Shape::Branch { id: c, left: Box::new(t.subtree(c).left_of()), right: Box::new(single(k)) }
    }
}

/// Hanging a detached node under `c` gives a well-linked ordered tree with one more slot,
/// whose totals are stale only above `c`.
pub proof fn lemma_attach_links(
    nodes0: Seq<Option<Node>>,
    nodes2: Seq<Option<Node>>,
    t: Shape,
    c: usize,
    k: usize,
    go_left: bool,
)
    requires
        t.ordered(),
        links(nodes0, t, None, None),
        t.contains(c),
        !t.contains(k),
        t.within(c, single(k)),
        go_left ==> k < c && t.subtree(c).left_of() == Shape::Leaf,
        !go_left ==> k > c && t.subtree(c).right_of() == Shape::Leaf,
        (k as int) < nodes0.len(),
        nodes0[k as int] is Some,
        nodes2.len() == nodes0.len(),
        forall|j: int| 0 <= j < nodes0.len() && j != c && j != k ==> nodes2[j] == nodes0[j],
        nodes2[c as int] is Some,
        nodes2[k as int] is Some,
        ({
            let c0 = node_of(nodes0, c);
            let c2 = node_of(nodes2, c);
            &&& c2.piece == c0.piece
            &&& c2.parent == c0.parent
            &&& go_left ==> c2.left == Some(k) && c2.right == c0.right
                && c2.left_char_count == node_of(nodes0, k).piece.length
                && c2.left_line_count == node_of(nodes0, k).piece.line_feed_count
            &&& !go_left ==> c2.right == Some(k) && c2.left == c0.left
                && c2.left_char_count == c0.left_char_count && c2.left_line_count == c0.left_line_count
        }),
        ({
            let k2 = node_of(nodes2, k);
            &&& k2.piece == node_of(nodes0, k).piece
            &&& k2.parent == Some(c)
            &&& k2.left is None
            &&& k2.right is None
            &&& k2.left_char_count == 0
            &&& k2.left_line_count == 0
        }),
    ensures
        t.replace(c, hung(t, c, k, go_left)).ordered(),
        links(nodes2, t.replace(c, hung(t, c, k, go_left)), None, Some(c)),
        forall|j: usize| #[trigger] t.replace(c, hung(t, c, k, go_left)).contains(j) <==> (t.contains(j) || j == k),
        char_sum(nodes2, t.replace(c, hung(t, c, k, go_left))) == char_sum(nodes0, t) + node_of(nodes0, k).piece.length,
        line_sum(nodes2, t.replace(c, hung(t, c, k, go_left))) == line_sum(nodes0, t) + node_of(nodes0, k).piece.line_feed_count,
{
    lemma_links_occupied(nodes0, t, None, None);
    lemma_subtree(t, c);
    lemma_subtree_links(nodes0, t, None, None, c);
    lemma_parent_in(t, c, None);
    let s = t.subtree(c);
    let n = hung(t, c, k, go_left);
    let l = s.left_of();
    let r = s.right_of();
    assert(s == Shape::Branch { id: c, left: Box::new(l), right: Box::new(r) });
    assert(links(nodes0, s, t.parent_of(c, None), None));
    let one = single(k);
    assert(one.contains(k));
    assert forall|j: usize| one.contains(j) implies j == k by {
        assert(!Shape::Leaf.contains(j));
    }
    // the new leaf
    assert(links(nodes2, Shape::Leaf, Some(k), None));
    assert(links(nodes2, one, Some(c), None));
    assert(char_sum(nodes2, one) == node_of(nodes0, k).piece.length);
    assert(line_sum(nodes2, one) == node_of(nodes0, k).piece.line_feed_count);
    // the untouched child of c
    let other = if go_left { r } else { l };
    assert forall|j: usize| #[trigger] other.contains(j) implies s.contains(j) && j != c && j != k by {
        assert(s.contains(j));
        assert(t.contains(j));
    }
    assert(agree_on(nodes0, nodes2, other)) by {
        assert forall|j: usize| #[trigger] other.contains(j) implies agree_at(nodes0, nodes2, j) by {
            assert(s.contains(j));
            assert(t.contains(j));
        }
    }
    lemma_frame(nodes0, nodes2, other, Some(c), None);
    assert(n.ordered()) by {
        assert(one.ordered());
        assert(s.ordered());
    }
    assert(links(nodes2, n, t.parent_of(c, None), None));
    assert forall|j: usize| n.contains(j) implies one.contains(j) || s.contains(j) by {}
    lemma_within_same(t, c, s);
    lemma_within_union(t, c, one, s, n);
    assert forall|j: usize| #[trigger] t.contains(j) && !t.subtree(c).contains(j) && Some(j) != t.parent_of(c, None)
        implies agree_at(nodes0, nodes2, j) by {
        assert(j != c);
        assert(j != k);
    }
    if let Some(p) = t.parent_of(c, None) {
        crate::shape_facts::lemma_parent_child(t, c, None);
        lemma_subtree_links(nodes0, t, None, None, p);
        lemma_subtree(t, p);
        lemma_sub_child_in(t, p);
        assert(p != c && p != k);
        assert(nodes2[p as int] == nodes0[p as int]);
        let sp = t.subtree(p);
        if let Shape::Branch { id, left, right } = sp {
            if c < p {
                assert(node_of(nodes0, p).left == Some(c));
            } else {
                assert(right.contains(c));
                assert(node_of(nodes0, p).right == Some(c));
            }
        }
        assert(relinked(nodes0, nodes2, p, c, Some(c)));
    }
    lemma_replace(nodes0, nodes2, t, None, c, n);
    lemma_replace_ordered(t, c, n);
    assert forall|j: usize| #[trigger] t.replace(c, n).contains(j) <==> (t.contains(j) || j == k) by {
        if s.contains(j) {
            assert(t.contains(j));
        }
        if j == k {
            assert(n.contains(k));
        }
        if t.contains(j) && s.contains(j) {
            assert(n.contains(j) == (j == c || l.contains(j) || r.contains(j) || j == k));
        }
    }
    if go_left {
        assert(l == Shape::Leaf);
        assert(char_sum(nodes0, s) == node_of(nodes0, c).piece.length + char_sum(nodes0, r));
        assert(line_sum(nodes0, s) == node_of(nodes0, c).piece.line_feed_count + line_sum(nodes0, r));
    } else {
        assert(r == Shape::Leaf);
        assert(char_sum(nodes0, r) == 0);
        assert(line_sum(nodes0, r) == 0);
        assert(char_sum(nodes0, s) == char_sum(nodes0, l) + node_of(nodes0, c).piece.length);
        assert(line_sum(nodes0, s) == line_sum(nodes0, l) + node_of(nodes0, c).piece.line_feed_count);
    }
    crate::shape_facts::lemma_subtree_sums(nodes0, t, c);
}

} // verus!

verus! {

/// Hanging the detached node `k` under `c` gives a tree that is shaped up to the totals
/// above `c`, holds `k`, and keeps every piece.
pub proof fn lemma_attach(a: PieceTree, b: PieceTree, c: usize, k: usize, go_left: bool)
    requires
        a.shaped(None, Some(k)),
        a.shape@.contains(c),
        a.shape@.within(c, single(k)),
        go_left ==> k < c && a.node(c).left is None,
        !go_left ==> k > c && a.node(c).right is None,
        b.nodes().len() == a.nodes().len(),
        forall|j: int| 0 <= j < a.nodes().len() && j != c && j != k ==> b.nodes()[j] == a.nodes()[j],
        b.occupied(c),
        b.occupied(k),
        ({
            let c0 = a.node(c);
            let c2 = b.node(c);
            &&& c2.piece == c0.piece
            &&& c2.parent == c0.parent
            &&& c2.color == c0.color
            &&& go_left ==> c2.left == Some(k) && c2.right == c0.right
                && c2.left_char_count == a.node(k).piece.length
                && c2.left_line_count == a.node(k).piece.line_feed_count
            &&& !go_left ==> c2.right == Some(k) && c2.left == c0.left
                && c2.left_char_count == c0.left_char_count && c2.left_line_count == c0.left_line_count
        }),
        ({
            let k2 = b.node(k);
            &&& k2.piece == a.node(k).piece
            &&& k2.color == a.node(k).color
            &&& k2.parent == Some(c)
            &&& k2.left is None
            &&& k2.right is None
            &&& k2.left_char_count == 0
            &&& k2.left_line_count == 0
        }),
        b.shape@ == a.shape@.replace(c, hung(a.shape@, c, k, go_left)),
        b.root == a.root,
        b.arena.free_slots() == a.arena.free_slots(),
        b.original_buffer == a.original_buffer,
        b.add_buffer == a.add_buffer,
        b.total_length == a.total_length,
        b.total_lines == a.total_lines,
        char_sum(a.nodes(), a.shape@) + a.node(k).piece.length <= usize::MAX,
        line_sum(a.nodes(), a.shape@) + a.node(k).piece.line_feed_count < usize::MAX,
    ensures
        b.shaped(Some(c), None),
        b.shape@.contains(c),
        forall|j: usize| #[trigger] b.shape@.contains(j) <==> (a.shape@.contains(j) || j == k),
        same_payload(a, b),
        char_sum(b.nodes(), b.shape@) == char_sum(a.nodes(), a.shape@) + a.node(k).piece.length,
        line_sum(b.nodes(), b.shape@) == line_sum(a.nodes(), a.shape@) + a.node(k).piece.line_feed_count,
{
    reveal(PieceTree::shaped);
    let t = a.shape@;
    lemma_subtree(t, c);
    lemma_subtree_links(a.nodes(), t, None, None, c);
    let s = t.subtree(c);
    if go_left {
        if let Shape::Branch { id, left, right } = s {
            assert(left.root() is None);
        }
    } else {
        if let Shape::Branch { id, left, right } = s {
            assert(right.root() is None);
        }
    }
    assert(a.occupied(k));
    assert(!t.contains(k));
    lemma_attach_links(a.nodes(), b.nodes(), t, c, k, go_left);
    assert forall|i: int| 0 <= i < a.nodes().len() implies (a.nodes()[i] is Some <==> #[trigger] b.nodes()[i] is Some)
        && (a.nodes()[i] is Some ==> a.nodes()[i].unwrap().piece == b.nodes()[i].unwrap().piece) by {}
    assert(same_payload(a, b));
    assert forall|i: usize| #[trigger] b.occupied(i) == a.occupied(i) by {
        if (i as int) < a.nodes().len() {
            assert(b.nodes()[i as int] is Some == a.nodes()[i as int] is Some);
        }
    }
    assert forall|i: int| 0 <= i < b.nodes().len() && #[trigger] b.nodes()[i] is Some implies crate::piece::piece_wf(
        b.nodes()[i].unwrap().piece,
        crate::doc::buffer_for(b.nodes()[i].unwrap().piece.buffer_kind, b.original_bytes(), b.add_bytes()),
    ) by {
        assert(a.nodes()[i] is Some);
    }
    assert forall|q: int| 0 <= q < b.arena.free_slots().len() implies {
        &&& #[trigger] b.arena.free_slots()[q] < b.arena.slots().len()
        &&& b.arena.slots()[b.arena.free_slots()[q] as int] is None
    } by {
        assert(a.arena.free_slots()[q] < a.arena.slots().len());
        assert(a.arena.slots()[a.arena.free_slots()[q] as int] is None);
    }
    assert forall|i: int| 0 <= i < b.arena.slots().len() && #[trigger] b.arena.slots()[i] is None
        implies b.arena.free_slots().contains(i as usize) by {
        assert(a.arena.slots()[i] is None);
    }
    assert(b.shape@.root() == t.root()) by {
        if let Shape::Branch { id, left, right } = t {
            if c != id {
            }
        }
    }
    assert(b.shape@.contains(c));
}

/// The first node of an empty tree becomes its black root.
pub proof fn lemma_first_node(a: PieceTree, b: PieceTree, k: usize)
    requires
        a.shaped(None, Some(k)),
        a.root is None,
        b.nodes() == a.nodes().update(k as int, Some(Node { color: Color::Black, ..a.node(k) })),
        a.node(k).left is None,
        a.node(k).right is None,
        a.node(k).parent is None,
        a.node(k).left_char_count == 0,
        a.node(k).left_line_count == 0,
        b.shape@ == single(k),
        b.root == Some(k),
        b.arena.free_slots() == a.arena.free_slots(),
        b.original_buffer == a.original_buffer,
        b.add_buffer == a.add_buffer,
        b.total_length == a.total_length,
        b.total_lines == a.total_lines,
        a.node(k).piece.length <= usize::MAX,
        a.node(k).piece.line_feed_count < usize::MAX,
    ensures
        b.shaped(None, None),
        forall|j: usize| #[trigger] b.shape@.contains(j) <==> (a.shape@.contains(j) || j == k),
        same_payload(a, b),
        char_sum(b.nodes(), b.shape@) == char_sum(a.nodes(), a.shape@) + a.node(k).piece.length,
        line_sum(b.nodes(), b.shape@) == line_sum(a.nodes(), a.shape@) + a.node(k).piece.line_feed_count,
{
    reveal(PieceTree::shaped);
    assert(a.shape@ == Shape::Leaf);
    assert(a.occupied(k));
    assert(char_sum(a.nodes(), a.shape@) == 0);
    assert(line_sum(a.nodes(), a.shape@) == 0);
    assert forall|j: usize| #[trigger] b.shape@.contains(j) <==> (a.shape@.contains(j) || j == k) by {
        assert(!Shape::Leaf.contains(j));
    }
    assert forall|i: int| 0 <= i < a.nodes().len() implies (a.nodes()[i] is Some <==> #[trigger] b.nodes()[i] is Some)
        && (a.nodes()[i] is Some ==> a.nodes()[i].unwrap().piece == b.nodes()[i].unwrap().piece) by {}
    assert(same_payload(a, b));
    assert forall|i: usize| #[trigger] b.occupied(i) == a.occupied(i) by {
        if (i as int) < a.nodes().len() {
            assert(b.nodes()[i as int] is Some == a.nodes()[i as int] is Some);
        }
    }
    assert forall|i: int| 0 <= i < b.nodes().len() && #[trigger] b.nodes()[i] is Some implies crate::piece::piece_wf(
        b.nodes()[i].unwrap().piece,
        crate::doc::buffer_for(b.nodes()[i].unwrap().piece.buffer_kind, b.original_bytes(), b.add_bytes()),
    ) by {
        assert(a.nodes()[i] is Some);
    }
    assert forall|q: int| 0 <= q < b.arena.free_slots().len() implies {
        &&& #[trigger] b.arena.free_slots()[q] < b.arena.slots().len()
        &&& b.arena.slots()[b.arena.free_slots()[q] as int] is None
    } by {
        assert(a.arena.free_slots()[q] < a.arena.slots().len());
        assert(a.arena.slots()[a.arena.free_slots()[q] as int] is None);
    }
    assert forall|i: int| 0 <= i < b.arena.slots().len() && #[trigger] b.arena.slots()[i] is None
        implies b.arena.free_slots().contains(i as usize) by {
        assert(a.arena.slots()[i] is None);
    }
    assert(links(b.nodes(), Shape::Leaf, Some(k), None));
    assert(char_sum(b.nodes(), Shape::Leaf) == 0);
    assert(line_sum(b.nodes(), Shape::Leaf) == 0);
    assert(links(b.nodes(), b.shape@, None, None));
    assert(Shape::Leaf.ordered());
    assert(forall|j: usize| !Shape::Leaf.contains(j));
    assert(b.shape@.ordered());
}

} // verus!

verus! {

impl PieceTree {
    /// Hangs the detached node in slot `idx` into the tree as a leaf where the slot
    /// comparisons lead, brings the totals above it up to date, and rebalances.
    pub(crate) fn insert_node(&mut self, idx: usize)
        requires
            old(self).shaped(None, Some(idx)),
            old(self).node(idx).left is None,
            old(self).node(idx).right is None,
            old(self).node(idx).parent is None,
            old(self).node(idx).left_char_count == 0,
            old(self).node(idx).left_line_count == 0,
            char_sum(old(self).nodes(), old(self).shape@) + old(self).node(idx).piece.length <= usize::MAX,
            line_sum(old(self).nodes(), old(self).shape@) + old(self).node(idx).piece.line_feed_count < usize::MAX,
        ensures
            final(self).shaped(None, None),
            forall|j: usize| #[trigger] final(self).shape@.contains(j) <==> (old(self).shape@.contains(j) || j == idx),
            same_payload(*old(self), *final(self)),
            char_sum(final(self).nodes(), final(self).shape@) == char_sum(old(self).nodes(), old(self).shape@)
                + old(self).node(idx).piece.length,
            line_sum(final(self).nodes(), final(self).shape@) == line_sum(old(self).nodes(), old(self).shape@)
                + old(self).node(idx).piece.line_feed_count,
            final(self).root_black(),
            old(self).no_red_pairs() ==> final(self).no_red_pairs(),
            old(self).no_red_pairs() && old(self).black_balanced() && old(self).node(idx).color == Color::Red
                ==> final(self).black_balanced(),
    {
        let ghost bal = old(self).no_red_pairs() && old(self).black_balanced() && old(self).node(idx).color == Color::Red;
        proof {
            self.lemma_shaped_basics(None, Some(idx));
        }
        let new_piece_length = self.arena.get(idx).piece.length;
        let new_piece_lines = self.arena.get(idx).piece.line_feed_count;

        if self.root.is_none() {
            self.root = Some(idx);
            self.arena.get_mut(idx).color = Color::Black;
            proof {
                self.shape = Ghost(single(idx));
                lemma_first_node(*old(self), *self, idx);
                assert(self.node(idx).color == Color::Black);
                assert forall|i: usize| #[trigger] self.red_pair(i) && self.shape@.contains(i) implies Some(i)
                    == None::<usize> by {
                    crate::shape_facts::lemma_single(idx);
                    assert(i == idx);
                }
                assert(crate::coloring::balanced(self.nodes(), single(idx))) by {
                    reveal_with_fuel(crate::coloring::balanced, 2);
                }
            }
            return;
        }

        let mut current = self.root.unwrap();
        proof {
            assert(self.shape@.contains(current)) by {
                if let Shape::Branch { id, .. } = self.shape@ {
                }
            }
        }
        loop
            invariant
                *self == *old(self),
                bal == (old(self).no_red_pairs() && old(self).black_balanced() && old(self).node(idx).color == Color::Red),
                self.shaped(None, Some(idx)),
                self.shape@.contains(current),
                self.shape@.within(current, single(idx)),
                !self.shape@.contains(idx),
                self.occupied(idx),
                new_piece_length == self.node(idx).piece.length,
                new_piece_lines == self.node(idx).piece.line_feed_count,
                self.node(idx).left is None,
                self.node(idx).right is None,
                self.node(idx).parent is None,
                self.node(idx).left_char_count == 0,
                self.node(idx).left_line_count == 0,
                char_sum(self.nodes(), self.shape@) + self.node(idx).piece.length <= usize::MAX,
                line_sum(self.nodes(), self.shape@) + self.node(idx).piece.line_feed_count < usize::MAX,
            decreases self.shape@.subtree(current).size(),
        {
            let curr_idx = current;
            proof {
                self.lemma_shaped_basics(None, Some(idx));
                lemma_parent_link(*self, curr_idx, None, Some(idx));
                lemma_subtree(self.shape@, curr_idx);
                lemma_subtree_links(self.nodes(), self.shape@, None, None, curr_idx);
            }
            proof {
                lemma_single(idx);
                assert(idx != curr_idx);
            }
            let left = self.arena.get(curr_idx).left;
            let right = self.arena.get(curr_idx).right;
            if idx < curr_idx {
                match left {
                    None => {
                        // hang the new node as the left child, whose totals are its own
                        {
                            let node = self.arena.get_mut(curr_idx);
                            node.left = Some(idx);
                            node.left_char_count = new_piece_length;
                            node.left_line_count = new_piece_lines;
                        }
                        self.arena.get_mut(idx).parent = Some(curr_idx);
                        proof {
                            let t = old(self).shape@;
                            self.shape = Ghost(t.replace(curr_idx, hung(t, curr_idx, idx, true)));
                            lemma_attach(*old(self), *self, curr_idx, idx, true);
                            if bal {
                                let t = old(self).shape@;
                                assert forall|j: usize| #[trigger] t.contains(j) implies crate::shape::node_of(
                                    self.nodes(),
                                    j,
                                ).color == crate::shape::node_of(old(self).nodes(), j).color by {
                                    assert(j != idx);
                                }
                                crate::coloring::lemma_black_hung(old(self).nodes(), self.nodes(), t, curr_idx, idx, true);
                            }
                            if old(self).no_red_pairs() {
                                assert forall|j: usize| #[trigger] old(self).shape@.contains(j) implies self.node(j).parent
                                    == old(self).node(j).parent && self.node(j).color == old(self).node(j).color by {
                                    assert(j != idx);
                                }
                                crate::coloring::lemma_hung_pairs(*old(self), *self, idx);
                            }
                        }
                        let ghost attached = *self;
                        self.update_metadata(curr_idx, Ghost(None));
                        let ghost counted = *self;
                        proof {
                            if old(self).no_red_pairs() {
                                attached.lemma_shaped_basics(Some(curr_idx), None);
                                crate::coloring::lemma_pairs_kept(attached, counted, Some(curr_idx), None);
                                assert forall|i: usize| #[trigger] counted.red_pair(i) && counted.shape@.contains(i)
                                    implies Some(i) == Some(idx) by {
                                    assert(attached.red_pair(i));
                                }
                            }
                            if bal {
                                attached.lemma_shaped_basics(Some(curr_idx), None);
                                assert forall|j: usize| #[trigger] counted.shape@.contains(j) implies crate::shape::node_of(
                                    counted.nodes(),
                                    j,
                                ).color == crate::shape::node_of(attached.nodes(), j).color by {
                                    assert(attached.occupied(j));
                                }
                                crate::coloring::lemma_black_frame(attached.nodes(), counted.nodes(), counted.shape@);
                            }
                        }
                        self.fix_insert(idx);
                        proof {
                            lemma_payload_trans(*old(self), attached, counted);
                            lemma_payload_trans(*old(self), counted, *self);
                        }
                        return;
                    },
                    Some(l) => {
                        proof {
                            lemma_child(self.shape@, curr_idx, l, None);
                            lemma_within_child(self.shape@, curr_idx, l, single(idx));
                        }
                        current = l;
                    },
                }
            } else {
                match right {
                    None => {
                        {
                            let node = self.arena.get_mut(curr_idx);
                            node.right = Some(idx);
                        }
                        self.arena.get_mut(idx).parent = Some(curr_idx);
                        proof {
                            let t = old(self).shape@;
                            self.shape = Ghost(t.replace(curr_idx, hung(t, curr_idx, idx, false)));
                            lemma_attach(*old(self), *self, curr_idx, idx, false);
                            if bal {
                                let t = old(self).shape@;
                                assert forall|j: usize| #[trigger] t.contains(j) implies crate::shape::node_of(
                                    self.nodes(),
                                    j,
                                ).color == crate::shape::node_of(old(self).nodes(), j).color by {
                                    assert(j != idx);
                                }
                                crate::coloring::lemma_black_hung(old(self).nodes(), self.nodes(), t, curr_idx, idx, false);
                            }
                            if old(self).no_red_pairs() {
                                assert forall|j: usize| #[trigger] old(self).shape@.contains(j) implies self.node(j).parent
                                    == old(self).node(j).parent && self.node(j).color == old(self).node(j).color by {
                                    assert(j != idx);
                                }
                                crate::coloring::lemma_hung_pairs(*old(self), *self, idx);
                            }
                        }
                        let ghost attached = *self;
                        self.update_metadata(curr_idx, Ghost(None));
                        let ghost counted = *self;
                        proof {
                            if old(self).no_red_pairs() {
                                attached.lemma_shaped_basics(Some(curr_idx), None);
                                crate::coloring::lemma_pairs_kept(attached, counted, Some(curr_idx), None);
                                assert forall|i: usize| #[trigger] counted.red_pair(i) && counted.shape@.contains(i)
                                    implies Some(i) == Some(idx) by {
                                    assert(attached.red_pair(i));
                                }
                            }
                            if bal {
                                attached.lemma_shaped_basics(Some(curr_idx), None);
                                assert forall|j: usize| #[trigger] counted.shape@.contains(j) implies crate::shape::node_of(
                                    counted.nodes(),
                                    j,
                                ).color == crate::shape::node_of(attached.nodes(), j).color by {
                                    assert(attached.occupied(j));
                                }
                                crate::coloring::lemma_black_frame(attached.nodes(), counted.nodes(), counted.shape@);
                            }
                        }
                        self.fix_insert(idx);
                        proof {
                            lemma_payload_trans(*old(self), attached, counted);
                            lemma_payload_trans(*old(self), counted, *self);
                        }
                        return;
                    },
                    Some(r) => {
                        proof {
                            lemma_child(self.shape@, curr_idx, r, None);
                            lemma_within_child(self.shape@, curr_idx, r, single(idx));
                        }
                        current = r;
                    },
                }
            }
        }
    }
}

} // verus!
