use vstd::prelude::*;
use crate::arena::Node;
use crate::doc::pieces_ok;
use crate::rebalance::{same_colors, same_payload};
use crate::shape::{agree_at, agree_on, char_sum, lemma_frame, line_sum, links, node_of, Shape};
use crate::shape_facts::{
    lemma_fix_left, lemma_parent_child, lemma_parent_in, lemma_stale_up, lemma_sub_child_in, lemma_subtree,
    lemma_subtree_links, lemma_unstale,
};
use crate::tree::PieceTree;

verus! {

/// Every occupied slot of `a` keeps its child and parent links, and its color, in `b`.
pub open spec fn same_links_of(a: PieceTree, b: PieceTree) -> bool {
    forall|i: usize| #[trigger] a.occupied(i) ==> {
        &&& b.node(i).left == a.node(i).left
        &&& b.node(i).right == a.node(i).right
        &&& b.node(i).parent == a.node(i).parent
        &&& b.node(i).color == a.node(i).color
    }
}

/// A tree with the payload, shape and root of a shaped tree, whose links hold for `stale2`
/// with the same totals, is shaped for `stale2`.
pub proof fn lemma_shaped_transfer(a: PieceTree, b: PieceTree, stale: Option<usize>, stale2: Option<usize>, extra: Option<usize>)
    requires
        a.shaped(stale, extra),
        same_payload(a, b),
        b.shape@ == a.shape@,
        b.root == a.root,
        links(b.nodes(), b.shape@, None, stale2),
        char_sum(b.nodes(), b.shape@) == char_sum(a.nodes(), a.shape@),
        line_sum(b.nodes(), b.shape@) == line_sum(a.nodes(), a.shape@),
    ensures
        b.shaped(stale2, extra),
{
    reveal(PieceTree::shaped);
    assert forall|i: usize| #[trigger] b.occupied(i) == a.occupied(i) by {
        if (i as int) < a.nodes().len() {
            assert(b.nodes()[i as int] is Some == a.nodes()[i as int] is Some);
        }
    }
    assert forall|i: int| 0 <= i < b.nodes().len() && #[trigger] b.nodes()[i] is Some implies crate::piece::piece_wf(
        b.nodes()[i].unwrap().piece,
        crate::doc::buffer_for(b.nodes()[i].unwrap().piece.buffer_kind, b.original_bytes(), b.add_bytes()),
    ) by {
        assert(a.nodes()[i] is Some);
    }
    assert forall|k: int| 0 <= k < b.arena.free_slots().len() implies {
        &&& #[trigger] b.arena.free_slots()[k] < b.arena.slots().len()
        &&& b.arena.slots()[b.arena.free_slots()[k] as int] is None
    } by {
        assert(a.arena.free_slots()[k] < a.arena.slots().len());
        assert(a.arena.slots()[a.arena.free_slots()[k] as int] is None);
    }
    assert forall|i: int| 0 <= i < b.arena.slots().len() && #[trigger] b.arena.slots()[i] is None
        implies b.arena.free_slots().contains(i as usize) by {
        assert(a.arena.slots()[i] is None);
    }
}

/// The parent link of a node of a shaped tree names a node one level up that links back.
pub proof fn lemma_parent_link(tree: PieceTree, c: usize, stale: Option<usize>, extra: Option<usize>)
    requires
        tree.shaped(stale, extra),
        tree.shape@.contains(c),
    ensures
        tree.occupied(c),
        tree.shape@.subtree(c).root() == Some(c),
        tree.node(c).parent == tree.shape@.parent_of(c, None),
        tree.node(c).parent is None ==> tree.root == Some(c),
        tree.node(c).parent matches Some(p) ==> {
            &&& tree.shape@.contains(p)
            &&& tree.occupied(p)
            &&& p != c
            &&& tree.shape@.depth(c) == tree.shape@.depth(p) + 1
            &&& (tree.node(p).left == Some(c) <==> c < p)
            &&& (tree.node(p).right == Some(c) <==> c > p)
            &&& (tree.node(p).left == Some(c) ==> tree.shape@.subtree(p).left_of() == tree.shape@.subtree(c))
            &&& (tree.node(p).right == Some(c) ==> tree.shape@.subtree(p).right_of() == tree.shape@.subtree(c))
        },
{
    tree.lemma_shaped_basics(stale, extra);
    let t = tree.shape@;
    let nodes = tree.nodes();
    lemma_subtree_links(nodes, t, None, stale, c);
    lemma_parent_in(t, c, None);
    lemma_subtree(t, c);
    if let Some(p) = tree.node(c).parent {
        lemma_parent_child(t, c, None);
        lemma_subtree_links(nodes, t, None, stale, p);
        lemma_subtree(t, p);
        lemma_subtree(t, c);
        lemma_sub_child_in(t, p);
        let sp = t.subtree(p);
        if let Shape::Branch { id, left, right } = sp {
            if left.contains(c) {
                assert(c < p);
            }
            if right.contains(c) {
                assert(c > p);
            }
        }
    } else {
        crate::shape_facts::lemma_parent_is_top(t, c, None);
    }
}

/// One step of the walk up: recomputing the left totals of the parent of a left child moves
/// the stale allowance up to the parent.
pub proof fn lemma_update_left_step(a: PieceTree, b: PieceTree, c: usize, p: usize, extra: Option<usize>)
    requires
        a.shaped(Some(c), extra),
        a.shape@.contains(c),
        a.node(c).parent == Some(p),
        a.node(p).left == Some(c),
        b.nodes().len() == a.nodes().len(),
        a.occupied(p),
        b.nodes() == a.nodes().update(p as int, Some(Node {
            left_char_count: char_sum(a.nodes(), a.shape@.subtree(c)) as usize,
            left_line_count: line_sum(a.nodes(), a.shape@.subtree(c)) as usize,
            ..a.node(p)
        })),
        char_sum(a.nodes(), a.shape@.subtree(c)) <= usize::MAX,
        line_sum(a.nodes(), a.shape@.subtree(c)) <= usize::MAX,
        b.shape@ == a.shape@,
        b.root == a.root,
        b.arena.free_slots() == a.arena.free_slots(),
        b.original_buffer == a.original_buffer,
        b.add_buffer == a.add_buffer,
        b.total_length == a.total_length,
        b.total_lines == a.total_lines,
    ensures
        b.shaped(Some(p), extra),
        same_payload(a, b),
        same_colors(a, b),
        same_links_of(a, b),
        char_sum(b.nodes(), b.shape@) == char_sum(a.nodes(), a.shape@),
        line_sum(b.nodes(), b.shape@) == line_sum(a.nodes(), a.shape@),
{
    a.lemma_shaped_basics(Some(c), extra);
    lemma_parent_link(a, c, Some(c), extra);
    let t = a.shape@;
    let nodes = a.nodes();
    let nodes2 = b.nodes();
    assert forall|j: usize| #[trigger] t.contains(j) && j != p implies nodes2[j as int] == nodes[j as int] by {}
    lemma_fix_left(nodes, nodes2, t, None, c, p);
    assert forall|i: int| 0 <= i < a.nodes().len() implies (a.nodes()[i] is Some <==> #[trigger] b.nodes()[i] is Some)
        && (a.nodes()[i] is Some ==> a.nodes()[i].unwrap().piece == b.nodes()[i].unwrap().piece) by {}
    assert(same_payload(a, b));
    lemma_shaped_transfer(a, b, Some(c), Some(p), extra);
}

/// One step of the walk up past a right child: nothing changes, and the stale allowance
/// moves up to the parent.
pub proof fn lemma_update_right_step(a: PieceTree, c: usize, p: usize, extra: Option<usize>)
    requires
        a.shaped(Some(c), extra),
        a.shape@.contains(c),
        a.node(c).parent == Some(p),
        a.node(p).left != Some(c),
    ensures
        a.shaped(Some(p), extra),
{
    a.lemma_shaped_basics(Some(c), extra);
    lemma_parent_link(a, c, Some(c), extra);
    lemma_stale_up(a.nodes(), a.shape@, None, c, p);
    lemma_shaped_transfer(a, a, Some(c), Some(p), extra);
}

/// At the root no totals can be stale.
pub proof fn lemma_update_at_root(a: PieceTree, c: usize, extra: Option<usize>)
    requires
        a.shaped(Some(c), extra),
        a.shape@.contains(c),
        a.node(c).parent is None,
    ensures
        a.shaped(None, extra),
{
    a.lemma_shaped_basics(Some(c), extra);
    lemma_parent_link(a, c, Some(c), extra);
    lemma_unstale(a.nodes(), a.shape@, None, c);
    lemma_shaped_transfer(a, a, Some(c), None, extra);
}

impl PieceTree {
    /// Walks up from `idx` to the root, recomputing the left totals of every ancestor that
    /// holds the path in its left subtree.
    pub(crate) fn update_metadata(&mut self, idx: usize, Ghost(extra): Ghost<Option<usize>>)
        requires
            old(self).shaped(Some(idx), extra),
            old(self).shape@.contains(idx),
        ensures
            final(self).shaped(None, extra),
            final(self).shape@ == old(self).shape@,
            final(self).root == old(self).root,
            same_payload(*old(self), *final(self)),
            final(self).doc() == old(self).doc(),
            same_colors(*old(self), *final(self)),
            same_links_of(*old(self), *final(self)),
            forall|j: int| 0 <= j < old(self).nodes().len() && !old(self).shape@.contains(j as usize)
                ==> final(self).nodes()[j] == old(self).nodes()[j],
            char_sum(final(self).nodes(), final(self).shape@) == char_sum(old(self).nodes(), old(self).shape@),
            line_sum(final(self).nodes(), final(self).shape@) == line_sum(old(self).nodes(), old(self).shape@),
    {
        let mut current = idx;
        loop
            invariant
                self.shaped(Some(current), extra),
                self.shape@.contains(current),
                self.shape@ == old(self).shape@,
                self.root == old(self).root,
                same_payload(*old(self), *self),
                same_colors(*old(self), *self),
                same_links_of(*old(self), *self),
                forall|j: int| 0 <= j < old(self).nodes().len() && !old(self).shape@.contains(j as usize)
                    ==> self.nodes()[j] == old(self).nodes()[j],
                char_sum(self.nodes(), self.shape@) == char_sum(old(self).nodes(), old(self).shape@),
                line_sum(self.nodes(), self.shape@) == line_sum(old(self).nodes(), old(self).shape@),
            ensures
                self.shaped(None, extra),
                self.shape@ == old(self).shape@,
                self.root == old(self).root,
                same_payload(*old(self), *self),
                same_colors(*old(self), *self),
                same_links_of(*old(self), *self),
                forall|j: int| 0 <= j < old(self).nodes().len() && !old(self).shape@.contains(j as usize)
                    ==> self.nodes()[j] == old(self).nodes()[j],
                char_sum(self.nodes(), self.shape@) == char_sum(old(self).nodes(), old(self).shape@),
                line_sum(self.nodes(), self.shape@) == line_sum(old(self).nodes(), old(self).shape@),
            decreases self.shape@.depth(current),
        {
            proof {
                lemma_parent_link(*self, current, Some(current), extra);
            }
            let parent_idx = self.arena.get(current).parent;
            match parent_idx {
                None => {
                    proof {
                        lemma_update_at_root(*self, current, extra);
                    }
                    break;
                },
                Some(parent) => {
                    // only a parent whose left child we come from holds the path on its left
                    if self.arena.get(parent).left == Some(current) {
                        let ghost before = *self;
                        proof {
                            self.lemma_shaped_basics(Some(current), extra);
                            crate::shape_facts::lemma_subtree_sums(self.nodes(), self.shape@, current);
                        }
                        let (char_count, line_count) = self.subtree_counts(current, Ghost(Some(current)), Ghost(extra));
                        {
                            let node = self.arena.get_mut(parent);
                            node.left_char_count = char_count;
                            node.left_line_count = line_count;
                        }
                        proof {
                            assert(self.nodes() == before.nodes().update(parent as int, Some(Node {
                                left_char_count: char_sum(before.nodes(), before.shape@.subtree(current)) as usize,
                                left_line_count: line_sum(before.nodes(), before.shape@.subtree(current)) as usize,
                                ..before.node(parent)
                            })));
                            lemma_update_left_step(before, *self, current, parent, extra);
                        }
                    } else {
                        proof {
                            lemma_update_right_step(*self, current, parent, extra);
                        }
                    }
                    current = parent;
                },
            }
        }
        proof {
            crate::edit::lemma_payload_texts(*old(self), *self);
        }
    }
}

} // verus!
