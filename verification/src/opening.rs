use vstd::prelude::*;
use crate::arena::{links_below, Color, Node};
use crate::doc::{buffer_for, pieces_ok, slot_text, slot_texts};
use crate::edit::text_of_piece;
use crate::metadata::lemma_parent_link;
use crate::piece::{piece_wf, Piece};
use crate::relabel::{
    bump, bump_opt, lemma_shifted_contains, lemma_shifted_links, lemma_shifted_node, lemma_shifted_ordered,
    lemma_shifted_sums, shift_node, shifted, shifted_nodes, unbump,
};
use crate::shape::{char_sum, line_sum, Shape};
use crate::tree::PieceTree;

verus! {

impl PieceTree {
    /// The links of the nodes of a tree without extra nodes name slots of the arena.
    pub proof fn lemma_links_below(&self)
        requires
            self.shaped(None, None),
        ensures
            forall|i: int| 0 <= i < self.nodes().len() && #[trigger] self.nodes()[i] is Some ==> links_below(
                self.nodes()[i].unwrap(),
                self.nodes().len(),
            ),
    {
        self.lemma_shaped_basics(None, None);
        assert forall|i: int| 0 <= i < self.nodes().len() && #[trigger] self.nodes()[i] is Some implies links_below(
            self.nodes()[i].unwrap(),
            self.nodes().len(),
        ) by {
            let k = i as usize;
            assert(self.occupied(k));
            lemma_parent_link(*self, k, None, None);
            crate::balance::lemma_child_link(*self, k, None, None);
        }
    }
}

/// Opening a slot at `pos` for a new node, and shifting the shape to match, keeps the tree
/// shaped with the new node as its one extra node, and puts the node's text at `pos` among
/// the slot texts.
pub proof fn lemma_slot_opened(a: PieceTree, b: PieceTree, pos: usize, node: Node)
    requires
        a.shaped(None, None),
        pos <= a.nodes().len(),
        a.nodes().len() < usize::MAX,
        b.nodes() == shifted_nodes(a.nodes(), pos, Some(node)),
        b.arena.wf(),
        b.shape@ == shifted(a.shape@, pos),
        b.root == bump_opt(a.root, pos),
        b.original_buffer == a.original_buffer,
        b.add_buffer == a.add_buffer,
        piece_wf(node.piece, buffer_for(node.piece.buffer_kind, a.original_bytes(), a.add_bytes())),
    ensures
        b.shaped(None, Some(pos)),
        b.occupied(pos),
        b.node(pos) == node,
        !b.shape@.contains(pos),
        forall|j: usize| #[trigger] b.shape@.contains(j) ==> j != pos,
        b.nodes().len() == a.nodes().len() + 1,
        b.texts() == a.texts().insert(pos as int, text_of_piece(node.piece, a.original_bytes(), a.add_bytes())),
        char_sum(b.nodes(), b.shape@) == char_sum(a.nodes(), a.shape@),
        line_sum(b.nodes(), b.shape@) == line_sum(a.nodes(), a.shape@),
        a.no_red_pairs() ==> b.no_red_pairs(),
        a.aligned() && crate::aligned::piece_aligned(node.piece, a.original_bytes(), a.add_bytes()) ==> b.aligned(),
{
    a.lemma_shaped_basics(None, None);
    reveal(PieceTree::shaped);
    let an = a.nodes();
    let bn = b.nodes();
    let ob = a.original_bytes();
    let ab = a.add_bytes();
    let t = a.shape@;
    assert forall|i: usize| #[trigger] t.contains(i) implies i < usize::MAX by {
        assert(a.occupied(i));
    }
    lemma_shifted_contains(t, pos);
    lemma_shifted_ordered(t, pos);
    lemma_shifted_links(an, t, None, pos, Some(node));
    crate::shape::lemma_links_occupied(an, t, None, None);
    lemma_shifted_sums(an, t, pos, Some(node));
    assert forall|i: usize|
        #![trigger b.occupied(i)]
        #![trigger b.shape@.contains(i)]
        b.occupied(i) <==> (b.shape@.contains(i) || Some(pos) == Some(i)) by {
        if i != pos && (i as int) < bn.len() {
            let u = unbump(i, pos);
            assert(bn[i as int] == crate::relabel::shift_slot(an[u as int], pos));
            assert(a.occupied(u) <==> t.contains(u));
        }
    }
    assert(pieces_ok(bn, ob, ab)) by {
        assert forall|j: int| 0 <= j < bn.len() && #[trigger] bn[j] is Some implies crate::piece::piece_wf(
            bn[j].unwrap().piece,
            buffer_for(bn[j].unwrap().piece.buffer_kind, ob, ab),
        ) by {
            if j < pos {
                assert(an[j] is Some);
            } else if j > pos {
                assert(an[j - 1] is Some);
            }
        }
    }
    assert(b.shaped(None, Some(pos)));
    let tx = text_of_piece(node.piece, ob, ab);
    assert(b.texts() =~= a.texts().insert(pos as int, tx)) by {
        assert forall|j: int| 0 <= j < bn.len() implies slot_text(bn, ob, ab, j) == #[trigger] a.texts().insert(
            pos as int,
            tx,
        )[j] by {
            if j < pos {
                assert(bn[j] == crate::relabel::shift_slot(an[j], pos));
            } else if j > pos {
                assert(bn[j] == crate::relabel::shift_slot(an[j - 1], pos));
            }
        }
    }
    if a.no_red_pairs() {
        assert forall|j: usize| #[trigger] b.red_pair(j) && b.shape@.contains(j) implies Some(j) == None::<usize> by {
            let u = unbump(j, pos);
            assert(t.contains(u));
            assert(bump(u, pos) == j);
            lemma_shifted_node(an, pos, Some(node), u);
            lemma_parent_link(a, u, None, None);
            if let Some(q) = a.node(u).parent {
                assert(a.occupied(q));
                lemma_shifted_node(an, pos, Some(node), q);
            }
            assert(a.red_pair(u));
        }
    }
    if a.aligned() && crate::aligned::piece_aligned(node.piece, ob, ab) {
        assert forall|i: usize| #[trigger] b.occupied(i) implies {
            let p = b.node(i).piece;
            let buf = buffer_for(p.buffer_kind, b.original_bytes(), b.add_bytes());
            &&& vstd::utf8::is_char_boundary(buf, p.start as int)
            &&& vstd::utf8::is_char_boundary(buf, p.start + p.length)
        } by {
            if i != pos {
                let u = unbump(i, pos);
                assert(bn[i as int] == crate::relabel::shift_slot(an[u as int], pos));
                assert(a.occupied(u));
            }
        }
    }
}

impl PieceTree {
    /// Stores `piece` in a new red node in a slot opened at `pos` and hangs that node into
    /// the tree, which orders it by slot among the others.
    pub(crate) fn hang_piece_at(&mut self, pos: usize, piece: Piece)
        requires
            old(self).shaped(None, None),
            pos <= old(self).nodes().len(),
            old(self).nodes().len() < usize::MAX,
            piece_wf(piece, buffer_for(piece.buffer_kind, old(self).original_bytes(), old(self).add_bytes())),
            char_sum(old(self).nodes(), old(self).shape@) + piece.length <= usize::MAX,
            line_sum(old(self).nodes(), old(self).shape@) + piece.line_feed_count < usize::MAX,
        ensures
            final(self).shaped(None, None),
            final(self).texts() == old(self).texts().insert(
                pos as int,
                text_of_piece(piece, old(self).original_bytes(), old(self).add_bytes()),
            ),
            char_sum(final(self).nodes(), final(self).shape@) == char_sum(old(self).nodes(), old(self).shape@) + piece.length,
            line_sum(final(self).nodes(), final(self).shape@) == line_sum(old(self).nodes(), old(self).shape@) + piece.line_feed_count,
            final(self).nodes().len() == old(self).nodes().len() + 1,
            final(self).original_buffer == old(self).original_buffer,
            final(self).add_buffer == old(self).add_buffer,
            final(self).total_length == old(self).total_length,
            final(self).total_lines == old(self).total_lines,
            old(self).aligned() && crate::aligned::piece_aligned(piece, old(self).original_bytes(), old(self).add_bytes())
                ==> final(self).aligned(),
            final(self).root_black(),
            old(self).no_red_pairs() ==> final(self).no_red_pairs(),
            old(self).no_red_pairs() && old(self).black_balanced() ==> final(self).black_balanced(),
    {
        let ghost before = *self;
        proof {
            self.lemma_shaped_basics(None, None);
            self.lemma_links_below();
        }
        let new_node = Node {
            piece,
            left_char_count: 0,
            left_line_count: 0,
            color: Color::Red,
            left: None,
            right: None,
            parent: None,
        };
        let ghost nn = new_node;
        self.arena.insert_slot(pos, new_node);
        self.root = match self.root {
            Some(r) => Some(if r >= pos { r + 1 } else { r }),
            None => None,
        };
        proof {
            self.shape = Ghost(shifted(before.shape@, pos));
            lemma_slot_opened(before, *self, pos, nn);
            before.lemma_shaped_basics(None, None);
            assert forall|i: usize| #[trigger] before.shape@.contains(i) implies (i as int) < before.nodes().len()
                && before.nodes()[i as int] is Some by {
                assert(before.occupied(i));
            }
            crate::coloring::lemma_black_shifted(before.nodes(), before.shape@, pos, Some(nn));
        }
        let ghost opened = *self;
        self.insert_node(pos);
        proof {
            crate::edit::lemma_payload_texts(opened, *self);
            if before.aligned() && crate::aligned::piece_aligned(nn.piece, before.original_bytes(), before.add_bytes()) {
                PieceTree::lemma_aligned_payload(opened, *self);
            }
        }
    }
}

} // verus!
